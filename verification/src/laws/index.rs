//! What is found in any signature, told from its bytes.

use crate::blob;
use crate::blob::BlobEntry;
use crate::bytes;
use crate::error::ErrorView;
use crate::macho;
use crate::macho::LoadInfo;
use vstd::prelude::*;

verus! {

/// The slot that the index entry with the given number is for.
pub open spec fn slot_at(sig: Seq<u8>, i: int) -> u32 {
    bytes::u32_at(sig, 12 + i * 8, false)
}

/// Where the index entry with the given number says that its blob stands.
pub open spec fn offset_at(sig: Seq<u8>, i: int) -> int {
    bytes::u32_at(sig, 12 + i * 8 + 4, false) as int
}

/// Whether `sig` starts as an embedded signature and has an index entry with
/// the given number: the index declares as many and there is room for it.
pub open spec fn has_entry(sig: Seq<u8>, i: int) -> bool {
    &&& sig.len() >= 12
    &&& sig[0] == 0xfa && sig[1] == 0xde && sig[2] == 0x0c && sig[3] == 0xc0
    &&& 0 <= i < bytes::u32_at(sig, 8, false)
    &&& 12 + (i + 1) * 8 <= sig.len()
}

/// Whether the index entry with the given number is the first one for a slot.
pub open spec fn is_first(sig: Seq<u8>, slot: u32, i: int) -> bool {
    &&& has_entry(sig, i)
    &&& slot_at(sig, i) == slot
    &&& forall|j: int| 0 <= j < i ==> #[trigger] slot_at(sig, j) != slot
}

/// Whether a blob of the given magic number stands at `offset`: `content`,
/// which says itself how long it is.
pub open spec fn stands_at(sig: Seq<u8>, offset: int, magic: u32, content: Seq<u8>) -> bool {
    &&& content.len() >= 8
    &&& offset + content.len() <= sig.len()
    &&& sig.subrange(offset, offset + content.len()) == content
    &&& bytes::u32_at(sig, offset, false) == magic
    &&& bytes::u32_at(sig, offset + 4, false) == content.len()
}

/// Whether `sig` holds `content` as the blob for a slot.
pub open spec fn holds(sig: Seq<u8>, slot: u32, i: int, magic: u32, content: Seq<u8>) -> bool {
    is_first(sig, slot, i) && stands_at(sig, offset_at(sig, i), magic, content)
}

/// The index of a signature has the entries that it declares, as far as there
/// is room for them; what does not start as a signature has no index.
pub proof fn law_index_is_read(sig: Seq<u8>)
    ensures
        blob::superblob(sig) is None ==> forall|i: int| !has_entry(sig, i),
        blob::superblob(sig) matches Some(entries) ==> {
            &&& forall|i: int| (0 <= i < entries.len()) == #[trigger] has_entry(sig, i)
            &&& forall|i: int|
                0 <= i < entries.len() ==> {
                    &&& (#[trigger] entries[i]).slot == slot_at(sig, i)
                    &&& entries[i].offset == offset_at(sig, i)
                }
        },
{
    if sig.len() >= 12 {
        bytes::lemma_split4(sig[3], sig[2], sig[1], sig[0]);
    }
    if let Some(entries) = blob::superblob(sig) {
        assert forall|i: int| (0 <= i < entries.len()) == #[trigger] has_entry(sig, i) by {}
    }
}

/// The first entry for a slot is the one that is looked up.
proof fn lemma_looked_up(entries: Seq<BlobEntry>, slot: u32)
    ensures
        match blob::lookup(entries, slot) {
            Some(offset) => exists|i: int|
                0 <= i < entries.len() && (#[trigger] entries[i]).slot == slot
                    && entries[i].offset == offset && forall|j: int|
                    0 <= j < i ==> (#[trigger] entries[j]).slot != slot,
            None => forall|i: int| 0 <= i < entries.len() ==> (#[trigger] entries[i]).slot != slot,
        },
    decreases entries.len(),
{
    if entries.len() > 0 && entries[0].slot != slot {
        let rest = entries.drop_first();
        lemma_looked_up(rest, slot);
        assert forall|i: int| 0 < i < entries.len() implies #[trigger] entries[i] == rest[i - 1] by {}
        match blob::lookup(rest, slot) {
            Some(offset) => {
                let i = choose|i: int|
                    0 <= i < rest.len() && (#[trigger] rest[i]).slot == slot && rest[i].offset
                        == offset && forall|j: int|
                        0 <= j < i ==> (#[trigger] rest[j]).slot != slot;
                assert(entries[i + 1].slot == slot);
                assert forall|j: int| 0 <= j < i + 1 implies (#[trigger] entries[j]).slot
                    != slot by {
                    if j > 0 {
                        assert(rest[j - 1].slot != slot);
                    }
                }
            },
            None => {
                assert forall|i: int| 0 <= i < entries.len() implies (#[trigger] entries[i]).slot
                    != slot by {
                    if i > 0 {
                        assert(rest[i - 1].slot != slot);
                    }
                }
            },
        }
    }
}

/// The blob for a slot is the one that the first index entry for the slot
/// names, however many entries there are, if it lies within the signature.
pub proof fn law_blob_is_found(sig: Seq<u8>, slot: u32, magic: u32, content: Seq<u8>)
    ensures
        (blob::blob_for(sig, slot) == Some((magic, content))) == exists|i: int| #[trigger]
            holds(sig, slot, i, magic, content),
{
    reveal(blob::blob_for);
    law_index_is_read(sig);
    if let Some(entries) = blob::superblob(sig) {
        lemma_looked_up(entries, slot);
        if let Some(offset) = blob::lookup(entries, slot) {
            let i = choose|i: int|
                0 <= i < entries.len() && (#[trigger] entries[i]).slot == slot
                    && entries[i].offset == offset && forall|j: int|
                    0 <= j < i ==> (#[trigger] entries[j]).slot != slot;
            assert(has_entry(sig, i));
            assert forall|j: int| 0 <= j < i implies #[trigger] slot_at(sig, j) != slot by {
                assert(entries[j].slot != slot);
            }
            assert(is_first(sig, slot, i));
            if blob::blob_for(sig, slot) == Some((magic, content)) {
                assert(holds(sig, slot, i, magic, content));
            }
            if exists|k: int| #[trigger] holds(sig, slot, k, magic, content) {
                let k = choose|k: int| #[trigger] holds(sig, slot, k, magic, content);
                assert(k == i) by {
                    if k < i {
                        assert(slot_at(sig, k) != slot);
                    } else if i < k {
                        assert(slot_at(sig, i) != slot);
                    }
                }
                assert(stands_at(sig, offset as int, magic, content));
            }
        } else if exists|k: int| #[trigger] holds(sig, slot, k, magic, content) {
            let k = choose|k: int| #[trigger] holds(sig, slot, k, magic, content);
            assert(has_entry(sig, k));
            assert(entries[k].slot == slot);
        }
    }
}

/// The entitlements of a signature are the bytes after the header of its
/// entitlements blob, which is the one for slot 5, and there are none without
/// one.
pub proof fn law_entitlements_are_in_slot_5(sig: Seq<u8>, plist: Seq<u8>)
    ensures
        (blob::entitlements_in(sig) == Some(plist)) == exists|i: int, content: Seq<u8>| #[trigger]
            holds(sig, 5, i, 0xfade_7171, content) && plist == content.skip(8),
{
    if let Some((magic, content)) = blob::blob_for(sig, 5) {
        law_blob_is_found(sig, 5, magic, content);
        if blob::entitlements_in(sig) == Some(plist) {
            let i = choose|i: int| #[trigger] holds(sig, 5, i, magic, content);
            assert(holds(sig, 5, i, 0xfade_7171, content) && plist == content.skip(8));
        }
    }
    if exists|i: int, content: Seq<u8>| #[trigger]
        holds(sig, 5, i, 0xfade_7171, content) && plist == content.skip(8) {
        let (i, content) = choose|i: int, content: Seq<u8>| #[trigger]
            holds(sig, 5, i, 0xfade_7171, content) && plist == content.skip(8);
        law_blob_is_found(sig, 5, 0xfade_7171, content);
    }
}

/// A signature is a linker's exactly if the flags of its CodeDirectory, the
/// blob for slot 0, have the bit for that.
pub proof fn law_linker_signed_is_a_flag(sig: Seq<u8>)
    ensures
        blob::linker_signed_in(sig) == exists|i: int, cd: Seq<u8>| #[trigger]
            holds(sig, 0, i, 0xfade_0c02, cd) && cd.len() >= 16 && bytes::u32_at(cd, 12, false)
                & 0x2_0000 != 0,
{
    if let Some((magic, cd)) = blob::blob_for(sig, 0) {
        law_blob_is_found(sig, 0, magic, cd);
        if blob::linker_signed_in(sig) {
            let i = choose|i: int| #[trigger] holds(sig, 0, i, magic, cd);
            assert(holds(sig, 0, i, 0xfade_0c02, cd));
        }
    }
    if exists|i: int, cd: Seq<u8>| #[trigger]
        holds(sig, 0, i, 0xfade_0c02, cd) && cd.len() >= 16 && bytes::u32_at(cd, 12, false)
            & 0x2_0000 != 0 {
        let (i, cd) = choose|i: int, cd: Seq<u8>| #[trigger]
            holds(sig, 0, i, 0xfade_0c02, cd) && cd.len() >= 16 && bytes::u32_at(cd, 12, false)
                & 0x2_0000 != 0;
        law_blob_is_found(sig, 0, 0xfade_0c02, cd);
    }
}

/// The signature of a thin binary is what its command for the signature
/// names, if that is something and lies within the file. Its entitlements are
/// those of the binary, and it is the one that may be a linker's.
pub proof fn law_signature_is_where_the_command_says(data: Seq<u8>)
    ensures
        macho::load_info(data) is Err ==> blob::signature(data) is None,
        forall|info: LoadInfo| #[trigger]
            macho::load_info(data) == Ok::<LoadInfo, ErrorView>(info) ==> match info.codesig {
                None => blob::signature(data) is None,
                Some(found) => {
                    let start = found.data_offset as int;
                    let end = start + found.data_size;
                    &&& start < end <= data.len() ==> blob::signature(data) == Some(
                        data.subrange(start, end),
                    )
                    &&& start == end || end > data.len() ==> blob::signature(data) is None
                },
            },
        blob::signature(data) is None ==> blob::entitlements_of(data) is None
            && !blob::linker_signed(data),
        blob::signature(data) matches Some(sig) ==> blob::entitlements_of(data)
            == blob::entitlements_in(sig) && blob::linker_signed(data) == blob::linker_signed_in(
            sig,
        ),
{
}

} // verus!
