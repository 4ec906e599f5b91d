//! Bounds-checked scanning of existing code signature SuperBlobs.

use crate::bytes;
use crate::constants::{
    CSMAGIC_CODEDIRECTORY, CSMAGIC_EMBEDDED_ENTITLEMENTS, CSMAGIC_EMBEDDED_SIGNATURE,
    CSSLOT_CODEDIRECTORY, CSSLOT_ENTITLEMENTS, CS_LINKER_SIGNED,
};
use crate::macho;
use crate::macho::LoadInfo;
use vstd::prelude::*;
use vstd::slice::{slice_subrange, slice_to_vec};

verus! {

/// An entry of a SuperBlob index.
#[derive(Debug, Clone, Copy)]
pub struct BlobEntry {
    pub slot: u32,
    pub offset: usize,
}

/// The big-endian integer at `offset`, if there is one.
pub open spec fn be32(data: Seq<u8>, offset: int) -> Option<u32> {
    if offset + 4 <= data.len() {
        Some(bytes::u32_at(data, offset, false))
    } else {
        None
    }
}

pub fn be_u32(data: &[u8], offset: usize) -> (value: Option<u32>)
    ensures
        value == be32(data@, offset as int),
{
    if data.len() < 4 || offset > data.len() - 4 {
        return None;
    }
    Some(bytes::get_u32(data, offset, false))
}

/// The index entry with the given number.
pub open spec fn entry_at(sig: Seq<u8>, i: int) -> BlobEntry {
    BlobEntry {
        slot: bytes::u32_at(sig, 12 + i * 8, false),
        offset: bytes::u32_at(sig, 12 + i * 8 + 4, false) as usize,
    }
}

/// The number of index entries: as many as the header declares, as far as
/// the data has room for them.
pub open spec fn entry_count(sig: Seq<u8>) -> int {
    let declared = bytes::u32_at(sig, 8, false) as int;
    let room = (sig.len() - 12) / 8;
    if declared <= room {
        declared
    } else {
        room
    }
}

/// The index entries of a SuperBlob, if `sig` is one.
pub open spec fn superblob(sig: Seq<u8>) -> Option<Seq<BlobEntry>> {
    if be32(sig, 0) == Some(CSMAGIC_EMBEDDED_SIGNATURE) && sig.len() >= 12 {
        Some(Seq::new(entry_count(sig) as nat, |i: int| entry_at(sig, i)))
    } else {
        None
    }
}

/// The offset that the first entry for `slot` gives.
pub open spec fn lookup(entries: Seq<BlobEntry>, slot: u32) -> Option<usize>
    decreases entries.len(),
{
    if entries.len() == 0 {
        None
    } else if entries[0].slot == slot {
        Some(entries[0].offset)
    } else {
        lookup(entries.drop_first(), slot)
    }
}

/// The magic number and the content of the blob at `offset`, header
/// included, if it lies within the data.
pub open spec fn blob_at(sig: Seq<u8>, offset: int) -> Option<(u32, Seq<u8>)> {
    let length = bytes::u32_at(sig, offset + 4, false);
    if offset + 8 <= sig.len() && length >= 8 && offset + length <= sig.len() {
        Some((bytes::u32_at(sig, offset, false), sig.subrange(offset, offset + length)))
    } else {
        None
    }
}

/// The magic number and the content of the blob for `slot`.
#[verifier::opaque]
pub open spec fn blob_for(sig: Seq<u8>, slot: u32) -> Option<(u32, Seq<u8>)> {
    match superblob(sig) {
        None => None,
        Some(entries) => match lookup(entries, slot) {
            None => None,
            Some(offset) => blob_at(sig, offset as int),
        },
    }
}

/// The blob index entries of an embedded signature SuperBlob, in order.
/// Returns `None` if the data is not a SuperBlob.
pub fn iter_superblob(sig: &[u8]) -> (entries: Option<Vec<BlobEntry>>)
    ensures
        match entries {
            Some(entries) => superblob(sig@) == Some(entries@),
            None => superblob(sig@) is None,
        },
{
    match be_u32(sig, 0) {
        None => return None,
        Some(magic) => if magic != CSMAGIC_EMBEDDED_SIGNATURE {
            return None;
        },
    }
    let count = match be_u32(sig, 8) {
        None => return None,
        Some(count) => count as usize,
    };
    let room: usize = (sig.len() - 12) / 8;
    let len: usize = if count <= room {
        count
    } else {
        room
    };
    let mut entries: Vec<BlobEntry> = Vec::new();
    let mut i: usize = 0;
    while i < len
        invariant
            i <= len,
            12 + len * 8 <= sig.len(),
            entries@ == Seq::new(i as nat, |k: int| entry_at(sig@, k)),
        decreases len - i,
    {
        let index_offset: usize = 12 + i * 8;
        entries.push(
            BlobEntry {
                slot: bytes::get_u32(sig, index_offset, false),
                offset: bytes::get_u32(sig, index_offset + 4, false) as usize,
            },
        );
        i += 1;
    }
    assert(len == entry_count(sig@));
    Some(entries)
}

/// Find a blob with the given slot index and return `(magic, content)` where
/// `content` includes the 8-byte blob header.
pub fn find_blob(sig: &[u8], slot: u32) -> (found: Option<(u32, &[u8])>)
    ensures
        match found {
            Some((magic, content)) => blob_for(sig@, slot) == Some((magic, content@)),
            None => blob_for(sig@, slot) is None,
        },
        found matches Some((_, content)) ==> 8 <= content@.len() <= u32::MAX && superblob(
            sig@,
        ) is Some,
{
    proof {
        reveal(blob_for);
    }
    let entries = match iter_superblob(sig) {
        None => return None,
        Some(entries) => entries,
    };
    let mut i: usize = 0;
    assert(entries@.skip(0) =~= entries@);
    while i < entries.len()
        invariant
            i <= entries@.len(),
            superblob(sig@) == Some(entries@),
            lookup(entries@, slot) == lookup(entries@.skip(i as int), slot),
        decreases entries@.len() - i,
    {
        proof {
            reveal(blob_for);
        }
        assert(entries@.skip(i as int).drop_first() =~= entries@.skip(i + 1));
        let entry = entries[i];
        if entry.slot == slot {
            let magic = match be_u32(sig, entry.offset) {
                None => return None,
                Some(magic) => magic,
            };
            if sig.len() - entry.offset < 8 {
                return None;
            }
            let length = bytes::get_u32(sig, entry.offset + 4, false) as usize;
            if length < 8 || length > sig.len() - entry.offset {
                return None;
            }
            return Some((magic, slice_subrange(sig, entry.offset, entry.offset + length)));
        }
        i += 1;
    }
    None
}

/// The entitlements plist in a signature SuperBlob.
pub open spec fn entitlements_in(sig: Seq<u8>) -> Option<Seq<u8>> {
    match blob_for(sig, CSSLOT_ENTITLEMENTS) {
        Some((magic, content)) => if magic == CSMAGIC_EMBEDDED_ENTITLEMENTS {
            Some(content.skip(8))
        } else {
            None
        },
        None => None,
    }
}

/// Whether the CodeDirectory of a signature SuperBlob has the
/// `CS_LINKER_SIGNED` flag.
pub open spec fn linker_signed_in(sig: Seq<u8>) -> bool {
    match blob_for(sig, CSSLOT_CODEDIRECTORY) {
        Some((magic, content)) => magic == CSMAGIC_CODEDIRECTORY && content.len() >= 16
            && bytes::u32_at(content, 12, false) & CS_LINKER_SIGNED != 0,
        None => false,
    }
}

/// Whether a byte vector that may be missing is the given sequence that may
/// be missing.
pub open spec fn is_bytes(found: Option<Vec<u8>>, expected: Option<Seq<u8>>) -> bool {
    match found {
        Some(found) => expected == Some(found@),
        None => expected is None,
    }
}

/// Extract the entitlements plist from a signature SuperBlob.
pub fn entitlements_from_superblob(sig: &[u8]) -> (found: Option<Vec<u8>>)
    ensures
        is_bytes(found, entitlements_in(sig@)),
{
    match find_blob(sig, CSSLOT_ENTITLEMENTS) {
        None => None,
        Some((magic, content)) => {
            if magic != CSMAGIC_EMBEDDED_ENTITLEMENTS {
                return None;
            }
            let plist = slice_to_vec(slice_subrange(content, 8, content.len()));
            assert(plist@ =~= content@.skip(8));
            Some(plist)
        },
    }
}

/// Check whether the CodeDirectory of a signature SuperBlob has the
/// `CS_LINKER_SIGNED` flag.
pub fn linker_signed_from_superblob(sig: &[u8]) -> (signed: bool)
    ensures
        signed == linker_signed_in(sig@),
{
    match find_blob(sig, CSSLOT_CODEDIRECTORY) {
        None => false,
        Some((magic, content)) => {
            if magic != CSMAGIC_CODEDIRECTORY {
                return false;
            }
            match be_u32(content, 12) {
                Some(flags) => flags & CS_LINKER_SIGNED != 0,
                None => false,
            }
        },
    }
}

/// The embedded signature SuperBlob of a thin Mach-O binary, if it lies
/// within the file.
pub open spec fn signature(data: Seq<u8>) -> Option<Seq<u8>> {
    match macho::load_info(data) {
        Ok(LoadInfo { codesig: Some(codesig), .. }) => if codesig.data_size != 0
            && codesig.data_offset + codesig.data_size <= data.len() {
            Some(
                data.subrange(
                    codesig.data_offset as int,
                    codesig.data_offset + codesig.data_size,
                ),
            )
        } else {
            None
        },
        _ => None,
    }
}

/// Locate the embedded signature SuperBlob of a thin Mach-O binary.
pub fn signature_of(data: &[u8]) -> (found: Option<&[u8]>)
    ensures
        match found {
            Some(sig) => signature(data@) == Some(sig@),
            None => signature(data@) is None,
        },
{
    proof {
        if let Ok(info) = macho::load_info(data@) {
            macho::lemma_load_info(data@, info);
        }
    }
    match macho::macho_kind(data) {
        None => return None,
        Some(kind) => if !kind.is_thin() {
            return None;
        },
    }
    let codesig = match macho::parse_load_info(data) {
        Err(_) => return None,
        Ok(info) => match info.codesig {
            None => return None,
            Some(codesig) => codesig,
        },
    };
    if codesig.data_size == 0 {
        return None;
    }
    let start = codesig.data_offset as usize;
    let size = codesig.data_size as usize;
    if start > data.len() || size > data.len() - start {
        return None;
    }
    Some(slice_subrange(data, start, start + size))
}

/// The entitlements plist embedded in the signature of a thin binary.
pub open spec fn entitlements_of(data: Seq<u8>) -> Option<Seq<u8>> {
    match signature(data) {
        Some(sig) => entitlements_in(sig),
        None => None,
    }
}

/// Whether a thin binary carries a linker-generated signature.
pub open spec fn linker_signed(data: Seq<u8>) -> bool {
    match signature(data) {
        Some(sig) => linker_signed_in(sig),
        None => false,
    }
}

/// Extract the entitlements plist embedded in the code signature of a thin
/// Mach-O binary.
///
/// Returns `None` if the binary is not a thin Mach-O binary, is not signed,
/// or its signature carries no entitlements. This is the building block for
/// implementing `codesign --preserve-metadata=entitlements` behavior: extract
/// them from the original binary and pass them to the signer as
/// [`crate::Entitlements::Custom`].
pub fn extract_entitlements(data: &[u8]) -> (found: Option<Vec<u8>>)
    ensures
        is_bytes(found, entitlements_of(data@)),
{
    match signature_of(data) {
        None => None,
        Some(sig) => entitlements_from_superblob(sig),
    }
}

/// Check whether a thin Mach-O binary carries a linker-generated ad-hoc
/// signature (`CS_LINKER_SIGNED`).
///
/// Returns `false` for unsigned binaries, fat binaries, and non-Mach-O data.
pub fn is_linker_signed(data: &[u8]) -> (signed: bool)
    ensures
        signed == linker_signed(data@),
{
    match signature_of(data) {
        Some(sig) => linker_signed_from_superblob(sig),
        None => false,
    }
}

} // verus!
