//! What is found in a signature that was serialized from a layout.

use crate::blob;
use crate::blob::BlobEntry;
use crate::bytes;
use crate::constants::{
    CSMAGIC_BLOBWRAPPER, CSMAGIC_CODEDIRECTORY, CSMAGIC_EMBEDDED_ENTITLEMENTS,
    CSMAGIC_EMBEDDED_SIGNATURE, CSMAGIC_REQUIREMENTS, CSSLOT_CODEDIRECTORY, CSSLOT_ENTITLEMENTS, CSSLOT_REQUIREMENTS,
    CSSLOT_SIGNATURESLOT, CS_HASHTYPE_SHA256, CS_PAGE_SIZE_LOG2, CS_VERSION,
};
use crate::digest::HASH_SIZE;
use crate::layout;
use crate::layout::{LayoutView, CMS_BLOB_SIZE, CODEDIRECTORY_SIZE, REQUIREMENTS_BLOB_SIZE};
use vstd::prelude::*;

verus! {

/// Integers before and after a seam between two sequences.
pub proof fn lemma_seam(x: Seq<u8>, y: Seq<u8>)
    ensures
        forall|i: int|
            0 <= i && i + 4 <= x.len() ==> #[trigger] bytes::u32_at(x + y, i, false)
                == bytes::u32_at(x, i, false),
        forall|i: int|
            0 <= i && i + 4 <= y.len() ==> bytes::u32_at(x + y, x.len() + i, false)
                == #[trigger] bytes::u32_at(y, i, false),
{
}

/// Integers at the head of a sequence.
pub proof fn lemma_head(whole: Seq<u8>, head: Seq<u8>)
    requires
        head.len() <= whole.len(),
        whole.take(head.len() as int) == head,
    ensures
        forall|i: int|
            0 <= i && i + 4 <= head.len() ==> #[trigger] bytes::u32_at(whole, i, false)
                == bytes::u32_at(head, i, false),
        forall|i: int| 0 <= i < head.len() ==> whole[i] == #[trigger] head[i],
{
    assert forall|i: int| 0 <= i < head.len() implies whole[i] == #[trigger] head[i] by {
        assert(whole.take(head.len() as int)[i] == whole[i]);
    }
}

/// An integer that is appended stands at the end, and leaves those before it
/// alone.
pub proof fn lemma_append_word(x: Seq<u8>, value: int)
    requires
        0 <= value <= u32::MAX,
    ensures
        (x + layout::be(value)).len() == x.len() + 4,
        bytes::u32_at(x + layout::be(value), x.len() as int, false) == value,
        forall|i: int|
            0 <= i && i + 4 <= x.len() ==> #[trigger] bytes::u32_at(
                x + layout::be(value),
                i,
                false,
            ) == bytes::u32_at(x, i, false),
{
    lemma_seam(x, layout::be(value));
    bytes::lemma_u32_round_trip(value as u32, false);
    assert(bytes::u32_at(layout::be(value), 0, false) == value);
}

/// The first integer.
pub proof fn lemma_first_word(value: int)
    requires
        0 <= value <= u32::MAX,
    ensures
        layout::be(value).len() == 4,
        bytes::u32_at(layout::be(value), 0, false) == value,
{
    bytes::lemma_u32_round_trip(value as u32, false);
}

/// The words of a SuperBlob header.
pub proof fn lemma_superblob_header(l: LayoutView)
    requires
        l.wf(),
    ensures
        ({
            let header = l.superblob_header();
            &&& header.len() == l.superblob_header_size()
            &&& bytes::u32_at(header, 0, false) == CSMAGIC_EMBEDDED_SIGNATURE
            &&& bytes::u32_at(header, 4, false) == l.blob_size
            &&& bytes::u32_at(header, 8, false) == l.blob_count()
            &&& bytes::u32_at(header, 12, false) == CSSLOT_CODEDIRECTORY
            &&& bytes::u32_at(header, 16, false) == l.superblob_header_size()
            &&& bytes::u32_at(header, 20, false) == CSSLOT_REQUIREMENTS
            &&& bytes::u32_at(header, 24, false) == l.requirements_offset()
            &&& l.entitlements is Some ==> {
                &&& bytes::u32_at(header, 28, false) == CSSLOT_ENTITLEMENTS
                &&& bytes::u32_at(header, 32, false) == l.entitlements_offset()
                &&& bytes::u32_at(header, 36, false) == CSSLOT_SIGNATURESLOT
                &&& bytes::u32_at(header, 40, false) == l.cms_offset()
            }
            &&& l.entitlements is None ==> {
                &&& bytes::u32_at(header, 28, false) == CSSLOT_SIGNATURESLOT
                &&& bytes::u32_at(header, 32, false) == l.cms_offset()
            }
        }),
{
    reveal(LayoutView::superblob_header);
    let a = layout::be(CSMAGIC_EMBEDDED_SIGNATURE as int);
    let b = a + layout::be(l.blob_size as int);
    let c = b + layout::be(l.blob_count());
    let d = c + layout::be(CSSLOT_CODEDIRECTORY as int);
    let e = d + layout::be(l.superblob_header_size());
    let f = e + layout::be(CSSLOT_REQUIREMENTS as int);
    let g = f + layout::be(l.requirements_offset());
    lemma_first_word(CSMAGIC_EMBEDDED_SIGNATURE as int);
    lemma_append_word(a, l.blob_size as int);
    lemma_append_word(b, l.blob_count());
    lemma_append_word(c, CSSLOT_CODEDIRECTORY as int);
    lemma_append_word(d, l.superblob_header_size());
    lemma_append_word(e, CSSLOT_REQUIREMENTS as int);
    lemma_append_word(f, l.requirements_offset());
    let h = g + layout::be(CSSLOT_ENTITLEMENTS as int);
    let i = h + layout::be(l.entitlements_offset());
    lemma_append_word(g, CSSLOT_ENTITLEMENTS as int);
    lemma_append_word(h, l.entitlements_offset());
    let middle = if l.entitlements is Some {
        i
    } else {
        g
    };
    lemma_append_word(middle, CSSLOT_SIGNATURESLOT as int);
    lemma_append_word(middle + layout::be(CSSLOT_SIGNATURESLOT as int), l.cms_offset());
}

/// The fields of a CodeDirectory header.
pub proof fn lemma_codedirectory_header(l: LayoutView)
    requires
        l.wf(),
    ensures
        ({
            let header = l.codedirectory_header();
            &&& header.len() == CODEDIRECTORY_SIZE
            &&& bytes::u32_at(header, 0, false) == CSMAGIC_CODEDIRECTORY
            &&& bytes::u32_at(header, 4, false) == l.codedirectory_size()
            &&& bytes::u32_at(header, 8, false) == CS_VERSION
            &&& bytes::u32_at(header, 12, false) == l.flags
            &&& bytes::u32_at(header, 16, false) == l.hash_offset()
            &&& bytes::u32_at(header, 20, false) == CODEDIRECTORY_SIZE
            &&& bytes::u32_at(header, 24, false) == l.n_special_slots
            &&& bytes::u32_at(header, 28, false) == l.n_code_slots
            &&& bytes::u32_at(header, 32, false) == l.code_limit
            &&& header[36] == HASH_SIZE
            &&& header[37] == CS_HASHTYPE_SHA256
            &&& header[39] == CS_PAGE_SIZE_LOG2
        }),
{
    let a = layout::be(CSMAGIC_CODEDIRECTORY as int);
    let b = a + layout::be(l.codedirectory_size());
    let c = b + layout::be(CS_VERSION as int);
    let d = c + layout::be(l.flags as int);
    let e = d + layout::be(l.hash_offset());
    let f = e + layout::be(CODEDIRECTORY_SIZE as int);
    let g = f + layout::be(l.n_special_slots as int);
    let h = g + layout::be(l.n_code_slots as int);
    let i = h + layout::be(l.code_limit as int);
    lemma_first_word(CSMAGIC_CODEDIRECTORY as int);
    lemma_append_word(a, l.codedirectory_size());
    lemma_append_word(b, CS_VERSION as int);
    lemma_append_word(c, l.flags as int);
    lemma_append_word(d, l.hash_offset());
    lemma_append_word(e, CODEDIRECTORY_SIZE as int);
    lemma_append_word(f, l.n_special_slots as int);
    lemma_append_word(g, l.n_code_slots as int);
    lemma_append_word(h, l.code_limit as int);
    assert(l.codedirectory_words() == i) by {
        reveal(LayoutView::codedirectory_words);
    }
    assert(l.codedirectory_tail().len() == 48) by {
        reveal(LayoutView::codedirectory_tail);
    }
    let quad = seq![HASH_SIZE as u8, CS_HASHTYPE_SHA256, 0u8, CS_PAGE_SIZE_LOG2];
    lemma_seam(i, quad);
    lemma_seam(i + quad, l.codedirectory_tail());
    assert((i + quad)[36] == quad[0]);
    assert((i + quad)[37] == quad[1]);
    assert((i + quad)[39] == quad[3]);
}

/// A blob that stands somewhere with its own length is found there.
proof fn lemma_blob_at(sig: Seq<u8>, offset: int, content: Seq<u8>)
    requires
        0 <= offset,
        offset + content.len() <= sig.len(),
        sig.subrange(offset, offset + content.len()) == content,
        content.len() >= 8,
        bytes::u32_at(content, 4, false) == content.len(),
    ensures
        blob::blob_at(sig, offset) == Some((bytes::u32_at(content, 0, false), content)),
{
    assert forall|k: int| 0 <= k < content.len() implies #[trigger] content[k] == sig[offset
        + k] by {}
    bytes::lemma_u32_same(content, 0, sig, offset, false);
    bytes::lemma_u32_same(content, 4, sig, offset + 4, false);
}

/// Where the blobs stand in a signature.
pub proof fn lemma_region(l: LayoutView, page_hashes: Seq<u8>)
    requires
        l.wf(),
        page_hashes.len() == l.n_code_slots * HASH_SIZE,
    ensures
        ({
            let region = l.region(page_hashes);
            let cd = l.codedirectory(page_hashes);
            &&& region.len() == l.allocated_size
            &&& region.take(l.superblob_header_size()) == l.superblob_header()
            &&& cd.len() == l.codedirectory_size()
            &&& region.subrange(l.superblob_header_size(), l.requirements_offset()) == cd
            &&& region.subrange(l.requirements_offset(), l.entitlements_offset())
                == layout::requirements_blob()
            &&& l.entitlements matches Some(entitlements) ==> region.subrange(
                l.entitlements_offset(),
                l.cms_offset(),
            ) == layout::entitlements_blob(entitlements)
        }),
{
    l.lemma_lengths(page_hashes);
    bytes::lemma_round_up(l.blob_size + layout::ALLOCATION_SLACK, 16);
    let header = l.superblob_header();
    let cd = l.codedirectory(page_hashes);
    let requirements = layout::requirements_blob();
    let region = l.region(page_hashes);
    let content = l.content(page_hashes);
    assert(content.len() <= region.len());
    assert forall|k: int| 0 <= k < content.len() implies #[trigger] region[k] == content[k] by {}
    reveal(LayoutView::content);
    assert(region.take(l.superblob_header_size()) =~= header);
    assert(region.subrange(l.superblob_header_size(), l.requirements_offset()) =~= cd);
    assert(region.subrange(l.requirements_offset(), l.entitlements_offset()) =~= requirements);
    if let Some(entitlements) = l.entitlements {
        assert(region.subrange(l.entitlements_offset(), l.cms_offset())
            =~= layout::entitlements_blob(entitlements));
    }
}

/// The index of a signature.
pub open spec fn entries_of(l: LayoutView) -> Seq<BlobEntry> {
    let directory = BlobEntry {
        slot: CSSLOT_CODEDIRECTORY,
        offset: l.superblob_header_size() as usize,
    };
    let requirements = BlobEntry {
        slot: CSSLOT_REQUIREMENTS,
        offset: l.requirements_offset() as usize,
    };
    let entitlements = BlobEntry {
        slot: CSSLOT_ENTITLEMENTS,
        offset: l.entitlements_offset() as usize,
    };
    let cms = BlobEntry { slot: CSSLOT_SIGNATURESLOT, offset: l.cms_offset() as usize };
    if l.entitlements is Some {
        seq![directory, requirements, entitlements, cms]
    } else {
        seq![directory, requirements, cms]
    }
}

/// The index is read back.
pub proof fn lemma_entries(l: LayoutView, page_hashes: Seq<u8>)
    requires
        l.wf(),
        page_hashes.len() == l.n_code_slots * HASH_SIZE,
    ensures
        bytes::u32_at(l.region(page_hashes), 4, false) == l.blob_size,
        blob::superblob(l.region(page_hashes)) == Some(entries_of(l)),
{
    let region = l.region(page_hashes);
    let header = l.superblob_header();
    lemma_region(l, page_hashes);
    lemma_superblob_header(l);
    bytes::lemma_round_up(l.blob_size + layout::ALLOCATION_SLACK, 16);
    lemma_head(region, header);
    assert(blob::entry_count(region) == l.blob_count());
    let entries = blob::superblob(region)->0;
    assert(entries[0] == entries_of(l)[0]);
    assert(entries[1] == entries_of(l)[1]);
    assert(entries[2] == entries_of(l)[2]);
    if l.entitlements is Some {
        assert(entries[3] == entries_of(l)[3]);
    }
    assert(entries =~= entries_of(l));
}

/// Where the index says that the blobs stand.
pub proof fn lemma_lookup(l: LayoutView)
    ensures
        blob::lookup(entries_of(l), CSSLOT_CODEDIRECTORY) == Some(
            l.superblob_header_size() as usize,
        ),
        blob::lookup(entries_of(l), CSSLOT_REQUIREMENTS) == Some(l.requirements_offset() as usize),
        blob::lookup(entries_of(l), CSSLOT_ENTITLEMENTS) == (if l.entitlements is Some {
            Some(l.entitlements_offset() as usize)
        } else {
            None
        }),
{
    reveal_with_fuel(blob::lookup, 5);
    let entries = entries_of(l);
    let second = entries.drop_first();
    let third = second.drop_first();
    let fourth = third.drop_first();
    assert(second[0] == entries[1]);
    assert(third[0] == entries[2]);
    if l.entitlements is Some {
        assert(fourth[0] == entries[3]);
    }
}

/// The blobs of a signature are found by their slots.
pub proof fn lemma_blobs(l: LayoutView, page_hashes: Seq<u8>)
    requires
        l.wf(),
        page_hashes.len() == l.n_code_slots * HASH_SIZE,
    ensures
        ({
            let region = l.region(page_hashes);
            &&& blob::blob_for(region, CSSLOT_CODEDIRECTORY) == Some(
                (CSMAGIC_CODEDIRECTORY, l.codedirectory(page_hashes)),
            )
            &&& blob::blob_for(region, CSSLOT_REQUIREMENTS) == Some(
                (CSMAGIC_REQUIREMENTS, layout::requirements_blob()),
            )
            &&& blob::blob_for(region, CSSLOT_ENTITLEMENTS) == (match l.entitlements {
                Some(entitlements) => Some(
                    (CSMAGIC_EMBEDDED_ENTITLEMENTS, layout::entitlements_blob(entitlements)),
                ),
                None => None,
            })
        }),
{
    reveal(blob::blob_for);
    let region = l.region(page_hashes);
    let cd = l.codedirectory(page_hashes);
    lemma_region(l, page_hashes);
    lemma_entries(l, page_hashes);
    lemma_lookup(l);
    bytes::lemma_round_up(l.blob_size + layout::ALLOCATION_SLACK, 16);

    lemma_codedirectory_header(l);
    let header = l.codedirectory_header();
    assert(cd.take(CODEDIRECTORY_SIZE as int) =~= header) by {
        reveal(LayoutView::codedirectory);
    }
    lemma_head(cd, header);
    lemma_blob_at(region, l.superblob_header_size(), cd);

    let magic = layout::be(CSMAGIC_REQUIREMENTS as int);
    let sized = magic + layout::be(REQUIREMENTS_BLOB_SIZE as int);
    lemma_first_word(CSMAGIC_REQUIREMENTS as int);
    lemma_append_word(magic, REQUIREMENTS_BLOB_SIZE as int);
    lemma_append_word(sized, 0);
    lemma_blob_at(region, l.requirements_offset(), layout::requirements_blob());

    if let Some(entitlements) = l.entitlements {
        let magic = layout::be(CSMAGIC_EMBEDDED_ENTITLEMENTS as int);
        let len = 8 + entitlements.len() as int;
        lemma_first_word(CSMAGIC_EMBEDDED_ENTITLEMENTS as int);
        lemma_append_word(magic, len);
        lemma_seam(magic + layout::be(len), entitlements);
        lemma_blob_at(region, l.entitlements_offset(), layout::entitlements_blob(entitlements));
    }
}

/// The blobs of a signature that verification does not look at: the empty CMS
/// signature wrapper, and none but those with a slot of their own. Zeros
/// follow.
#[verifier::rlimit(30)]
pub proof fn lemma_other_blobs(l: LayoutView, page_hashes: Seq<u8>)
    requires
        l.wf(),
        page_hashes.len() == l.n_code_slots * HASH_SIZE,
    ensures
        ({
            let region = l.region(page_hashes);
            &&& blob::blob_for(region, CSSLOT_SIGNATURESLOT) == Some(
                (CSMAGIC_BLOBWRAPPER, layout::cms_blob()),
            )
            &&& forall|slot: u32|
                slot != CSSLOT_CODEDIRECTORY && slot != CSSLOT_REQUIREMENTS && slot
                    != CSSLOT_ENTITLEMENTS && slot != CSSLOT_SIGNATURESLOT
                    ==> #[trigger] blob::blob_for(region, slot) is None
            &&& region.subrange(l.cms_offset(), l.content_size()) == layout::cms_blob()
            &&& bytes::all_zero(region, l.blob_size as int, region.len() as int)
        }),
{
    reveal(blob::blob_for);
    reveal_with_fuel(blob::lookup, 5);
    let region = l.region(page_hashes);
    lemma_entries(l, page_hashes);
    l.lemma_lengths(page_hashes);
    bytes::lemma_round_up(l.blob_size + layout::ALLOCATION_SLACK, 16);

    let entries = entries_of(l);
    let second = entries.drop_first();
    let third = second.drop_first();
    let fourth = third.drop_first();
    assert(second[0] == entries[1]);
    assert(third[0] == entries[2]);
    if l.entitlements is Some {
        assert(fourth[0] == entries[3]);
    }
    assert(region.subrange(l.cms_offset(), l.content_size()) =~= layout::cms_blob()) by {
        reveal(LayoutView::content);
    }
    lemma_first_word(CSMAGIC_BLOBWRAPPER as int);
    lemma_append_word(layout::be(CSMAGIC_BLOBWRAPPER as int), CMS_BLOB_SIZE as int);
    lemma_blob_at(region, l.cms_offset(), layout::cms_blob());
}

/// An integer of eight bytes within a sequence.
proof fn lemma_long_at(whole: Seq<u8>, at: int, value: u64)
    requires
        0 <= at,
        at + 8 <= whole.len(),
        whole.subrange(at, at + 8) == layout::be64(value),
    ensures
        bytes::u64_at(whole, at, false) == value,
{
    let part = layout::be64(value);
    bytes::lemma_u64_round_trip(value, false);
    assert forall|k: int| 0 <= k < 8 implies #[trigger] whole[at + k] == part[0 + k] by {
        assert(whole.subrange(at, at + 8)[k] == whole[at + k]);
    }
    bytes::lemma_u64_same(whole, at, part, 0, false);
}

/// The executable segment at the end of the fixed part of a CodeDirectory.
proof fn lemma_tail(l: LayoutView)
    ensures
        ({
            let tail = l.codedirectory_tail();
            &&& tail.len() == 48
            &&& bytes::all_zero(tail, 0, 24)
            &&& tail.subrange(24, 32) == layout::be64(l.exec_seg_base)
            &&& tail.subrange(32, 40) == layout::be64(l.exec_seg_limit)
            &&& tail.subrange(40, 48) == layout::be64(l.exec_seg_flags)
        }),
{
    reveal(LayoutView::codedirectory_tail);
    let tail = l.codedirectory_tail();
    bytes::lemma_u64_round_trip(l.exec_seg_base, false);
    bytes::lemma_u64_round_trip(l.exec_seg_limit, false);
    bytes::lemma_u64_round_trip(l.exec_seg_flags, false);
    assert(tail.subrange(24, 32) =~= layout::be64(l.exec_seg_base));
    assert(tail.subrange(32, 40) =~= layout::be64(l.exec_seg_limit));
    assert(tail.subrange(40, 48) =~= layout::be64(l.exec_seg_flags));
}

/// The executable segment in a CodeDirectory.
pub proof fn lemma_executable_segment(l: LayoutView, page_hashes: Seq<u8>)
    ensures
        ({
            let cd = l.codedirectory(page_hashes);
            &&& cd[38] == 0
            &&& bytes::all_zero(cd, 40, 64)
            &&& bytes::u64_at(cd, 64, false) == l.exec_seg_base
            &&& bytes::u64_at(cd, 72, false) == l.exec_seg_limit
            &&& bytes::u64_at(cd, 80, false) == l.exec_seg_flags
        }),
{
    let cd = l.codedirectory(page_hashes);
    let tail = l.codedirectory_tail();
    lemma_tail(l);
    assert(l.codedirectory_words().len() == 36) by {
        reveal(LayoutView::codedirectory_words);
    }
    assert(cd.len() >= 88 && cd.subrange(40, 88) == tail) by {
        reveal(LayoutView::codedirectory);
        assert(cd.subrange(40, 88) =~= tail);
    }
    assert(cd[38] == 0) by {
        reveal(LayoutView::codedirectory);
        assert(cd[38] == l.codedirectory_header()[38]);
    }
    assert forall|k: int| 40 <= k < 64 implies #[trigger] cd[k] == 0 by {
        assert(cd.subrange(40, 88)[k - 40] == cd[k]);
    }
    assert(cd.subrange(64, 72) =~= tail.subrange(24, 32));
    assert(cd.subrange(72, 80) =~= tail.subrange(32, 40));
    assert(cd.subrange(80, 88) =~= tail.subrange(40, 48));
    lemma_long_at(cd, 64, l.exec_seg_base);
    lemma_long_at(cd, 72, l.exec_seg_limit);
    lemma_long_at(cd, 80, l.exec_seg_flags);
}

} // verus!
