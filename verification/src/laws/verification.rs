//! The signature of a layout passes verification.

use crate::blob;
use crate::bytes;
use crate::constants::{
    CSSLOT_ENTITLEMENTS, CSSLOT_REQUIREMENTS, CS_PAGE_SIZE, CS_PAGE_SIZE_LOG2,
};
use crate::digest;
use crate::digest::HASH_SIZE;
use crate::error::ErrorView;
use crate::laws::superblob;
use crate::layout;
use crate::layout::{LayoutView, CODEDIRECTORY_SIZE};
use crate::text;
use crate::verify;
use crate::verify::{CodeDirectory, SignatureInfoView};
use vstd::arithmetic::power2;
use vstd::prelude::*;

verus! {

/// What the fixed part of a CodeDirectory says.
pub open spec fn fields_of(l: LayoutView) -> CodeDirectory {
    CodeDirectory {
        flags: l.flags,
        hash_offset: l.hash_offset() as u32,
        ident_offset: CODEDIRECTORY_SIZE as u32,
        n_special_slots: l.n_special_slots,
        n_code_slots: l.n_code_slots as u32,
        code_limit: l.code_limit as u32,
        page_size_log2: CS_PAGE_SIZE_LOG2,
    }
}

/// The parts of a CodeDirectory.
pub proof fn lemma_directory_parts(l: LayoutView, page_hashes: Seq<u8>)
    requires
        l.wf(),
        page_hashes.len() == l.n_code_slots * HASH_SIZE,
    ensures
        ({
            let cd = l.codedirectory(page_hashes);
            let specials = l.special_hashes(l.n_special_slots);
            &&& cd.len() == l.codedirectory_size()
            &&& cd.take(CODEDIRECTORY_SIZE as int) == l.codedirectory_header()
            &&& cd.skip(CODEDIRECTORY_SIZE as int) == l.identifier + (seq![0u8] + (specials
                + page_hashes))
            &&& cd.subrange(
                l.hash_offset() - l.n_special_slots * HASH_SIZE,
                l.hash_offset(),
            ) == specials
            &&& cd.skip(l.hash_offset()) == page_hashes
            &&& specials.len() == l.n_special_slots * HASH_SIZE
        }),
{
    reveal(LayoutView::codedirectory);
    l.lemma_lengths(page_hashes);
    l.lemma_special_hashes_len(l.n_special_slots);
    let cd = l.codedirectory(page_hashes);
    let specials = l.special_hashes(l.n_special_slots);
    assert(cd.take(CODEDIRECTORY_SIZE as int) =~= l.codedirectory_header());
    assert(cd.skip(CODEDIRECTORY_SIZE as int) =~= l.identifier + (seq![0u8] + (specials
        + page_hashes)));
    assert(cd.subrange(l.hash_offset() - l.n_special_slots * HASH_SIZE, l.hash_offset())
        =~= specials);
    assert(cd.skip(l.hash_offset()) =~= page_hashes);
}

/// The fields are read back.
pub proof fn lemma_fields(l: LayoutView, page_hashes: Seq<u8>)
    requires
        l.wf(),
        page_hashes.len() == l.n_code_slots * HASH_SIZE,
    ensures
        verify::directory_fields(l.codedirectory(page_hashes)) == Ok::<CodeDirectory, ErrorView>(
            fields_of(l),
        ),
        fields_of(l).page_size() == CS_PAGE_SIZE,
{
    let cd = l.codedirectory(page_hashes);
    lemma_directory_parts(l, page_hashes);
    superblob::lemma_codedirectory_header(l);
    superblob::lemma_head(cd, l.codedirectory_header());
    assert(cd[36] == l.codedirectory_header()[36]);
    assert(cd[37] == l.codedirectory_header()[37]);
    assert(cd[39] == l.codedirectory_header()[39]);
    power2::lemma2_to64();
}

/// The identifier is read back up to its first zero byte.
pub proof fn lemma_identifier(l: LayoutView, page_hashes: Seq<u8>)
    requires
        l.wf(),
        page_hashes.len() == l.n_code_slots * HASH_SIZE,
    ensures
        verify::identifier_of(l.codedirectory(page_hashes), CODEDIRECTORY_SIZE as u32) == Ok::<
            Seq<char>,
            ErrorView,
        >(text::lossy_text(text::until_nul(l.identifier))),
{
    let cd = l.codedirectory(page_hashes);
    let start = CODEDIRECTORY_SIZE as int;
    lemma_directory_parts(l, page_hashes);
    let rest = cd.skip(start);
    let id = l.identifier;
    id.index_of_first_ensures(0u8);
    rest.index_of_first_ensures(0u8);
    assert(rest[id.len() as int] == 0u8);
    assert(rest.contains(0u8));
    let end = rest.index_of_first(0u8)->0;
    assert forall|k: int| 0 <= k < id.len() implies rest[k] == #[trigger] id[k] by {}
    match id.index_of_first(0u8) {
        Some(first) => {
            assert(rest[first] == 0u8);
            assert(end <= first);
            assert(end == first) by {
                if end < first {
                    assert(id[end] == 0u8);
                }
            }
        },
        None => {
            if end < id.len() {
                assert(id[end] == 0u8);
                assert(id.contains(0u8));
            }
            assert(end == id.len());
        },
    }
    assert(cd.subrange(start, start + end) =~= text::until_nul(id)) by {
        assert forall|k: int| 0 <= k < end implies cd[start + k] == #[trigger] id[k] by {
            assert(rest[k] == cd[start + k]);
        }
    }
}

/// The page hashes match.
pub proof fn lemma_pages(l: LayoutView, code: Seq<u8>, page_hashes: Seq<u8>, index: nat)
    requires
        l.wf(),
        code.len() == l.code_limit,
        page_hashes == digest::all_page_digests(code),
        index <= l.n_code_slots,
    ensures
        verify::pages_match(code, l.codedirectory(page_hashes), fields_of(l), index) == Ok::<
            (),
            ErrorView,
        >(()),
    decreases l.n_code_slots - index,
{
    let cd = l.codedirectory(page_hashes);
    let size = CS_PAGE_SIZE as int;
    let count = l.n_code_slots as nat;
    digest::lemma_page_digests_len(code, size, count);
    lemma_directory_parts(l, page_hashes);
    lemma_fields(l, page_hashes);
    if index < l.n_code_slots {
        digest::lemma_page_digest_at(code, size, count, index as int);
        assert(verify::stored_page_hash(cd, fields_of(l), index as int)
            =~= page_hashes.subrange(
            index * HASH_SIZE as int,
            (index + 1) * HASH_SIZE as int,
        )) by {
            let table = cd.skip(l.hash_offset());
            assert forall|k: int| 0 <= k < page_hashes.len() implies page_hashes[k]
                == #[trigger] cd[l.hash_offset() + k] by {
                assert(table[k] == cd[l.hash_offset() + k]);
            }
        }
        lemma_pages(l, code, page_hashes, index + 1);
    }
}

/// The hash in a special slot stands before those of the lower slots.
proof fn lemma_special_hash_at(l: LayoutView, top: u32, slot: u32)
    requires
        0 < slot <= top <= 5,
    ensures
        l.special_hashes(top).len() == top * HASH_SIZE,
        l.special_hashes(top).subrange((top - slot) * HASH_SIZE, (top - slot + 1) * HASH_SIZE)
            == l.special_hash(slot),
    decreases top,
{
    l.lemma_special_hashes_len(top);
    l.lemma_special_hashes_len((top - 1) as u32);
    let first = l.special_hash(top);
    let rest = l.special_hashes((top - 1) as u32);
    if slot == top {
        assert((first + rest).subrange(0, HASH_SIZE as int) =~= first);
    } else {
        lemma_special_hash_at(l, (top - 1) as u32, slot);
        assert((first + rest).subrange((top - slot) * HASH_SIZE, (top - slot + 1) * HASH_SIZE)
            =~= rest.subrange((top - 1 - slot) * HASH_SIZE, (top - slot) * HASH_SIZE));
    }
}

/// The special slots hold the hashes of their blobs.
pub proof fn lemma_stored_special(l: LayoutView, page_hashes: Seq<u8>, slot: u32)
    requires
        l.wf(),
        page_hashes.len() == l.n_code_slots * HASH_SIZE,
        0 < slot <= l.n_special_slots,
    ensures
        verify::stored_special_hash(l.codedirectory(page_hashes), fields_of(l), slot)
            == l.special_hash(slot),
{
    let cd = l.codedirectory(page_hashes);
    let top = l.n_special_slots;
    lemma_directory_parts(l, page_hashes);
    lemma_special_hash_at(l, top, slot);
    let start = l.hash_offset() - top * HASH_SIZE;
    let specials = cd.subrange(start, l.hash_offset());
    assert(verify::stored_special_hash(cd, fields_of(l), slot) =~= specials.subrange(
        (top - slot) * HASH_SIZE,
        (top - slot + 1) * HASH_SIZE,
    ));
}

/// The blobs match the hashes in their special slots.
pub proof fn lemma_specials(l: LayoutView, page_hashes: Seq<u8>)
    requires
        l.wf(),
        page_hashes.len() == l.n_code_slots * HASH_SIZE,
    ensures
        verify::specials_match(
            l.region(page_hashes),
            superblob::entries_of(l),
            l.codedirectory(page_hashes),
            fields_of(l),
            0,
        ) == Ok::<(), ErrorView>(()),
        (blob::entitlements_in(l.region(page_hashes)) is Some) == (l.entitlements is Some),
{
    let region = l.region(page_hashes);
    let cd = l.codedirectory(page_hashes);
    let entries = superblob::entries_of(l);
    let fields = fields_of(l);
    superblob::lemma_blobs(l, page_hashes);
    lemma_stored_special(l, page_hashes, CSSLOT_REQUIREMENTS);
    let matched = Ok::<(), ErrorView>(());
    if l.entitlements is Some {
        lemma_stored_special(l, page_hashes, CSSLOT_ENTITLEMENTS);
        assert(verify::specials_match(region, entries, cd, fields, 4) == matched);
    }
    assert(verify::specials_match(region, entries, cd, fields, 3) == matched);
    assert(verify::specials_match(region, entries, cd, fields, 2) == matched);
    assert(verify::specials_match(region, entries, cd, fields, 1) == matched);
}

/// The signature that a layout gives for some code passes verification.
pub proof fn lemma_signature_verifies(l: LayoutView, code: Seq<u8>)
    requires
        l.wf(),
        code.len() == l.code_limit,
    ensures
        ({
            let page_hashes = digest::all_page_digests(code);
            verify::verified_signature(code, l.region(page_hashes)) == Ok::<
                SignatureInfoView,
                ErrorView,
            >(
                SignatureInfoView {
                    identifier: text::lossy_text(text::until_nul(l.identifier)),
                    flags: l.flags,
                    code_limit: l.code_limit,
                    n_code_slots: l.n_code_slots as u32,
                    n_special_slots: l.n_special_slots,
                    cd_hash: digest::sha256(l.codedirectory(page_hashes))@,
                    has_entitlements: l.entitlements is Some,
                },
            )
        }),
{
    let page_hashes = digest::all_page_digests(code);
    let region = l.region(page_hashes);
    digest::lemma_page_digests_len(code, CS_PAGE_SIZE as int, l.n_code_slots as nat);
    superblob::lemma_region(l, page_hashes);
    superblob::lemma_entries(l, page_hashes);
    superblob::lemma_blobs(l, page_hashes);
    bytes::lemma_round_up(l.blob_size + layout::ALLOCATION_SLACK, 16);
    assert(verify::codedirectory_of(region) == Ok::<Seq<u8>, ErrorView>(
        l.codedirectory(page_hashes),
    ));
    lemma_fields(l, page_hashes);
    lemma_identifier(l, page_hashes);
    lemma_directory_parts(l, page_hashes);
    assert(verify::covers(
        l.codedirectory(page_hashes),
        fields_of(l),
        l.code_limit as u32,
    ) == Ok::<Seq<char>, ErrorView>(text::lossy_text(text::until_nul(l.identifier))));
    lemma_pages(l, code, page_hashes, 0);
    lemma_specials(l, page_hashes);
}

} // verus!
