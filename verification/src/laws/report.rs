//! Which signatures verification accepts, whoever made them, and what it
//! reports of them, told from their bytes.

use crate::blob;
use crate::bytes;
use crate::digest;
use crate::error::ErrorView;
use crate::laws::index;
use crate::macho;
use crate::macho::LoadInfo;
use crate::text;
use crate::verify;
use crate::verify::{CodeDirectory, SignatureInfoView};
use vstd::arithmetic::power2;
use vstd::prelude::*;
use vstd::utf8::*;

verus! {

/// Whether the signature of a thin binary starts at `start`: it ends the file,
/// as does `__LINKEDIT`, which holds it.
pub open spec fn is_placed(data: Seq<u8>, start: int) -> bool {
    &&& macho::load_info(data) matches Ok(info)
    &&& info.codesig matches Some(codesig)
    &&& info.linkedit matches Some(linkedit)
    &&& codesig.data_offset == start
    &&& start + codesig.data_size == data.len()
    &&& linkedit.fileoff <= start
    &&& linkedit.fileoff + linkedit.filesize == data.len()
}

/// The size of the pages that a CodeDirectory has the hashes of.
pub open spec fn page_size(cd: Seq<u8>) -> int {
    power2::pow2(cd[39] as nat) as int
}

/// The number of pages that a CodeDirectory has the hashes of.
pub open spec fn page_count(cd: Seq<u8>) -> int {
    bytes::u32_at(cd, 28, false) as int
}

/// Where the hashes of the pages stand in a CodeDirectory.
pub open spec fn hashes_at(cd: Seq<u8>) -> int {
    bytes::u32_at(cd, 16, false) as int
}

/// Whether the identifier of a CodeDirectory ends at `end`, at the first zero
/// byte from its start on.
pub open spec fn identifier_ends(cd: Seq<u8>, end: int) -> bool {
    let start = bytes::u32_at(cd, 20, false);
    &&& start <= end < cd.len()
    &&& cd[end] == 0
    &&& forall|k: int| start <= k < end ==> #[trigger] cd[k] != 0
}

/// Whether a CodeDirectory with SHA-256 hashes covers code of the given
/// length, and holds what its fields name.
pub open spec fn is_directory_for(cd: Seq<u8>, code_len: int) -> bool {
    &&& cd.len() >= 40
    &&& bytes::u32_at(cd, 8, false) >= 0x2_0100
    &&& cd[36] == 32
    &&& cd[37] == 2
    &&& 1 <= cd[39] <= 31
    &&& bytes::u32_at(cd, 32, false) == code_len
    &&& (page_count(cd) - 1) * page_size(cd) < code_len
    &&& code_len <= page_count(cd) * page_size(cd)
    &&& exists|end: int| #[trigger] identifier_ends(cd, end)
    &&& bytes::u32_at(cd, 24, false) * 32 <= hashes_at(cd)
    &&& hashes_at(cd) + page_count(cd) * 32 <= cd.len()
}

/// A page of some code: `size` bytes, or what is left.
pub open spec fn page_of(code: Seq<u8>, size: int, k: int) -> Seq<u8> {
    if (k + 1) * size <= code.len() {
        code.subrange(k * size, (k + 1) * size)
    } else {
        code.subrange(k * size, code.len() as int)
    }
}

/// Whether a CodeDirectory has the hash of every page of the code.
pub open spec fn pages_hashed(cd: Seq<u8>, code: Seq<u8>) -> bool {
    forall|k: int|
        0 <= k < page_count(cd) ==> digest::sha256(
            #[trigger] page_of(code, page_size(cd), k),
        )@ == cd.subrange(hashes_at(cd) + k * 32, hashes_at(cd) + k * 32 + 32)
}

/// Whether a CodeDirectory has the hash of the blob for a slot, if the slot
/// has a hash; those of the requirements and the entitlements have to.
pub open spec fn slot_hashed(sig: Seq<u8>, cd: Seq<u8>, slot: u32) -> bool {
    let count = bytes::u32_at(cd, 24, false);
    &&& slot == 2 || slot == 5 ==> slot <= count
    &&& 0 < slot <= count ==> (blob::blob_for(sig, slot) matches Some((_, content))
        && digest::sha256(content)@ == cd.subrange(
        hashes_at(cd) - slot * 32,
        hashes_at(cd) - slot * 32 + 32,
    ))
}

/// Whether `cd` is the CodeDirectory of a signature that covers `code`.
pub open spec fn covers(sig: Seq<u8>, cd: Seq<u8>, code: Seq<u8>) -> bool {
    &&& sig.len() >= 8
    &&& bytes::u32_at(sig, 4, false) <= sig.len()
    &&& blob::blob_for(sig, 0) == Some((0xfade_0c02u32, cd))
    &&& is_directory_for(cd, code.len() as int)
    &&& pages_hashed(cd, code)
    &&& forall|i: int| #[trigger]
        index::has_entry(sig, i) ==> slot_hashed(sig, cd, index::slot_at(sig, i))
}

/// Whether a report is what the CodeDirectory of a signature says.
pub open spec fn is_report(
    sig: Seq<u8>,
    cd: Seq<u8>,
    code_len: int,
    report: SignatureInfoView,
) -> bool {
    &&& report.flags == bytes::u32_at(cd, 12, false)
    &&& report.code_limit == code_len
    &&& report.n_code_slots == page_count(cd)
    &&& report.n_special_slots == bytes::u32_at(cd, 24, false)
    &&& report.cd_hash == digest::sha256(cd)@
    &&& report.has_entitlements == (blob::entitlements_in(sig) is Some)
    &&& forall|end: int| #[trigger]
        identifier_ends(cd, end) ==> is_text_of(
            cd.subrange(bytes::u32_at(cd, 20, false) as int, end),
            report.identifier,
        )
}

/// Whether `name` is the text of `bytes`, with what is not UTF-8 replaced.
pub open spec fn is_text_of(bytes: Seq<u8>, name: Seq<char>) -> bool {
    &&& valid_utf8(bytes) ==> name == decode_utf8(bytes)
    &&& !valid_utf8(bytes) ==> name == text::utf8_lossy(bytes)
}

/// The number of pages that some code takes.
proof fn lemma_page_count(len: int, size: int, count: int)
    requires
        size > 0,
        len >= 0,
    ensures
        (count == bytes::pieces(len, size)) == ((count - 1) * size < len <= count * size),
{
    let exact = bytes::pieces(len, size);
    vstd::arithmetic::div_mod::lemma_fundamental_div_mod(len + size - 1, size);
    vstd::arithmetic::div_mod::lemma_mod_bound(len + size - 1, size);
    assert((exact - 1) * size < len <= exact * size) by (nonlinear_arith)
        requires
            size > 0,
            len + size - 1 == size * exact + (len + size - 1) % size,
            0 <= (len + size - 1) % size < size,
    ;
    if (count - 1) * size < len <= count * size {
        assert(count == exact) by (nonlinear_arith)
            requires
                size > 0,
                (count - 1) * size < len <= count * size,
                (exact - 1) * size < len <= exact * size,
        ;
    }
}

/// The pages of code are its pages.
proof fn lemma_page(code: Seq<u8>, size: int, k: int)
    ensures
        digest::page(code, size, k) == page_of(code, size, k),
{
    assert((k + 1) * size == k * size + size) by (nonlinear_arith);
}

/// The identifier is read up to the first zero byte.
proof fn lemma_identifier(cd: Seq<u8>)
    ensures
        match verify::identifier_of(cd, bytes::u32_at(cd, 20, false)) {
            Ok(name) => {
                &&& exists|end: int| #[trigger] identifier_ends(cd, end)
                &&& forall|end: int| #[trigger]
                    identifier_ends(cd, end) ==> is_text_of(
                        cd.subrange(bytes::u32_at(cd, 20, false) as int, end),
                        name,
                    )
            },
            Err(_) => forall|end: int| !#[trigger] identifier_ends(cd, end),
        },
{
    let start = bytes::u32_at(cd, 20, false) as int;
    if start <= cd.len() {
        let rest = cd.skip(start);
        rest.index_of_first_ensures(0u8);
        assert forall|k: int| start <= k < cd.len() implies #[trigger] cd[k] == rest[k - start] by {}
        match rest.index_of_first(0u8) {
            Some(len) => {
                let end = start + len;
                assert(cd[end] == 0) by {
                    assert(rest[len] == 0u8);
                }
                assert forall|k: int| start <= k < end implies #[trigger] cd[k] != 0 by {
                    assert(rest[k - start] != 0u8);
                }
                assert(identifier_ends(cd, end));
                assert forall|other: int| #[trigger] identifier_ends(cd, other) implies other
                    == end by {
                    if other < end {
                        assert(cd[other] != 0);
                    } else if end < other {
                        assert(cd[end] != 0);
                    }
                }
            },
            None => {
                assert forall|end: int| !#[trigger] identifier_ends(cd, end) by {
                    if identifier_ends(cd, end) {
                        assert(rest[end - start] == 0u8);
                        assert(rest.contains(0u8));
                    }
                }
            },
        }
    }
}

/// What verification reads of a CodeDirectory.
pub open spec fn fields_of(cd: Seq<u8>) -> CodeDirectory {
    CodeDirectory {
        flags: bytes::u32_at(cd, 12, false),
        hash_offset: bytes::u32_at(cd, 16, false),
        ident_offset: bytes::u32_at(cd, 20, false),
        n_special_slots: bytes::u32_at(cd, 24, false),
        n_code_slots: bytes::u32_at(cd, 28, false),
        code_limit: bytes::u32_at(cd, 32, false),
        page_size_log2: cd[39],
    }
}

/// A CodeDirectory is accepted where it is one for the code.
proof fn lemma_directory(cd: Seq<u8>, code_len: u32)
    ensures
        verify::directory_fields(cd) matches Ok(fields) ==> fields == fields_of(cd),
        is_directory_for(cd, code_len as int) == (verify::directory_fields(cd) is Ok
            && verify::covers(cd, fields_of(cd), code_len) is Ok),
        verify::covers(cd, fields_of(cd), code_len) matches Ok(name) ==> forall|end: int| #[trigger]
            identifier_ends(cd, end) ==> is_text_of(
                cd.subrange(bytes::u32_at(cd, 20, false) as int, end),
                name,
            ),
{
    lemma_identifier(cd);
    power2::lemma_pow2_pos(cd[39] as nat);
    lemma_page_count(bytes::u32_at(cd, 32, false) as int, page_size(cd), page_count(cd));
}

/// Pages match where the hash of each is stored.
proof fn lemma_pages_accepted(code: Seq<u8>, cd: Seq<u8>, i: nat)
    ensures
        verify::pages_match(code, cd, fields_of(cd), i) is Ok == (forall|k: int|
            i <= k < page_count(cd) ==> digest::sha256(
                #[trigger] page_of(code, page_size(cd), k),
            )@ == cd.subrange(hashes_at(cd) + k * 32, hashes_at(cd) + k * 32 + 32)),
    decreases page_count(cd) - i,
{
    if i < page_count(cd) {
        lemma_page(code, page_size(cd), i as int);
        lemma_pages_accepted(code, cd, i + 1);
        let here = page_of(code, page_size(cd), i as int);
        if verify::pages_match(code, cd, fields_of(cd), i) is Ok {
            assert forall|k: int| i <= k < page_count(cd) implies digest::sha256(
                #[trigger] page_of(code, page_size(cd), k),
            )@ == cd.subrange(hashes_at(cd) + k * 32, hashes_at(cd) + k * 32 + 32) by {
                assert(k == i || i + 1 <= k);
            }
        }
    }
}

/// Blobs match where the hash of each is stored that has to be.
proof fn lemma_specials_accepted(
    sig: Seq<u8>,
    entries: Seq<blob::BlobEntry>,
    cd: Seq<u8>,
    i: nat,
)
    ensures
        verify::specials_match(sig, entries, cd, fields_of(cd), i) is Ok == (forall|k: int|
            i <= k < entries.len() ==> slot_hashed(sig, cd, (#[trigger] entries[k]).slot)),
    decreases entries.len() - i,
{
    if i < entries.len() {
        lemma_specials_accepted(sig, entries, cd, i + 1);
        let slot = entries[i as int].slot;
        if verify::specials_match(sig, entries, cd, fields_of(cd), i) is Ok {
            assert forall|k: int| i <= k < entries.len() implies slot_hashed(
                sig,
                cd,
                (#[trigger] entries[k]).slot,
            ) by {
                assert(k == i || i + 1 <= k);
            }
        }
    }
}

/// A signature is accepted exactly if it has a CodeDirectory that covers the
/// code, with the hash of every page and of every blob that has to have one,
/// and the report is what the CodeDirectory says.
pub proof fn law_covering_signature_is_accepted(code: Seq<u8>, sig: Seq<u8>)
    requires
        code.len() <= u32::MAX,
    ensures
        verify::verified_signature(code, sig) is Ok == exists|cd: Seq<u8>| #[trigger]
            covers(sig, cd, code),
        verify::verified_signature(code, sig) matches Ok(report) ==> forall|cd: Seq<u8>| #[trigger]
            covers(sig, cd, code) ==> is_report(sig, cd, code.len() as int, report),
{
    let accepted = verify::verified_signature(code, sig) is Ok;
    index::law_index_is_read(sig);
    if let Some((magic, cd)) = blob::blob_for(sig, 0) {
        assert(blob::superblob(sig) is Some) by {
            reveal(blob::blob_for);
        }
        let entries = blob::superblob(sig)->0;
        lemma_directory(cd, code.len() as u32);
        lemma_pages_accepted(code, cd, 0);
        lemma_specials_accepted(sig, entries, cd, 0);
        let hashed = forall|k: int|
            0 <= k < entries.len() ==> slot_hashed(sig, cd, (#[trigger] entries[k]).slot);
        let listed = forall|i: int| #[trigger]
            index::has_entry(sig, i) ==> slot_hashed(sig, cd, index::slot_at(sig, i));
        assert(hashed == listed) by {
            if hashed {
                assert forall|i: int| #[trigger] index::has_entry(sig, i) implies slot_hashed(
                    sig,
                    cd,
                    index::slot_at(sig, i),
                ) by {
                    assert(slot_hashed(sig, cd, entries[i].slot));
                }
            }
            if listed {
                assert forall|k: int| 0 <= k < entries.len() implies slot_hashed(
                    sig,
                    cd,
                    (#[trigger] entries[k]).slot,
                ) by {
                    assert(index::has_entry(sig, k));
                }
            }
        }
        assert(accepted == covers(sig, cd, code));
        if exists|other: Seq<u8>| #[trigger] covers(sig, other, code) {
            let other = choose|other: Seq<u8>| #[trigger] covers(sig, other, code);
            assert(other == cd);
        }
    }
}

/// A thin binary passes verification exactly if it ends with a signature in
/// `__LINKEDIT` that covers everything before it.
pub proof fn law_covered_binary_verifies(data: Seq<u8>)
    ensures
        verify::verified_thin(data) is Ok == exists|start: int, cd: Seq<u8>|
            is_placed(data, start) && #[trigger] covers(data.skip(start), cd, data.take(start)),
{
    if exists|start: int, cd: Seq<u8>|
        is_placed(data, start) && #[trigger] covers(data.skip(start), cd, data.take(start)) {
        let (start, cd) = choose|start: int, cd: Seq<u8>|
            is_placed(data, start) && #[trigger] covers(data.skip(start), cd, data.take(start));
        law_covering_signature_is_accepted(data.take(start), data.skip(start));
        assert(verify::signature_start(data) == Ok::<u32, ErrorView>(start as u32));
    }
    if verify::verified_thin(data) is Ok {
        let start = verify::signature_start(data)->Ok_0 as int;
        assert(is_placed(data, start));
        law_covering_signature_is_accepted(data.take(start), data.skip(start));
        let cd = choose|cd: Seq<u8>| #[trigger] covers(data.skip(start), cd, data.take(start));
        assert(covers(data.skip(start), cd, data.take(start)));
    }
}

/// What verification reports of a thin binary, whoever signed it, is what the
/// CodeDirectory of its signature says: among other things, the text from the
/// offset in the field for it up to the first zero byte.
pub proof fn law_report_is_what_the_directory_says(
    data: Seq<u8>,
    report: SignatureInfoView,
    start: int,
    cd: Seq<u8>,
)
    requires
        verify::verified_thin(data) == Ok::<SignatureInfoView, ErrorView>(report),
        is_placed(data, start),
        blob::blob_for(data.skip(start), 0) matches Some((_, content)) && content == cd,
    ensures
        covers(data.skip(start), cd, data.take(start)),
        is_report(data.skip(start), cd, start, report),
{
    assert(verify::signature_start(data) == Ok::<u32, ErrorView>(start as u32));
    law_covering_signature_is_accepted(data.take(start), data.skip(start));
    let other = choose|cd: Seq<u8>| #[trigger] covers(data.skip(start), cd, data.take(start));
    assert(covers(data.skip(start), other, data.take(start)));
}

/// Where pages do not match, verification has failed.
proof fn lemma_pages_fail(code: Seq<u8>, cd: Seq<u8>, i: nat)
    ensures
        verify::pages_match(code, cd, fields_of(cd), i) matches Err(error) ==> error
            is VerificationFailed,
    decreases page_count(cd) - i,
{
    if i < page_count(cd) {
        lemma_pages_fail(code, cd, i + 1);
    }
}

/// Where blobs do not match, verification has failed.
proof fn lemma_specials_fail(sig: Seq<u8>, entries: Seq<blob::BlobEntry>, cd: Seq<u8>, i: nat)
    ensures
        verify::specials_match(sig, entries, cd, fields_of(cd), i) matches Err(error) ==> error
            is VerificationFailed,
    decreases entries.len() - i,
{
    if i < entries.len() {
        lemma_specials_fail(sig, entries, cd, i + 1);
    }
}

/// A signature that is there but is not accepted has failed verification, as
/// long as its CodeDirectory is not cut short.
pub proof fn law_refused_signature_has_failed(code: Seq<u8>, sig: Seq<u8>)
    requires
        code.len() <= u32::MAX,
        sig.len() >= 8,
        blob::blob_for(sig, 0) matches Some((_, cd)) ==> cd.len() >= 36,
    ensures
        verify::verified_signature(code, sig) matches Err(error) ==> error is VerificationFailed,
{
    if let Some((_, cd)) = blob::blob_for(sig, 0) {
        lemma_directory(cd, code.len() as u32);
        lemma_pages_fail(code, cd, 0);
        lemma_specials_fail(sig, blob::superblob(sig)->0, cd, 0);
    }
}

/// A thin binary without a signature at the end of the file, in `__LINKEDIT`,
/// has failed verification, or has no `__LINKEDIT` at all.
pub proof fn law_misplaced_signature_has_failed(data: Seq<u8>, info: LoadInfo)
    requires
        macho::load_info(data) == Ok::<LoadInfo, ErrorView>(info),
        forall|start: int| !#[trigger] is_placed(data, start),
    ensures
        verify::verified_thin(data) matches Err(error) && if info.codesig is Some
            && info.linkedit is None {
            error is MissingLinkedit
        } else {
            error is VerificationFailed
        },
{
    if let Some(codesig) = info.codesig {
        assert(!is_placed(data, codesig.data_offset as int));
    }
}

} // verus!
