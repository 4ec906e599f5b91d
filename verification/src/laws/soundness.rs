//! Laws of verification.

use crate::blob;
use crate::bytes;
use crate::constants::{CSSLOT_ENTITLEMENTS, CSSLOT_REQUIREMENTS};
use crate::digest;
use crate::error::ErrorView;
use crate::laws::reparse;
use crate::macho;
use crate::verify;
use crate::verify::{CodeDirectory, SignatureInfoView};
use vstd::arithmetic::power2;
use vstd::prelude::*;

verus! {

/// Where the signature of a verified binary starts.
pub open spec fn start_of(data: Seq<u8>) -> int {
    verify::signature_start(data)->Ok_0 as int
}

/// The CodeDirectory blob of a verified binary.
pub open spec fn directory_of(data: Seq<u8>) -> Seq<u8> {
    verify::codedirectory_of(data.skip(start_of(data)))->Ok_0
}

/// The fields of the CodeDirectory of a verified binary.
pub open spec fn fields_in(data: Seq<u8>) -> CodeDirectory {
    verify::directory_fields(directory_of(data))->Ok_0
}

/// Pages that match from some page on match one by one.
proof fn lemma_pages_match(code: Seq<u8>, cd: Seq<u8>, fields: CodeDirectory, index: nat)
    requires
        verify::pages_match(code, cd, fields, index) is Ok,
    ensures
        forall|k: int|
            index <= k < fields.n_code_slots ==> digest::sha256(
                #[trigger] digest::page(code, fields.page_size(), k),
            )@ == verify::stored_page_hash(cd, fields, k),
    decreases fields.n_code_slots - index,
{
    if index < fields.n_code_slots {
        lemma_pages_match(code, cd, fields, index + 1);
    }
}

/// Blobs that match from some index entry on match one by one.
proof fn lemma_specials_match(
    sig: Seq<u8>,
    entries: Seq<blob::BlobEntry>,
    cd: Seq<u8>,
    fields: CodeDirectory,
    i: nat,
)
    requires
        i <= entries.len(),
        verify::specials_match(sig, entries, cd, fields, i) is Ok,
    ensures
        forall|k: int|
            i <= k < entries.len() && 0 < (#[trigger] entries[k]).slot <= fields.n_special_slots
                ==> {
                &&& blob::blob_for(sig, entries[k].slot) is Some
                &&& digest::sha256((blob::blob_for(sig, entries[k].slot)->0).1)@
                    == verify::stored_special_hash(cd, fields, entries[k].slot)
            },
        forall|k: int|
            i <= k < entries.len() && ((#[trigger] entries[k]).slot == CSSLOT_REQUIREMENTS
                || entries[k].slot == CSSLOT_ENTITLEMENTS) ==> entries[k].slot
                <= fields.n_special_slots,
    decreases entries.len() - i,
{
    if i < entries.len() {
        lemma_specials_match(sig, entries, cd, fields, i + 1);
    }
}

/// A slot that is found in an index has an entry there.
proof fn lemma_found(entries: Seq<blob::BlobEntry>, slot: u32)
    requires
        blob::lookup(entries, slot) is Some,
    ensures
        exists|k: int| 0 <= k < entries.len() && (#[trigger] entries[k]).slot == slot,
    decreases entries.len(),
{
    if entries[0].slot != slot {
        let rest = entries.drop_first();
        lemma_found(rest, slot);
        let k = choose|k: int| 0 <= k < rest.len() && (#[trigger] rest[k]).slot == slot;
        assert(entries[k + 1].slot == slot);
    }
}

/// A thin binary that passes verification ends with its signature, which lies
/// in `__LINKEDIT`. The CodeDirectory covers everything before the signature:
/// the hash of every page is the one that it stores. The hash of every blob
/// that occupies a special slot is the one that it stores too, and the
/// requirements and the entitlements occupy theirs. What is reported is what
/// it says; entitlements are reported where they can be extracted.
pub proof fn law_verified_binary_is_covered(data: Seq<u8>, report: SignatureInfoView)
    requires
        verify::verified_thin(data) == Ok::<SignatureInfoView, ErrorView>(report),
    ensures
        ({
            let info = macho::load_info(data)->Ok_0;
            let start = start_of(data);
            let code = data.take(start);
            let sig = data.skip(start);
            let cd = directory_of(data);
            let fields = fields_in(data);
            let entries = blob::superblob(sig)->0;
            &&& macho::load_info(data) is Ok
            &&& info.codesig is Some
            &&& info.codesig->0.data_offset == start
            &&& start + info.codesig->0.data_size == data.len()
            &&& info.linkedit is Some
            &&& info.linkedit->0.fileoff <= start
            &&& info.linkedit->0.fileoff + info.linkedit->0.filesize == data.len()
            &&& report.code_limit == start
            &&& report.flags == fields.flags
            &&& report.n_code_slots == bytes::pieces(start, fields.page_size())
            &&& report.n_special_slots == fields.n_special_slots
            &&& report.cd_hash == digest::sha256(cd)@
            &&& fields.code_limit == start
            &&& forall|k: int|
                0 <= k < report.n_code_slots ==> digest::sha256(
                    #[trigger] digest::page(code, fields.page_size(), k),
                )@ == verify::stored_page_hash(cd, fields, k)
            &&& forall|k: int|
                0 <= k < entries.len() && 0 < (#[trigger] entries[k]).slot
                    <= report.n_special_slots ==> {
                    &&& blob::blob_for(sig, entries[k].slot) is Some
                    &&& digest::sha256((blob::blob_for(sig, entries[k].slot)->0).1)@
                        == verify::stored_special_hash(cd, fields, entries[k].slot)
                }
            &&& forall|slot: u32|
                (slot == CSSLOT_REQUIREMENTS || slot == CSSLOT_ENTITLEMENTS)
                    && #[trigger] blob::blob_for(sig, slot) is Some ==> {
                    &&& slot <= report.n_special_slots
                    &&& digest::sha256((blob::blob_for(sig, slot)->0).1)@
                        == verify::stored_special_hash(cd, fields, slot)
                }
            &&& report.has_entitlements == (blob::entitlements_in(sig) is Some)
            &&& report.has_entitlements == (blob::entitlements_of(data) is Some)
        }),
{
    let start = start_of(data);
    let code = data.take(start);
    let sig = data.skip(start);
    let cd = directory_of(data);
    let fields = fields_in(data);
    let entries = blob::superblob(sig)->0;
    lemma_pages_match(code, cd, fields, 0);
    lemma_specials_match(sig, entries, cd, fields, 0);
    assert forall|slot: u32|
        (slot == CSSLOT_REQUIREMENTS || slot == CSSLOT_ENTITLEMENTS)
            && #[trigger] blob::blob_for(sig, slot) is Some implies {
        &&& slot <= fields.n_special_slots
        &&& digest::sha256((blob::blob_for(sig, slot)->0).1)@ == verify::stored_special_hash(
            cd,
            fields,
            slot,
        )
    } by {
        reveal(blob::blob_for);
        lemma_found(entries, slot);
        let k = choose|k: int| 0 <= k < entries.len() && (#[trigger] entries[k]).slot == slot;
        assert(entries[k].slot == slot);
    }
    assert(data.subrange(start, data.len() as int) =~= sig);
}

/// Two different messages with the same digest.
pub open spec fn collision(x: Seq<u8>, y: Seq<u8>) -> bool {
    x != y && digest::sha256(x)@ == digest::sha256(y)@
}

/// Sequences of one length whose pages are all equal are equal.
proof fn lemma_pages_make_up(a: Seq<u8>, b: Seq<u8>, size: int)
    requires
        size > 0,
        a.len() == b.len(),
        forall|k: int|
            0 <= k < bytes::pieces(a.len() as int, size) ==> #[trigger] digest::page(a, size, k)
                == digest::page(b, size, k),
    ensures
        a == b,
{
    let len = a.len() as int;
    assert forall|i: int| 0 <= i < len implies a[i] == b[i] by {
        let k = i / size;
        vstd::arithmetic::div_mod::lemma_fundamental_div_mod(i, size);
        vstd::arithmetic::div_mod::lemma_mod_bound(i, size);
        let start = k * size;
        assert(start == size * k) by (nonlinear_arith)
            requires
                start == k * size,
        ;
        assert(k >= 0) by (nonlinear_arith)
            requires
                size > 0,
                0 <= i,
                i == size * k + i % size,
                i % size < size,
        ;
        bytes::lemma_round_up(len, size);
        let count = bytes::pieces(len, size);
        assert(k < count) by (nonlinear_arith)
            requires
                size > 0,
                size * k <= i,
                i < len,
                len <= count * size,
        ;
        assert(digest::page(a, size, k) == digest::page(b, size, k));
        assert(digest::page(a, size, k)[i - start] == a[i]);
        assert(digest::page(b, size, k)[i - start] == b[i]);
    }
    assert(a =~= b);
}

/// The hash of the CodeDirectory stands for the code: where two verified
/// binaries have the same one but different code, their CodeDirectories
/// collide under SHA-256, or they have the same CodeDirectory and two of their
/// pages collide.
pub proof fn law_cd_hash_stands_for_the_code(
    a: Seq<u8>,
    b: Seq<u8>,
    report_a: SignatureInfoView,
    report_b: SignatureInfoView,
)
    requires
        verify::verified_thin(a) == Ok::<SignatureInfoView, ErrorView>(report_a),
        verify::verified_thin(b) == Ok::<SignatureInfoView, ErrorView>(report_b),
        report_a.cd_hash == report_b.cd_hash,
        a.take(report_a.code_limit as int) != b.take(report_b.code_limit as int),
    ensures
        ({
            let size = fields_in(a).page_size();
            let code_a = a.take(report_a.code_limit as int);
            let code_b = b.take(report_b.code_limit as int);
            ||| collision(directory_of(a), directory_of(b))
            ||| directory_of(a) == directory_of(b) && exists|k: int|
                0 <= k < report_a.n_code_slots && collision(
                    #[trigger] digest::page(code_a, size, k),
                    digest::page(code_b, size, k),
                )
        }),
{
    law_verified_binary_is_covered(a, report_a);
    law_verified_binary_is_covered(b, report_b);
    let cd_a = directory_of(a);
    let cd_b = directory_of(b);
    if cd_a != cd_b {
        assert(collision(cd_a, cd_b));
    } else {
        let fields = fields_in(a);
        let size = fields.page_size();
        let code_a = a.take(start_of(a));
        let code_b = b.take(start_of(b));
        power2::lemma_pow2_pos(fields.page_size_log2 as nat);
        if forall|k: int|
            0 <= k < bytes::pieces(code_a.len() as int, size) ==> #[trigger] digest::page(
                code_a,
                size,
                k,
            ) == digest::page(code_b, size, k) {
            lemma_pages_make_up(code_a, code_b, size);
            assert(false);
        } else {
            let k = choose|k: int|
                0 <= k < bytes::pieces(code_a.len() as int, size) && #[trigger] digest::page(
                    code_a,
                    size,
                    k,
                ) != digest::page(code_b, size, k);
            assert(collision(digest::page(code_a, size, k), digest::page(code_b, size, k)));
        }
    }
}

/// Where pages do not match, verification has failed.
proof fn lemma_mismatch_is_failure(code: Seq<u8>, cd: Seq<u8>, fields: CodeDirectory, index: nat)
    ensures
        verify::pages_match(code, cd, fields, index) matches Err(error) ==> error
            is VerificationFailed,
    decreases fields.n_code_slots - index,
{
    if index < fields.n_code_slots {
        lemma_mismatch_is_failure(code, cd, fields, index + 1);
    }
}

/// Code of a verified binary that is changed, be it in one byte, makes
/// verification fail, unless a page and what it was changed into collide under
/// SHA-256.
pub proof fn law_tampering_is_noticed(
    data: Seq<u8>,
    report: SignatureInfoView,
    tampered: Seq<u8>,
)
    requires
        verify::verified_thin(data) == Ok::<SignatureInfoView, ErrorView>(report),
        tampered.len() == data.len(),
        tampered != data,
        forall|i: int|
            0 <= i < data.len() && !(macho::load_info(data)->Ok_0.commands_end() <= i
                < report.code_limit) ==> #[trigger] tampered[i] == data[i],
    ensures
        ({
            let size = fields_in(data).page_size();
            let code = data.take(report.code_limit as int);
            let tampered_code = tampered.take(report.code_limit as int);
            ||| verify::verified_thin(tampered) matches Err(error) && error is VerificationFailed
            ||| exists|k: int|
                0 <= k < report.n_code_slots && collision(
                    #[trigger] digest::page(code, size, k),
                    digest::page(tampered_code, size, k),
                )
        }),
{
    law_verified_binary_is_covered(data, report);
    let info = macho::load_info(data)->Ok_0;
    let start = start_of(data);
    let code = tampered.take(start);
    let sig = tampered.skip(start);
    let cd = directory_of(data);
    let fields = fields_in(data);
    macho::lemma_load_info(data, info);
    if info.commands_end() <= start {
        reparse::lemma_record_of_prefix(data, tampered, info);
        assert(sig =~= data.skip(start));
        lemma_mismatch_is_failure(code, cd, fields, 0);
        if verify::pages_match(code, cd, fields, 0) is Ok {
            let changed = verify::verified_thin(tampered)->Ok_0;
            assert(verify::verified_thin(tampered) == Ok::<SignatureInfoView, ErrorView>(changed));
            assert(code != data.take(start)) by {
                if code == data.take(start) {
                    assert(tampered =~= code + sig);
                    assert(data =~= code + sig);
                }
            }
            law_cd_hash_stands_for_the_code(data, tampered, report, changed);
        }
    } else {
        assert(tampered =~= data);
    }
}

} // verus!
