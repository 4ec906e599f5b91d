//! Laws of signing a thin binary in memory.

use crate::blob;
use crate::bytes;
use crate::constants::{
    CSMAGIC_BLOBWRAPPER, CSMAGIC_CODEDIRECTORY, CSMAGIC_EMBEDDED_ENTITLEMENTS,
    CSMAGIC_REQUIREMENTS, CSSLOT_CODEDIRECTORY, CSSLOT_ENTITLEMENTS, CSSLOT_REQUIREMENTS,
    CSSLOT_SIGNATURESLOT, CS_EXECSEG_MAIN_BINARY, CS_HASHTYPE_SHA256, CS_PAGE_SIZE,
    CS_PAGE_SIZE_LOG2, CS_VERSION,
};
use crate::digest;
use crate::digest::HASH_SIZE;
use crate::error::ErrorView;
use crate::laws::{reparse, streaming, superblob, verification};
use crate::layout;
use crate::layout::LayoutView;
use crate::macho;
use crate::macho::LoadInfo;
use crate::options::OptionsView;
use crate::sign;
use crate::sign::PreparedView;
use crate::text;
use crate::verify;
use crate::verify::SignatureInfoView;
use vstd::prelude::*;
use vstd::utf8::*;

verus! {

/// The record of the load commands of a binary that has one.
pub open spec fn record(data: Seq<u8>) -> LoadInfo {
    macho::load_info(data)->Ok_0
}

/// The plan by which a thin binary that can be signed is signed.
pub open spec fn plan(data: Seq<u8>, options: OptionsView) -> PreparedView {
    sign::prepared(
        data,
        record(data),
        options.identifier,
        options.hardened_runtime,
        options.linker_signed,
        sign::resolved(data, options.entitlements),
    )->Ok_0
}

/// The code that the signature of a binary covers.
pub open spec fn code(data: Seq<u8>, options: OptionsView) -> Seq<u8> {
    bytes::resized(plan(data, options).prefix, plan(data, options).layout.code_limit as nat)
}

/// A thin binary is signed in memory.
pub open spec fn signs(data: Seq<u8>, options: OptionsView, out: Seq<u8>) -> bool {
    &&& macho::kind_of(data) matches Some(kind) && kind.thin()
    &&& sign::signed(data, options) == Ok::<Seq<u8>, ErrorView>(out)
}

/// What a signed binary consists of.
#[verifier::rlimit(30)]
pub proof fn lemma_parts(data: Seq<u8>, options: OptionsView, out: Seq<u8>)
    requires
        sign::signed_thin(data, options) == Ok::<Seq<u8>, ErrorView>(out),
    ensures
        ({
            let info = record(data);
            let p = plan(data, options);
            let l = p.layout;
            let code = code(data, options);
            let region = l.region(digest::all_page_digests(code));
            &&& macho::load_info(data) == Ok::<LoadInfo, ErrorView>(info)
            &&& info.wf()
            &&& info.prefix_len() <= data.len()
            &&& info.linkedit is Some
            &&& info.prefix_len() <= l.code_limit
            &&& info.linkedit->0.fileoff <= l.code_limit
            &&& info.codesig is None ==> bytes::all_zero(
                data,
                info.commands_end(),
                info.prefix_len(),
            )
            &&& reparse::rewritten(data, p.prefix, info, l)
            &&& sign::placement(info, info.linkedit->0) == Ok::<(u64, u64), ErrorView>(
                (l.code_limit, p.min_input),
            )
            &&& layout::layout_of(
                info,
                l.code_limit,
                options.identifier,
                options.hardened_runtime,
                options.linker_signed,
                sign::resolved(data, options.entitlements),
            ) == Ok::<LayoutView, ErrorView>(l)
            &&& l.wf()
            &&& p.min_input <= data.len()
            &&& code.len() == l.code_limit
            &&& region.len() == l.allocated_size
            &&& out.len() == l.file_size()
            &&& out.take(l.code_limit as int) == code
            &&& out.skip(l.code_limit as int) == region
            &&& forall|i: int|
                0 <= i < l.code_limit && i < data.len() ==> #[trigger] out[i] == p.prefix[i]
            &&& forall|i: int| data.len() <= i < l.code_limit ==> #[trigger] out[i] == 0
        }),
{
    let info = record(data);
    let p = plan(data, options);
    let l = p.layout;
    let code = code(data, options);
    let hashes = digest::all_page_digests(code);
    macho::lemma_load_info(data, info);
    reparse::lemma_prepared(
        data,
        info,
        options.identifier,
        options.hardened_runtime,
        options.linker_signed,
        sign::resolved(data, options.entitlements),
        p,
    );
    digest::lemma_page_digests_len(code, CS_PAGE_SIZE as int, l.n_code_slots as nat);
    superblob::lemma_region(l, hashes);
    assert(out.take(l.code_limit as int) =~= code);
    assert(out.skip(l.code_limit as int) =~= l.region(hashes));
}

/// Signing a thin binary changes nothing of its content but the place of the
/// signature, the sizes of `__LINKEDIT` and, where there was no command for
/// the signature, that command, which takes the place of zeros, and the two
/// counts in the header. What comes after the content up to the signature is
/// zero.
pub proof fn law_signing_keeps_the_code(data: Seq<u8>, options: OptionsView, out: Seq<u8>)
    requires
        sign::signed_thin(data, options) == Ok::<Seq<u8>, ErrorView>(out),
    ensures
        ({
            let info = record(data);
            let l = plan(data, options).layout;
            &&& l.code_limit <= out.len()
            &&& info.codesig is None ==> bytes::all_zero(
                data,
                info.commands_end(),
                info.prefix_len(),
            )
            &&& forall|i: int|
                0 <= i < l.code_limit && i < data.len() && !reparse::change_of(info, l).touches(i)
                    && (info.codesig is None ==> !(16 <= i < 24) && !(info.commands_end() <= i
                    < info.prefix_len())) ==> #[trigger] out[i] == data[i]
            &&& forall|i: int| data.len() <= i < l.code_limit ==> #[trigger] out[i] == 0
        }),
{
    lemma_parts(data, options, out);
    let info = record(data);
    let p = plan(data, options);
    let l = p.layout;
    let change = reparse::change_of(info, l);
    assert forall|i: int|
        0 <= i < l.code_limit && i < data.len() && !change.touches(i) && (info.codesig is None
            ==> !(16 <= i < 24) && !(info.commands_end() <= i < info.prefix_len())) implies
        #[trigger] out[i] == data[i] by {
        assert(out[i] == p.prefix[i]);
    }
}

/// The load commands of a signed binary name its signature.
pub proof fn lemma_record_after(data: Seq<u8>, options: OptionsView, out: Seq<u8>)
    requires
        reparse::regular(data),
        sign::signed_thin(data, options) == Ok::<Seq<u8>, ErrorView>(out),
    ensures
        ({
            let info = record(data);
            let l = plan(data, options).layout;
            macho::load_info(out) == Ok::<LoadInfo, ErrorView>(reparse::signed_info(info, l))
        }),
{
    lemma_parts(data, options, out);
    let p = plan(data, options);
    reparse::lemma_reparse(data, p.prefix, out, record(data), p.layout);
}

/// A signed binary ends with its signature, which takes a multiple of 16
/// bytes. Where the binary had no signature before, it starts at a multiple
/// of 16 bytes.
pub proof fn law_signature_is_aligned(data: Seq<u8>, options: OptionsView, out: Seq<u8>)
    requires
        sign::signed_thin(data, options) == Ok::<Seq<u8>, ErrorView>(out),
    ensures
        ({
            let l = plan(data, options).layout;
            &&& out.len() == l.code_limit + l.allocated_size
            &&& out.len() <= u32::MAX
            &&& l.allocated_size % 16 == 0
            &&& l.blob_size + layout::ALLOCATION_SLACK <= l.allocated_size
            &&& record(data).codesig is None ==> l.code_limit % 16 == 0
        }),
{
    lemma_parts(data, options, out);
    let l = plan(data, options).layout;
    let linkedit = record(data).linkedit->0;
    bytes::lemma_round_up(l.blob_size + layout::ALLOCATION_SLACK, 16);
    bytes::lemma_round_up(linkedit.fileoff + linkedit.filesize, 16);
}

/// A thin binary that was signed passes verification, and what verification
/// reports is what the options asked for.
#[verifier::spinoff_prover]
#[verifier::rlimit(50)]
pub proof fn law_signed_binary_verifies(data: Seq<u8>, options: OptionsView, out: Seq<u8>)
    requires
        reparse::regular(data),
        sign::signed_thin(data, options) == Ok::<Seq<u8>, ErrorView>(out),
    ensures
        ({
            let l = plan(data, options).layout;
            let entitled = sign::resolved(data, options.entitlements) is Some;
            let page_hashes = digest::all_page_digests(code(data, options));
            let report = SignatureInfoView {
                identifier: text::before_nul(options.identifier),
                flags: layout::signing_flags(options.hardened_runtime, options.linker_signed),
                code_limit: l.code_limit,
                n_code_slots: bytes::pieces(l.code_limit as int, CS_PAGE_SIZE as int) as u32,
                n_special_slots: if entitled {
                    CSSLOT_ENTITLEMENTS
                } else {
                    CSSLOT_REQUIREMENTS
                },
                cd_hash: digest::sha256(l.codedirectory(page_hashes))@,
                has_entitlements: entitled,
            };
            &&& verify::verified_thin(out) == Ok::<SignatureInfoView, ErrorView>(report)
            &&& verify::verified(out) == Ok::<Seq<SignatureInfoView>, ErrorView>(seq![report])
        }),
{
    lemma_parts(data, options, out);
    lemma_record_after(data, options, out);
    let info = record(data);
    let l = plan(data, options).layout;
    let after = reparse::signed_info(info, l);
    macho::lemma_load_info(out, after);
    assert(after.linkedit->0.fileoff == info.linkedit->0.fileoff);
    assert(verify::signature_start(out) == Ok::<u32, ErrorView>(l.code_limit as u32));
    verification::lemma_signature_verifies(l, code(data, options));
    reveal(layout::layout_of);
    text::lemma_until_nul(options.identifier);
    encode_utf8_valid_utf8(text::before_nul(options.identifier));
    encode_utf8_decode_utf8(text::before_nul(options.identifier));
}

/// The signature of a signed binary is found again.
pub proof fn lemma_signature_after(data: Seq<u8>, options: OptionsView, out: Seq<u8>)
    requires
        reparse::regular(data),
        sign::signed_thin(data, options) == Ok::<Seq<u8>, ErrorView>(out),
    ensures
        blob::signature(out) == Some(
            plan(data, options).layout.region(digest::all_page_digests(code(data, options))),
        ),
{
    lemma_parts(data, options, out);
    lemma_record_after(data, options, out);
    let l = plan(data, options).layout;
    assert(out.subrange(l.code_limit as int, out.len() as int) =~= out.skip(l.code_limit as int));
    bytes::lemma_round_up(l.blob_size + layout::ALLOCATION_SLACK, 16);
}

/// The entitlements of a signed binary are those that the options asked for:
/// none, the given ones, or those that the binary had before.
pub proof fn law_entitlements_are_embedded(data: Seq<u8>, options: OptionsView, out: Seq<u8>)
    requires
        reparse::regular(data),
        sign::signed_thin(data, options) == Ok::<Seq<u8>, ErrorView>(out),
    ensures
        blob::entitlements_of(out) == sign::resolved(data, options.entitlements),
{
    lemma_parts(data, options, out);
    lemma_signature_after(data, options, out);
    let l = plan(data, options).layout;
    let hashes = digest::all_page_digests(code(data, options));
    digest::lemma_page_digests_len(
        code(data, options),
        CS_PAGE_SIZE as int,
        l.n_code_slots as nat,
    );
    superblob::lemma_blobs(l, hashes);
    assert(l.entitlements == sign::resolved(data, options.entitlements)) by {
        reveal(layout::layout_of);
    }
    if let Some(entitlements) = l.entitlements {
        assert(layout::entitlements_blob(entitlements).skip(8) =~= entitlements);
    }
}

/// A signed binary carries the linker-signed flag exactly if the options ask
/// for it, whatever it carried before.
pub proof fn law_linker_signed_flag(data: Seq<u8>, options: OptionsView, out: Seq<u8>)
    requires
        reparse::regular(data),
        sign::signed_thin(data, options) == Ok::<Seq<u8>, ErrorView>(out),
    ensures
        blob::linker_signed(out) == options.linker_signed,
{
    lemma_parts(data, options, out);
    lemma_signature_after(data, options, out);
    let l = plan(data, options).layout;
    let hashes = digest::all_page_digests(code(data, options));
    digest::lemma_page_digests_len(
        code(data, options),
        CS_PAGE_SIZE as int,
        l.n_code_slots as nat,
    );
    superblob::lemma_blobs(l, hashes);
    verification::lemma_fields(l, hashes);
    assert(l.flags == layout::signing_flags(options.hardened_runtime, options.linker_signed)) by {
        reveal(layout::layout_of);
    }
    assert((0x2u32 & 0x20000) == 0) by (bit_vector);
    assert(((0x2u32 | 0x10000) & 0x20000) == 0) by (bit_vector);
    assert(((0x2u32 | 0x20000) & 0x20000) != 0) by (bit_vector);
    assert(((0x2u32 | 0x10000 | 0x20000) & 0x20000) != 0) by (bit_vector);
}

/// The signature of a signed binary is a SuperBlob with a CodeDirectory of
/// version 0x20400 that holds SHA-256 hashes of 4 KiB pages and names the
/// executable segment, an empty Requirements blob, the entitlements in plist
/// form where there are any, an empty CMS signature wrapper, and nothing else.
/// Zeros fill up the space that is allocated for it.
pub proof fn law_signature_format(data: Seq<u8>, options: OptionsView, out: Seq<u8>)
    requires
        sign::signed_thin(data, options) == Ok::<Seq<u8>, ErrorView>(out),
    ensures
        ({
            let info = record(data);
            let l = plan(data, options).layout;
            let sig = out.skip(l.code_limit as int);
            let cd = l.codedirectory(digest::all_page_digests(code(data, options)));
            &&& blob::blob_for(sig, CSSLOT_CODEDIRECTORY) == Some((CSMAGIC_CODEDIRECTORY, cd))
            &&& bytes::u32_at(cd, 8, false) == CS_VERSION
            &&& cd[36] == HASH_SIZE
            &&& cd[37] == CS_HASHTYPE_SHA256
            &&& cd[39] == CS_PAGE_SIZE_LOG2
            &&& bytes::u64_at(cd, 64, false) == info.text_fileoff
            &&& bytes::u64_at(cd, 72, false) == info.text_filesize
            &&& bytes::u64_at(cd, 80, false) == (if info.is_executable {
                CS_EXECSEG_MAIN_BINARY
            } else {
                0
            })
            &&& blob::blob_for(sig, CSSLOT_REQUIREMENTS) == Some(
                (CSMAGIC_REQUIREMENTS, layout::requirements_blob()),
            )
            &&& blob::blob_for(sig, CSSLOT_ENTITLEMENTS) == (match sign::resolved(
                data,
                options.entitlements,
            ) {
                Some(plist) => Some(
                    (CSMAGIC_EMBEDDED_ENTITLEMENTS, layout::entitlements_blob(plist)),
                ),
                None => None,
            })
            &&& blob::blob_for(sig, CSSLOT_SIGNATURESLOT) == Some(
                (CSMAGIC_BLOBWRAPPER, layout::cms_blob()),
            )
            &&& forall|slot: u32|
                slot != CSSLOT_CODEDIRECTORY && slot != CSSLOT_REQUIREMENTS && slot
                    != CSSLOT_ENTITLEMENTS && slot != CSSLOT_SIGNATURESLOT
                    ==> #[trigger] blob::blob_for(sig, slot) is None
            &&& bytes::all_zero(sig, l.blob_size as int, sig.len() as int)
        }),
{
    lemma_parts(data, options, out);
    let l = plan(data, options).layout;
    let hashes = digest::all_page_digests(code(data, options));
    let cd = l.codedirectory(hashes);
    digest::lemma_page_digests_len(
        code(data, options),
        CS_PAGE_SIZE as int,
        l.n_code_slots as nat,
    );
    superblob::lemma_blobs(l, hashes);
    superblob::lemma_other_blobs(l, hashes);
    superblob::lemma_executable_segment(l, hashes);
    superblob::lemma_codedirectory_header(l);
    verification::lemma_directory_parts(l, hashes);
    superblob::lemma_head(cd, l.codedirectory_header());
    assert(cd[36] == l.codedirectory_header()[36]);
    assert(cd[37] == l.codedirectory_header()[37]);
    assert(cd[39] == l.codedirectory_header()[39]);
    reveal(layout::layout_of);
}

/// What comes after the code has no part in what is prepared.
proof fn lemma_completed_alike(
    front: Seq<u8>,
    old: Seq<u8>,
    new: Seq<u8>,
    info: LoadInfo,
    options: OptionsView,
    entitlements: Option<Seq<u8>>,
    p: PreparedView,
)
    requires
        info.wf(),
        info.prefix_len() <= front.len(),
        sign::prepared(
            front + old,
            info,
            options.identifier,
            options.hardened_runtime,
            options.linker_signed,
            entitlements,
        ) == Ok::<PreparedView, ErrorView>(p),
        p.layout.code_limit == front.len(),
    ensures
        sign::prepared(
            front + new,
            info,
            options.identifier,
            options.hardened_runtime,
            options.linker_signed,
            entitlements,
        ) matches Ok(q) && q.min_input == p.min_input && sign::completed(q)
            == sign::completed(p),
{
    let identifier = options.identifier;
    let (hardened, linker) = (options.hardened_runtime, options.linker_signed);
    streaming::lemma_prepare_front(front, old, info, identifier, hardened, linker, entitlements);
    streaming::lemma_prepare_front(front, new, info, identifier, hardened, linker, entitlements);
    let same = sign::prepared(front, info, identifier, hardened, linker, entitlements)->Ok_0;
    assert(bytes::resized(same.prefix + old, front.len()) =~= same.prefix);
    assert(bytes::resized(same.prefix + new, front.len()) =~= same.prefix);
}

/// The old signature of a binary that is signed again does not matter: unless
/// entitlements are preserved, whatever stands in its place gives the same
/// signed binary.
pub proof fn law_old_signature_does_not_matter(
    data: Seq<u8>,
    other: Seq<u8>,
    options: OptionsView,
    out: Seq<u8>,
)
    requires
        !(options.entitlements is Preserve),
        sign::signed_thin(data, options) == Ok::<Seq<u8>, ErrorView>(out),
        record(data).codesig is Some,
        ({
            let start = record(data).codesig->0.data_offset as int;
            &&& start <= other.len()
            &&& other.take(start) == data.take(start)
        }),
    ensures
        sign::signed_thin(other, options) == Ok::<Seq<u8>, ErrorView>(out),
{
    let info = record(data);
    let start = info.codesig->0.data_offset as int;
    let front = data.take(start);
    let old = data.skip(start);
    let new = other.skip(start);
    let p = plan(data, options);
    assert(info.wf() && info.commands_end() <= info.prefix_len() <= start && p.layout.code_limit
        == start && p.min_input == start && start <= data.len()) by {
        lemma_parts(data, options, out);
    }
    assert(front + old =~= data);
    assert(front + new =~= other);
    assert(macho::load_info(other) == Ok::<LoadInfo, ErrorView>(info)) by {
        assert forall|i: int| 0 <= i < start implies #[trigger] data[i] == other[i] by {
            assert(front[i] == data[i]);
            assert(other.take(start)[i] == other[i]);
        }
        reparse::lemma_record_of_prefix(data, other, info);
    }
    let entitlements = sign::resolved(data, options.entitlements);
    lemma_completed_alike(front, old, new, info, options, entitlements, p);
}

/// Patching the fields of a signed binary with what they hold changes
/// nothing.
proof fn lemma_patch_again(data: Seq<u8>, options: OptionsView, out: Seq<u8>)
    requires
        reparse::regular(data),
        sign::signed_thin(data, options) == Ok::<Seq<u8>, ErrorView>(out),
    ensures
        ({
            let info = record(data);
            let l = plan(data, options).layout;
            let change = reparse::change_of(info, l);
            let after = reparse::signed_info(info, l);
            sign::patched(
                out,
                change.codesig,
                after,
                after.linkedit->0,
                l,
                change.filesize,
                change.vmsize,
            ) == out
        }),
{
    lemma_parts(data, options, out);
    let info = record(data);
    let p = plan(data, options);
    let l = p.layout;
    let change = reparse::change_of(info, l);
    let le = info.little_endian;
    let cs = change.codesig;
    let at = change.linkedit;
    assert(info.prefix_len() <= l.code_limit);
    bytes::lemma_u32_same(out, cs + 8, p.prefix, cs + 8, le);
    bytes::lemma_u32_same(out, cs + 12, p.prefix, cs + 12, le);
    bytes::lemma_put32_same(out, cs + 8, l.code_limit as u32, le);
    bytes::lemma_put32_same(out, cs + 12, l.allocated_size as u32, le);
    if info.is_64bit {
        bytes::lemma_u64_same(out, at + 32, p.prefix, at + 32, le);
        bytes::lemma_u64_same(out, at + 48, p.prefix, at + 48, le);
        bytes::lemma_put64_same(out, at + 32, change.vmsize, le);
        bytes::lemma_put64_same(out, at + 48, change.filesize, le);
    } else {
        bytes::lemma_u32_same(out, at + 28, p.prefix, at + 28, le);
        bytes::lemma_u32_same(out, at + 36, p.prefix, at + 36, le);
        bytes::lemma_put32_same(out, at + 28, change.vmsize as u32, le);
        bytes::lemma_put32_same(out, at + 36, change.filesize as u32, le);
    }
}

/// Preparing a signed binary with the same options gives the same layout.
#[verifier::spinoff_prover]
#[verifier::rlimit(50)]
proof fn lemma_prepare_again(data: Seq<u8>, options: OptionsView, out: Seq<u8>)
    requires
        reparse::regular(data),
        sign::signed_thin(data, options) == Ok::<Seq<u8>, ErrorView>(out),
    ensures
        sign::prepared(
            out,
            reparse::signed_info(record(data), plan(data, options).layout),
            options.identifier,
            options.hardened_runtime,
            options.linker_signed,
            sign::resolved(data, options.entitlements),
        ) == Ok::<PreparedView, ErrorView>(
            PreparedView {
                prefix: out,
                layout: plan(data, options).layout,
                min_input: plan(data, options).layout.code_limit,
            },
        ),
{
    lemma_parts(data, options, out);
    lemma_patch_again(data, options, out);
    let info = record(data);
    let l = plan(data, options).layout;
    let after = reparse::signed_info(info, l);
    assert(layout::layout_of(
        after,
        l.code_limit,
        options.identifier,
        options.hardened_runtime,
        options.linker_signed,
        sign::resolved(data, options.entitlements),
    ) == Ok::<LayoutView, ErrorView>(l)) by {
        reveal(layout::layout_of);
    }
    assert(info.is_64bit || reparse::change_of(info, l).vmsize <= u32::MAX) by {
        reveal(sign::prepared);
    }
    reveal(sign::prepared);
}

/// Signing again with the same options changes nothing.
pub proof fn law_signing_is_idempotent(data: Seq<u8>, options: OptionsView, out: Seq<u8>)
    requires
        reparse::regular(data),
        sign::signed_thin(data, options) == Ok::<Seq<u8>, ErrorView>(out),
    ensures
        signs(out, options, out),
{
    lemma_parts(data, options, out);
    lemma_record_after(data, options, out);
    lemma_prepare_again(data, options, out);
    law_entitlements_are_embedded(data, options, out);
    let l = plan(data, options).layout;
    assert(sign::resolved(out, options.entitlements) == sign::resolved(
        data,
        options.entitlements,
    ));
    let again = PreparedView { prefix: out, layout: l, min_input: l.code_limit };
    assert(bytes::resized(out, l.code_limit as nat) =~= code(data, options));
    assert(sign::completed(again) =~= out);
    macho::lemma_load_info(out, reparse::signed_info(record(data), l));
}

/// A signed binary can be signed again, with whatever options, and what is
/// said of a regular binary holds of it.
pub proof fn law_signed_binary_is_regular(data: Seq<u8>, options: OptionsView, out: Seq<u8>)
    requires
        reparse::regular(data),
        signs(data, options, out),
    ensures
        reparse::regular(out),
{
    lemma_parts(data, options, out);
    lemma_record_after(data, options, out);
    let info = record(data);
    let p = plan(data, options);
    let l = p.layout;
    let change = reparse::change_of(info, l);
    reparse::lemma_walk_of_record(data, info);
    reparse::lemma_walk_of_record(out, reparse::signed_info(info, l));
    let at = change.linkedit;
    reparse::lemma_u32_agrees(
        data,
        p.prefix,
        change,
        24,
        info.commands_end(),
        at,
        info.little_endian,
    );
    bytes::lemma_u32_same(out, at, p.prefix, at, info.little_endian);
}

/// Entitlements survive signing with [`crate::Entitlements::Preserve`], once
/// a binary has them.
pub proof fn law_preserved_entitlements_survive(
    data: Seq<u8>,
    first: OptionsView,
    between: Seq<u8>,
    second: OptionsView,
    out: Seq<u8>,
)
    requires
        reparse::regular(data),
        signs(data, first, between),
        second.entitlements is Preserve,
        signs(between, second, out),
    ensures
        blob::entitlements_of(out) == sign::resolved(data, first.entitlements),
{
    law_entitlements_are_embedded(data, first, between);
    law_signed_binary_is_regular(data, first, between);
    law_entitlements_are_embedded(between, second, out);
}

} // verus!
