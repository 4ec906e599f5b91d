//! The signature of a signed binary, byte by byte.

use crate::bytes;
use crate::digest;
use crate::error::ErrorView;
use crate::laws::{commands, report, signing, superblob, thin, verification};
use crate::layout;
use crate::layout::LayoutView;
use crate::options::OptionsView;
use crate::sign;
use vstd::prelude::*;
use vstd::utf8::*;

verus! {

/// The flags of a signature: ad-hoc, and what the options ask for.
pub open spec fn flags(options: OptionsView) -> int {
    let runtime: int = if options.hardened_runtime {
        0x1_0000
    } else {
        0
    };
    let linker: int = if options.linker_signed {
        0x2_0000
    } else {
        0
    };
    2 + runtime + linker
}

/// An empty Requirements blob.
pub open spec fn empty_requirements() -> Seq<u8> {
    seq![0xfa, 0xde, 0x0c, 0x01, 0, 0, 0, 12, 0, 0, 0, 0]
}

/// An empty CMS signature wrapper.
pub open spec fn empty_cms() -> Seq<u8> {
    seq![0xfa, 0xde, 0x0b, 0x01, 0, 0, 0, 8]
}

/// Whether `blob` is an entitlements blob with the given plist.
pub open spec fn is_entitlements(blob: Seq<u8>, plist: Seq<u8>) -> bool {
    &&& blob.len() == 8 + plist.len()
    &&& bytes::u32_at(blob, 0, false) == 0xfade_7171
    &&& bytes::u32_at(blob, 4, false) == blob.len()
    &&& blob.skip(8) == plist
}

/// The index of a signature: the CodeDirectory, the Requirements, the
/// entitlements if there are any, and the CMS signature wrapper, one after
/// the other.
pub open spec fn is_index(
    sig: Seq<u8>,
    name: Seq<u8>,
    entitlements: Option<Seq<u8>>,
    limit: int,
) -> bool {
    let directory = thin::index_size(entitlements);
    let requirements = directory + thin::directory_size(name, entitlements, limit);
    let cms = requirements + 12 + thin::entitlements_size(entitlements);
    &&& bytes::u32_at(sig, 0, false) == 0xfade_0cc0
    &&& bytes::u32_at(sig, 4, false) == cms + 8
    &&& bytes::u32_at(sig, 12, false) == 0
    &&& bytes::u32_at(sig, 16, false) == directory
    &&& bytes::u32_at(sig, 20, false) == 2
    &&& bytes::u32_at(sig, 24, false) == requirements
    &&& entitlements is Some ==> {
        &&& bytes::u32_at(sig, 8, false) == 4
        &&& bytes::u32_at(sig, 28, false) == 5
        &&& bytes::u32_at(sig, 32, false) == requirements + 12
        &&& bytes::u32_at(sig, 36, false) == 0x1_0000
        &&& bytes::u32_at(sig, 40, false) == cms
    }
    &&& entitlements is None ==> {
        &&& bytes::u32_at(sig, 8, false) == 3
        &&& bytes::u32_at(sig, 28, false) == 0x1_0000
        &&& bytes::u32_at(sig, 32, false) == cms
    }
}

/// The fixed part of the CodeDirectory.
pub open spec fn is_directory(
    cd: Seq<u8>,
    name: Seq<u8>,
    entitlements: Option<Seq<u8>>,
    limit: int,
    flags: int,
) -> bool {
    &&& cd.len() == thin::directory_size(name, entitlements, limit)
    &&& bytes::u32_at(cd, 0, false) == 0xfade_0c02
    &&& bytes::u32_at(cd, 4, false) == cd.len()
    &&& bytes::u32_at(cd, 8, false) == 0x2_0400
    &&& bytes::u32_at(cd, 12, false) == flags
    &&& bytes::u32_at(cd, 16, false) == thin::hash_offset(name, entitlements)
    &&& bytes::u32_at(cd, 20, false) == 88
    &&& bytes::u32_at(cd, 24, false) == thin::special_slots(entitlements)
    &&& bytes::u32_at(cd, 28, false) == thin::page_count(limit)
    &&& bytes::u32_at(cd, 32, false) == limit
    &&& cd[36] == 32
    &&& cd[37] == 2
    &&& cd[38] == 0
    &&& cd[39] == 12
    &&& forall|k: int| 40 <= k < 64 ==> #[trigger] cd[k] == 0
}

/// The name and the hashes in the CodeDirectory: of the pages of the code, of
/// the Requirements and of the entitlements, and zeros in the other special
/// slots.
pub open spec fn has_hashes(
    cd: Seq<u8>,
    name: Seq<u8>,
    entitlements: Option<Seq<u8>>,
    code: Seq<u8>,
) -> bool {
    let hashes = thin::hash_offset(name, entitlements);
    &&& cd.subrange(88, 88 + name.len() as int) == name
    &&& cd[88 + name.len() as int] == 0
    &&& forall|k: int|
        0 <= k < thin::page_count(code.len() as int) ==> digest::sha256(
            #[trigger] report::page_of(code, 4096, k),
        )@ == cd.subrange(hashes + k * 32, hashes + k * 32 + 32)
    &&& cd.subrange(hashes - 64, hashes - 32) == digest::sha256(empty_requirements())@
    &&& bytes::all_zero(cd, hashes - 32, hashes)
    &&& entitlements matches Some(plist) ==> {
        &&& forall|blob: Seq<u8>| #[trigger]
            is_entitlements(blob, plist) ==> cd.subrange(hashes - 160, hashes - 128)
                == digest::sha256(blob)@
        &&& bytes::all_zero(cd, hashes - 128, hashes - 64)
    }
}

/// The signature of a signed binary.
pub open spec fn is_signature(
    sig: Seq<u8>,
    name: Seq<u8>,
    entitlements: Option<Seq<u8>>,
    code: Seq<u8>,
    flags: int,
) -> bool {
    let limit = code.len() as int;
    let directory = thin::index_size(entitlements);
    let requirements = directory + thin::directory_size(name, entitlements, limit);
    let cms = requirements + 12 + thin::entitlements_size(entitlements);
    let cd = sig.subrange(directory, requirements);
    &&& sig.len() == thin::signature_size(name, entitlements, limit)
    &&& is_index(sig, name, entitlements, limit)
    &&& is_directory(cd, name, entitlements, limit, flags)
    &&& has_hashes(cd, name, entitlements, code)
    &&& sig.subrange(requirements, requirements + 12) == empty_requirements()
    &&& entitlements matches Some(plist) ==> is_entitlements(
        sig.subrange(requirements + 12, cms),
        plist,
    )
    &&& sig.subrange(cms, cms + 8) == empty_cms()
    &&& bytes::all_zero(sig, cms + 8, sig.len() as int)
}

/// The blobs that hold nothing.
proof fn lemma_empty_blobs()
    ensures
        layout::requirements_blob() == empty_requirements(),
        layout::cms_blob() == empty_cms(),
{
    assert(layout::requirements_blob() =~= empty_requirements());
    assert(layout::cms_blob() =~= empty_cms());
}

/// The entitlements blob is one.
proof fn lemma_entitlements_blob(plist: Seq<u8>)
    requires
        8 + plist.len() <= u32::MAX,
    ensures
        is_entitlements(layout::entitlements_blob(plist), plist),
        forall|blob: Seq<u8>| #[trigger]
            is_entitlements(blob, plist) ==> blob == layout::entitlements_blob(plist),
{
    let whole = layout::entitlements_blob(plist);
    let magic = layout::be(0xfade_7171);
    let len = 8 + plist.len() as int;
    superblob::lemma_first_word(0xfade_7171);
    superblob::lemma_append_word(magic, len);
    superblob::lemma_seam(magic + layout::be(len), plist);
    assert(whole.skip(8) =~= plist);
    assert forall|blob: Seq<u8>| #[trigger] is_entitlements(blob, plist) implies blob == whole by {
        bytes::lemma_split4(blob[3], blob[2], blob[1], blob[0]);
        bytes::lemma_split4(whole[3], whole[2], whole[1], whole[0]);
        bytes::lemma_split4(blob[7], blob[6], blob[5], blob[4]);
        bytes::lemma_split4(whole[7], whole[6], whole[5], whole[4]);
        assert forall|k: int| 0 <= k < blob.len() implies blob[k] == whole[k] by {
            if k >= 8 {
                assert(blob[k] == blob.skip(8)[k - 8]);
                assert(whole[k] == whole.skip(8)[k - 8]);
            }
        }
        assert(blob =~= whole);
    }
}

/// The flags as a number.
proof fn lemma_flags(options: OptionsView)
    ensures
        layout::signing_flags(options.hardened_runtime, options.linker_signed) == flags(options),
{
    assert((0x2u32 | 0x10000) == 0x10002) by (bit_vector);
    assert((0x2u32 | 0x20000) == 0x20002) by (bit_vector);
    assert((0x2u32 | 0x10000 | 0x20000) == 0x30002) by (bit_vector);
}

/// The sizes of a layout.
proof fn lemma_sizes(l: LayoutView)
    requires
        l.wf(),
    ensures
        ({
            let (name, entitlements, limit) = (l.identifier, l.entitlements, l.code_limit as int);
            &&& l.superblob_header_size() == thin::index_size(entitlements)
            &&& l.n_code_slots == thin::page_count(limit)
            &&& l.n_special_slots == thin::special_slots(entitlements)
            &&& l.hash_offset() == thin::hash_offset(name, entitlements)
            &&& l.codedirectory_size() == thin::directory_size(name, entitlements, limit)
            &&& l.entitlements_blob_size() == thin::entitlements_size(entitlements)
            &&& l.blob_size == thin::content_size(name, entitlements, limit)
            &&& l.allocated_size == thin::signature_size(name, entitlements, limit)
        }),
{
}

/// The index of a layout.
proof fn lemma_is_index(l: LayoutView, page_hashes: Seq<u8>)
    requires
        l.wf(),
        page_hashes.len() == l.n_code_slots * 32,
    ensures
        is_index(l.region(page_hashes), l.identifier, l.entitlements, l.code_limit as int),
{
    lemma_sizes(l);
    superblob::lemma_region(l, page_hashes);
    superblob::lemma_superblob_header(l);
    superblob::lemma_head(l.region(page_hashes), l.superblob_header());
}

/// The CodeDirectory of a layout.
proof fn lemma_is_directory(l: LayoutView, page_hashes: Seq<u8>)
    requires
        l.wf(),
        page_hashes.len() == l.n_code_slots * 32,
    ensures
        is_directory(
            l.codedirectory(page_hashes),
            l.identifier,
            l.entitlements,
            l.code_limit as int,
            l.flags as int,
        ),
{
    let cd = l.codedirectory(page_hashes);
    lemma_sizes(l);
    superblob::lemma_codedirectory_header(l);
    superblob::lemma_executable_segment(l, page_hashes);
    verification::lemma_directory_parts(l, page_hashes);
    superblob::lemma_head(cd, l.codedirectory_header());
    assert(cd[36] == l.codedirectory_header()[36]);
    assert(cd[37] == l.codedirectory_header()[37]);
    assert(cd[39] == l.codedirectory_header()[39]);
}

/// The hash in a special slot.
proof fn lemma_special(l: LayoutView, page_hashes: Seq<u8>, slot: u32)
    requires
        l.wf(),
        page_hashes.len() == l.n_code_slots * 32,
        0 < slot <= l.n_special_slots,
    ensures
        l.codedirectory(page_hashes).subrange(
            l.hash_offset() - slot * 32,
            l.hash_offset() - slot * 32 + 32,
        ) == l.special_hash(slot),
{
    verification::lemma_stored_special(l, page_hashes, slot);
}

/// Zeros between two places.
proof fn lemma_zeros_at(data: Seq<u8>, start: int)
    requires
        0 <= start,
        start + 32 <= data.len(),
        data.subrange(start, start + 32) == bytes::zeros(32),
    ensures
        bytes::all_zero(data, start, start + 32),
{
    assert forall|k: int| start <= k < start + 32 implies #[trigger] data[k] == 0 by {
        assert(data.subrange(start, start + 32)[k - start] == 0);
    }
}

/// The name and the hashes of a layout.
proof fn lemma_has_hashes(l: LayoutView, code: Seq<u8>)
    requires
        l.wf(),
        code.len() == l.code_limit,
    ensures
        has_hashes(
            l.codedirectory(digest::all_page_digests(code)),
            l.identifier,
            l.entitlements,
            code,
        ),
{
    let page_hashes = digest::all_page_digests(code);
    let cd = l.codedirectory(page_hashes);
    let name = l.identifier;
    let count = l.n_code_slots as nat;
    let at = l.hash_offset();
    digest::lemma_page_digests_len(code, 4096, count);
    lemma_sizes(l);
    lemma_empty_blobs();
    verification::lemma_directory_parts(l, page_hashes);
    let rest = cd.skip(88);
    assert(cd.subrange(88, 88 + name.len() as int) =~= name) by {
        assert forall|k: int| 0 <= k < name.len() implies cd[88 + k] == #[trigger] name[k] by {
            assert(rest[k] == cd[88 + k]);
        }
    }
    assert(cd[88 + name.len() as int] == 0) by {
        assert(rest[name.len() as int] == cd[88 + name.len() as int]);
    }
    assert forall|k: int| 0 <= k < count implies digest::sha256(
        #[trigger] report::page_of(code, 4096, k),
    )@ == cd.subrange(at + k * 32, at + k * 32 + 32) by {
        digest::lemma_page_digest_at(code, 4096, count, k);
        assert(digest::page(code, 4096, k) == report::page_of(code, 4096, k));
        let table = cd.skip(at);
        assert(table.subrange(k * 32, k * 32 + 32) =~= cd.subrange(at + k * 32, at + k * 32 + 32));
    }
    lemma_special(l, page_hashes, 1);
    lemma_special(l, page_hashes, 2);
    lemma_zeros_at(cd, at - 32);
    if let Some(plist) = l.entitlements {
        lemma_special(l, page_hashes, 3);
        lemma_special(l, page_hashes, 4);
        lemma_special(l, page_hashes, 5);
        lemma_zeros_at(cd, at - 96);
        lemma_zeros_at(cd, at - 128);
        lemma_entitlements_blob(plist);
    }
}

/// The region of a layout is a signature.
proof fn lemma_is_signature(l: LayoutView, code: Seq<u8>)
    requires
        l.wf(),
        code.len() == l.code_limit,
    ensures
        is_signature(
            l.region(digest::all_page_digests(code)),
            l.identifier,
            l.entitlements,
            code,
            l.flags as int,
        ),
{
    let page_hashes = digest::all_page_digests(code);
    digest::lemma_page_digests_len(code, 4096, l.n_code_slots as nat);
    lemma_sizes(l);
    lemma_empty_blobs();
    superblob::lemma_region(l, page_hashes);
    superblob::lemma_other_blobs(l, page_hashes);
    lemma_is_index(l, page_hashes);
    lemma_is_directory(l, page_hashes);
    lemma_has_hashes(l, code);
    if let Some(plist) = l.entitlements {
        lemma_entitlements_blob(plist);
    }
}

/// The signature of a signed binary, from `limit` on, holds the identifier,
/// the flags and the entitlements that the options ask for, and the hashes of
/// all that comes before it.
pub proof fn law_signature_is_built(
    data: Seq<u8>,
    options: OptionsView,
    out: Seq<u8>,
    limit: int,
)
    requires
        sign::signed_thin(data, options) == Ok::<Seq<u8>, ErrorView>(out),
        thin::can_be_signed(data, options, limit),
    ensures
        is_signature(
            out.skip(limit),
            encode_utf8(options.identifier),
            thin::embedded(data, options),
            out.take(limit),
            flags(options),
        ),
{
    let l = signing::plan(data, options).layout;
    signing::lemma_parts(data, options, out);
    thin::lemma_limit(data, options, out, limit);
    assert(l.identifier == encode_utf8(options.identifier) && l.entitlements == thin::embedded(
        data,
        options,
    ) && l.flags == layout::signing_flags(options.hardened_runtime, options.linker_signed)) by {
        reveal(layout::layout_of);
    }
    lemma_flags(options);
    lemma_is_signature(l, signing::code(data, options));
}

/// The CodeDirectory of a signed binary names the segment `__TEXT` of the
/// binary, and calls it the main one exactly if the file type in the header of
/// the binary is that of an executable.
pub proof fn law_executable_segment_is_text(
    data: Seq<u8>,
    options: OptionsView,
    out: Seq<u8>,
    limit: int,
)
    requires
        sign::signed_thin(data, options) == Ok::<Seq<u8>, ErrorView>(out),
        thin::can_be_signed(data, options, limit),
    ensures
        ({
            let info = signing::record(data);
            let le = info.little_endian;
            let first = commands::header_len(info.is_64bit);
            let count = bytes::u32_at(data, 16, le) as nat;
            let cd = out.skip(limit).skip(thin::index_size(thin::embedded(data, options)));
            &&& commands::starts_thin(data, info.is_64bit, le)
            &&& commands::text_told(
                data,
                le,
                first,
                count,
                bytes::u64_at(cd, 64, false),
                bytes::u64_at(cd, 72, false),
            )
            &&& bytes::u64_at(cd, 80, false) == (if bytes::u32_at(data, 12, le) == 2 {
                1int
            } else {
                0
            })
        }),
{
    let info = signing::record(data);
    let l = signing::plan(data, options).layout;
    let code = signing::code(data, options);
    let hashes = digest::all_page_digests(code);
    let cd = l.codedirectory(hashes);
    let sig = out.skip(limit);
    let rest = sig.skip(thin::index_size(thin::embedded(data, options)));
    signing::lemma_parts(data, options, out);
    thin::lemma_limit(data, options, out, limit);
    commands::law_record_tells_the_commands(data, info);
    assert(l.entitlements == thin::embedded(data, options) && l.exec_seg_base == info.text_fileoff
        && l.exec_seg_limit == info.text_filesize && l.exec_seg_flags == (
    if info.is_executable {
        1int
    } else {
        0
    })) by {
        reveal(layout::layout_of);
    }
    digest::lemma_page_digests_len(code, 4096, l.n_code_slots as nat);
    lemma_sizes(l);
    superblob::lemma_region(l, hashes);
    superblob::lemma_executable_segment(l, hashes);
    assert forall|k: int| 0 <= k < cd.len() implies rest[k] == #[trigger] cd[k] by {
        assert(sig.subrange(l.superblob_header_size(), l.requirements_offset())[k] == cd[k]);
    }
    bytes::lemma_u64_same(rest, 64, cd, 64, false);
    bytes::lemma_u64_same(rest, 72, cd, 72, false);
    bytes::lemma_u64_same(rest, 80, cd, 80, false);
}

/// Every page of 4 KiB is hashed, the last one as far as it goes, and the
/// hashes stand in the order of the pages.
pub proof fn law_every_page_is_hashed(data: Seq<u8>)
    ensures
        ({
            let hashes = digest::all_page_digests(data);
            &&& hashes.len() == thin::page_count(data.len() as int) * 32
            &&& forall|k: int|
                0 <= k < thin::page_count(data.len() as int) ==> hashes.subrange(
                    k * 32,
                    k * 32 + 32,
                ) == digest::sha256(#[trigger] report::page_of(data, 4096, k))@
        }),
{
    let count = thin::page_count(data.len() as int) as nat;
    digest::lemma_page_digests_len(data, 4096, count);
    assert forall|k: int| 0 <= k < count implies digest::all_page_digests(data).subrange(
        k * 32,
        k * 32 + 32,
    ) == digest::sha256(#[trigger] report::page_of(data, 4096, k))@ by {
        digest::lemma_page_digest_at(data, 4096, count, k);
        assert(digest::page(data, 4096, k) == report::page_of(data, 4096, k));
    }
}

/// A signature is serialized from exactly as many hashes as there are pages.
pub proof fn law_hashes_are_counted(l: LayoutView, page_hashes: Seq<u8>)
    ensures
        l.built(page_hashes) is Ok == (page_hashes.len() == l.n_code_slots * 32),
{
}

} // verus!
