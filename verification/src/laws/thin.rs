//! When a thin binary can be signed, and what it becomes, told from its bytes.

use crate::blob;
use crate::bytes;
use crate::error::ErrorView;
use crate::laws::{reparse, signing};
use crate::layout;
use crate::layout::LayoutView;
use crate::macho;
use crate::macho::{LinkeditCmd, LoadInfo};
use crate::options::{EntitlementsView, OptionsView};
use crate::sign;
use vstd::prelude::*;
use vstd::utf8::*;

verus! {

/// The entitlements that a signature embeds: none, those that the binary has,
/// or the given ones.
pub open spec fn embedded(data: Seq<u8>, options: OptionsView) -> Option<Seq<u8>> {
    match options.entitlements {
        EntitlementsView::Omit => None,
        EntitlementsView::Preserve => blob::entitlements_of(data),
        EntitlementsView::Custom(plist) => Some(plist),
    }
}

/// How many special slots a signature has.
pub open spec fn special_slots(entitlements: Option<Seq<u8>>) -> int {
    if entitlements is Some {
        5
    } else {
        2
    }
}

/// The size of the index of a signature and what comes before it.
pub open spec fn index_size(entitlements: Option<Seq<u8>>) -> int {
    if entitlements is Some {
        44
    } else {
        36
    }
}

/// Where the hashes of the pages stand in a CodeDirectory.
pub open spec fn hash_offset(name: Seq<u8>, entitlements: Option<Seq<u8>>) -> int {
    88 + name.len() + 1 + special_slots(entitlements) * 32
}

/// The number of pages of 4 KiB, the last of which may be shorter.
pub open spec fn page_count(limit: int) -> int {
    (limit + 4095) / 4096
}

/// The size of a CodeDirectory.
pub open spec fn directory_size(
    name: Seq<u8>,
    entitlements: Option<Seq<u8>>,
    limit: int,
) -> int {
    hash_offset(name, entitlements) + page_count(limit) * 32
}

/// The size of the blob that holds entitlements.
pub open spec fn entitlements_size(entitlements: Option<Seq<u8>>) -> int {
    match entitlements {
        Some(plist) => 8 + plist.len() as int,
        None => 0,
    }
}

/// The size of all blobs of a signature.
pub open spec fn content_size(name: Seq<u8>, entitlements: Option<Seq<u8>>, limit: int) -> int {
    index_size(entitlements) + directory_size(name, entitlements, limit) + 12 + entitlements_size(
        entitlements,
    ) + 8
}

/// The size of a signature: its blobs and 1024 bytes to spare, up to a
/// multiple of 16 bytes.
pub open spec fn signature_size(name: Seq<u8>, entitlements: Option<Seq<u8>>, limit: int) -> int {
    (content_size(name, entitlements, limit) + 1024 + 15) / 16 * 16
}

/// Whether a new signature goes to `limit`: where the old one is, or else
/// behind `__LINKEDIT`, at the next multiple of 16 bytes.
pub open spec fn goes_to(info: LoadInfo, linkedit: LinkeditCmd, limit: int) -> bool {
    match info.codesig {
        Some(codesig) => limit == codesig.data_offset,
        None => {
            let end = linkedit.fileoff + linkedit.filesize;
            limit % 16 == 0 && end <= limit < end + 16
        },
    }
}

/// Whether a binary has a command for the signature, or 16 zero bytes after
/// its commands and before its sections for one.
pub open spec fn has_command(data: Seq<u8>, info: LoadInfo) -> bool {
    let end = info.header_size + info.sizeofcmds;
    info.codesig is Some || {
        &&& end + 16 <= info.first_section_offset
        &&& end + 16 <= data.len()
        &&& forall|k: int| end <= k < end + 16 ==> #[trigger] data[k] == 0
    }
}

/// Whether the content of a binary is there, all that comes before its old
/// signature or all of `__LINKEDIT`, with the commands before the signature.
pub open spec fn has_content(
    data: Seq<u8>,
    info: LoadInfo,
    linkedit: LinkeditCmd,
    limit: int,
) -> bool {
    let end = info.header_size + info.sizeofcmds;
    match info.codesig {
        Some(_) => end <= limit <= data.len(),
        None => end + 16 <= limit && linkedit.fileoff + linkedit.filesize <= data.len(),
    }
}

/// Whether a signature of the given size can stand at `limit`, at the end of
/// `__LINKEDIT`.
pub open spec fn has_room(info: LoadInfo, linkedit: LinkeditCmd, limit: int, size: int) -> bool {
    &&& linkedit.fileoff <= limit
    &&& limit + size <= 0xffff_ffff
    &&& !info.is_64bit ==> (limit + size - linkedit.fileoff + 0x3fff) / 0x4000 * 0x4000
        <= 0xffff_ffff
}

/// Whether a thin binary can be signed with a signature at `limit`.
pub open spec fn can_be_signed(data: Seq<u8>, options: OptionsView, limit: int) -> bool {
    let name = encode_utf8(options.identifier);
    &&& macho::load_info(data) matches Ok(info)
    &&& info.linkedit matches Some(linkedit)
    &&& goes_to(info, linkedit, limit)
    &&& has_command(data, info)
    &&& has_content(data, info, linkedit, limit)
    &&& has_room(info, linkedit, limit, signature_size(name, embedded(data, options), limit))
}

/// A thin binary is signed exactly if its load commands can be read, it has
/// `__LINKEDIT`, a command for the signature or zeros to put one into, and
/// all of its content, and if the signature ends within 4 GiB.
pub proof fn law_what_can_be_signed_is_signed(data: Seq<u8>, options: OptionsView)
    ensures
        sign::signed_thin(data, options) is Ok == exists|limit: int| #[trigger]
            can_be_signed(data, options, limit),
{
    if let Ok(info) = macho::load_info(data) {
        macho::lemma_load_info(data, info);
        if let Some(linkedit) = info.linkedit {
            lemma_one_place(info, linkedit);
            lemma_prepared_where(data, info, linkedit, options);
            if let Ok((limit, _)) = sign::placement(info, linkedit) {
                assert(sign::signed_thin(data, options) is Ok == can_be_signed(
                    data,
                    options,
                    limit as int,
                ));
                if exists|other: int| #[trigger] can_be_signed(data, options, other) {
                    let other = choose|other: int| #[trigger] can_be_signed(data, options, other);
                    assert(other == limit);
                }
            } else if exists|other: int| #[trigger] can_be_signed(data, options, other) {
                let other = choose|other: int| #[trigger] can_be_signed(data, options, other);
                lemma_size_positive(
                    encode_utf8(options.identifier),
                    embedded(data, options),
                    other,
                );
            }
        } else {
            reveal(sign::prepared);
        }
    }
}

/// A signature takes some bytes.
proof fn lemma_size_positive(name: Seq<u8>, entitlements: Option<Seq<u8>>, limit: int)
    requires
        limit >= 0,
    ensures
        signature_size(name, entitlements, limit) >= 0,
{
}

/// There is one place for a new signature.
proof fn lemma_one_place(info: LoadInfo, linkedit: LinkeditCmd)
    ensures
        match sign::placement(info, linkedit) {
            Ok((limit, min_input)) => {
                &&& goes_to(info, linkedit, limit as int)
                &&& forall|other: int| #[trigger]
                    goes_to(info, linkedit, other) ==> other == limit
                &&& min_input == match info.codesig {
                    Some(codesig) => codesig.data_offset as int,
                    None => linkedit.fileoff + linkedit.filesize,
                }
            },
            Err(_) => forall|other: int| #[trigger]
                goes_to(info, linkedit, other) ==> other > 0xffff_ffff,
        },
{
    if info.codesig is None {
        bytes::lemma_round_up(linkedit.fileoff + linkedit.filesize, 16);
    }
}

/// What can be prepared for a signature at its place.
#[verifier::rlimit(30)]
proof fn lemma_prepared_where(
    data: Seq<u8>,
    info: LoadInfo,
    linkedit: LinkeditCmd,
    options: OptionsView,
)
    requires
        info.wf(),
        info.linkedit == Some(linkedit),
        info.commands_end() <= data.len(),
    ensures
        ({
            let name = encode_utf8(options.identifier);
            let entitlements = embedded(data, options);
            let prepared = sign::prepared(
                data,
                info,
                options.identifier,
                options.hardened_runtime,
                options.linker_signed,
                sign::resolved(data, options.entitlements),
            );
            match sign::placement(info, linkedit) {
                Ok((limit, min_input)) => {
                    let size = signature_size(name, entitlements, limit as int);
                    &&& prepared is Ok == (has_command(data, info) && info.prefix_len() <= limit
                        && has_room(info, linkedit, limit as int, size))
                    &&& prepared matches Ok(p) ==> {
                        &&& p.min_input == min_input
                        &&& p.layout.code_limit == limit
                        &&& p.layout.allocated_size == size
                    }
                },
                Err(_) => prepared is Err,
            }
        }),
{
    reveal(sign::prepared);
    reveal(layout::layout_of);
}

/// Where the command for the signature stands in a signed binary.
pub open spec fn command_place(info: LoadInfo) -> int {
    match info.codesig {
        Some(codesig) => codesig.cmd_offset as int,
        None => info.header_size + info.sizeofcmds,
    }
}

/// Whether signing may change the byte at `i`: the place and the size of the
/// signature in the command for it, the two sizes of `__LINKEDIT`, and where
/// there was no command for the signature, all of it and the counts of
/// commands and their bytes.
pub open spec fn may_change(info: LoadInfo, linkedit: LinkeditCmd, i: int) -> bool {
    let command = command_place(info);
    let segment = linkedit.cmd_offset as int;
    ||| command + 8 <= i < command + 16
    ||| info.is_64bit && (segment + 32 <= i < segment + 40 || segment + 48 <= i < segment + 56)
    ||| !info.is_64bit && (segment + 28 <= i < segment + 32 || segment + 36 <= i < segment + 40)
    ||| info.codesig is None && (16 <= i < 24 || command <= i < command + 16)
}

/// What the load commands of a signed binary say of its signature, which ends
/// the file, and of `__LINKEDIT`, which ends with it.
pub open spec fn commands_name(
    out: Seq<u8>,
    info: LoadInfo,
    linkedit: LinkeditCmd,
    limit: int,
) -> bool {
    let le = info.little_endian;
    let command = command_place(info);
    let segment = linkedit.cmd_offset as int;
    let filesize = out.len() - linkedit.fileoff;
    let vmsize = (filesize + 0x3fff) / 0x4000 * 0x4000;
    &&& bytes::u32_at(out, command, le) == 0x1d
    &&& bytes::u32_at(out, command + 8, le) == limit
    &&& bytes::u32_at(out, command + 12, le) == out.len() - limit
    &&& info.is_64bit ==> bytes::u64_at(out, segment + 48, le) == filesize && bytes::u64_at(
        out,
        segment + 32,
        le,
    ) == vmsize
    &&& !info.is_64bit ==> bytes::u32_at(out, segment + 36, le) == filesize && bytes::u32_at(
        out,
        segment + 28,
        le,
    ) == vmsize
    &&& info.codesig is None ==> {
        &&& bytes::u32_at(out, command + 4, le) == 16
        &&& bytes::u32_at(out, 16, le) == info.ncmds + 1
        &&& bytes::u32_at(out, 20, le) == info.sizeofcmds + 16
    }
}

/// A signed binary has the content of the binary that it was, but for what its
/// load commands say of the signature and of `__LINKEDIT`, then zeros, and the
/// signature from `limit` on.
pub proof fn law_signed_binary_has_the_content(
    data: Seq<u8>,
    options: OptionsView,
    out: Seq<u8>,
    limit: int,
)
    requires
        sign::signed_thin(data, options) == Ok::<Seq<u8>, ErrorView>(out),
        can_be_signed(data, options, limit),
    ensures
        ({
            let info = signing::record(data);
            let linkedit = info.linkedit->0;
            let name = encode_utf8(options.identifier);
            &&& out.len() == limit + signature_size(name, embedded(data, options), limit)
            &&& commands_name(out, info, linkedit, limit)
            &&& forall|i: int|
                0 <= i < limit && i < data.len() && !may_change(info, linkedit, i)
                    ==> #[trigger] out[i] == data[i]
            &&& forall|i: int| data.len() <= i < limit ==> #[trigger] out[i] == 0
        }),
{
    let info = signing::record(data);
    let linkedit = info.linkedit->0;
    let p = signing::plan(data, options);
    let l = p.layout;
    signing::lemma_parts(data, options, out);
    lemma_limit(data, options, out, limit);
    lemma_commands_name(data, out, p.prefix, info, linkedit, l);
    lemma_content_kept(data, out, p.prefix, info, linkedit, l);
}

/// The place and the size of the signature.
pub proof fn lemma_limit(data: Seq<u8>, options: OptionsView, out: Seq<u8>, limit: int)
    requires
        sign::signed_thin(data, options) == Ok::<Seq<u8>, ErrorView>(out),
        can_be_signed(data, options, limit),
    ensures
        ({
            let l = signing::plan(data, options).layout;
            let name = encode_utf8(options.identifier);
            &&& l.code_limit == limit
            &&& l.allocated_size == signature_size(name, embedded(data, options), limit)
        }),
{
    let info = signing::record(data);
    macho::lemma_load_info(data, info);
    lemma_one_place(info, info.linkedit->0);
    lemma_prepared_where(data, info, info.linkedit->0, options);
}

/// The fields that were rewritten.
proof fn lemma_commands_name(
    data: Seq<u8>,
    out: Seq<u8>,
    prefix: Seq<u8>,
    info: LoadInfo,
    linkedit: LinkeditCmd,
    l: LayoutView,
)
    requires
        info.wf(),
        info.linkedit == Some(linkedit),
        l.wf(),
        linkedit.fileoff <= l.code_limit,
        info.prefix_len() <= l.code_limit,
        info.prefix_len() <= data.len(),
        reparse::rewritten(data, prefix, info, l),
        out.len() == l.file_size(),
        forall|i: int|
            0 <= i < l.code_limit && i < data.len() ==> #[trigger] out[i] == prefix[i],
    ensures
        commands_name(out, info, linkedit, l.code_limit as int),
{
    let le = info.little_endian;
    let change = reparse::change_of(info, l);
    let cs = change.codesig;
    let at = change.linkedit;
    bytes::lemma_u32_same(out, cs, prefix, cs, le);
    bytes::lemma_u32_same(out, cs + 4, prefix, cs + 4, le);
    bytes::lemma_u32_same(out, cs + 8, prefix, cs + 8, le);
    bytes::lemma_u32_same(out, cs + 12, prefix, cs + 12, le);
    bytes::lemma_u32_same(out, 16, prefix, 16, le);
    bytes::lemma_u32_same(out, 20, prefix, 20, le);
    if info.is_64bit {
        bytes::lemma_u64_same(out, at + 32, prefix, at + 32, le);
        bytes::lemma_u64_same(out, at + 48, prefix, at + 48, le);
    } else {
        bytes::lemma_u32_same(out, at + 28, prefix, at + 28, le);
        bytes::lemma_u32_same(out, at + 36, prefix, at + 36, le);
    }
}

/// The bytes that were not rewritten.
proof fn lemma_content_kept(
    data: Seq<u8>,
    out: Seq<u8>,
    prefix: Seq<u8>,
    info: LoadInfo,
    linkedit: LinkeditCmd,
    l: LayoutView,
)
    requires
        info.linkedit == Some(linkedit),
        reparse::rewritten(data, prefix, info, l),
        forall|i: int|
            0 <= i < l.code_limit && i < data.len() ==> #[trigger] out[i] == prefix[i],
    ensures
        forall|i: int|
            0 <= i < l.code_limit && i < data.len() && !may_change(info, linkedit, i)
                ==> #[trigger] out[i] == data[i],
{
    let change = reparse::change_of(info, l);
    assert forall|i: int|
        0 <= i < l.code_limit && i < data.len() && !may_change(
            info,
            linkedit,
            i,
        ) implies #[trigger] out[i] == data[i] by {
        assert(out[i] == prefix[i]);
        assert(!change.touches(i));
    }
}

/// Why a thin binary whose load commands can be read is not signed: it has no
/// `__LINKEDIT`; or it has no command for the signature and no zeros to put
/// one into; or its content is cut short; or the signature would end beyond
/// 4 GiB.
pub proof fn law_refusal_has_a_reason(
    data: Seq<u8>,
    options: OptionsView,
    info: LoadInfo,
    limit: int,
)
    requires
        macho::load_info(data) == Ok::<LoadInfo, ErrorView>(info),
        info.header_size + info.sizeofcmds + 16 <= data.len(),
        info.linkedit matches Some(linkedit) ==> goes_to(info, linkedit, limit),
    ensures
        ({
            let name = encode_utf8(options.identifier);
            let size = signature_size(name, embedded(data, options), limit);
            let end = info.header_size + info.sizeofcmds;
            match info.linkedit {
                None => sign::signed_thin(data, options) == Err::<Seq<u8>, ErrorView>(
                    ErrorView::MissingLinkedit,
                ),
                Some(linkedit) => {
                    let content = match info.codesig {
                        Some(codesig) => codesig.data_offset as int,
                        None => linkedit.fileoff + linkedit.filesize,
                    };
                    let fits = has_command(data, info) && end + 16 <= limit && has_room(
                        info,
                        linkedit,
                        limit,
                        size,
                    );
                    &&& limit <= 0xffff_ffff && !has_command(data, info) ==> sign::signed_thin(
                        data,
                        options,
                    ) == Err::<Seq<u8>, ErrorView>(ErrorView::InsufficientHeaderPadding)
                    &&& fits && data.len() < content ==> (sign::signed_thin(
                        data,
                        options,
                    ) matches Err(ErrorView::TruncatedInput { expected, got }) && expected
                        == content && got == data.len())
                    &&& content <= u64::MAX && linkedit.fileoff <= limit && end + 16 <= limit
                        && has_command(data, info) && limit + size > 0xffff_ffff
                        ==> (sign::signed_thin(data, options) matches Err(error) && error
                        is TooLarge)
                },
            }
        }),
{
    macho::lemma_load_info(data, info);
    reveal(sign::prepared);
    if let Some(linkedit) = info.linkedit {
        lemma_one_place(info, linkedit);
        lemma_prepared_where(data, info, linkedit, options);
        reveal(layout::layout_of);
    }
}

} // verus!
