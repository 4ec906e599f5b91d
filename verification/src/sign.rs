//! Ad-hoc signing in memory: thin binaries, and fat binaries slice by slice.

use crate::blob;
use crate::bytes;
use crate::digest;
use crate::digest::hash_pages;
use crate::error;
use crate::error::ErrorView;
use crate::error::SignError;
use crate::layout;
use crate::layout::Layout;
use crate::layout::LayoutView;
use crate::macho;
use crate::macho::LinkeditCmd;
use crate::macho::LoadInfo;
use crate::macho::MachOKind;
use crate::options::AdhocSignOptions;
use crate::options::Entitlements;
use crate::options::EntitlementsView;
use crate::options::OptionsView;
use crate::text;
use vstd::arithmetic::power2;
use vstd::prelude::*;
use vstd::slice::{slice_subrange, slice_to_vec};

verus! {

/// The result of preparing a binary's header for signing.
#[derive(Debug)]
pub struct Prepared {
    pub layout: Layout,
    /// The input must provide at least this many bytes of original content
    /// (the start of the old signature region, or the end of `__LINKEDIT`
    /// for unsigned binaries).
    pub min_input: u64,
}

/// A binary whose header describes its new signature, and that signature.
pub ghost struct PreparedView {
    /// The binary, or the part of it that holds the load commands.
    pub prefix: Seq<u8>,
    pub layout: LayoutView,
    pub min_input: u64,
}

/// Where the new signature of a binary starts, and how much of the binary has
/// to come before it.
///
/// A new signature replaces an old one at the same offset. An unsigned binary
/// gets its signature at the end of `__LINKEDIT`, aligned to 16 bytes.
pub open spec fn placement(info: LoadInfo, linkedit: LinkeditCmd) -> Result<(u64, u64), ErrorView> {
    match info.codesig {
        Some(codesig) => Ok((codesig.data_offset as u64, codesig.data_offset as u64)),
        None => {
            let end = linkedit.fileoff + linkedit.filesize;
            if end > u64::MAX {
                Err(ErrorView::Malformed("__LINKEDIT segment overflows"@))
            } else if bytes::round_up(end, 16) > u32::MAX {
                Err(ErrorView::TooLarge("code signature would start beyond the 4 GiB limit"@))
            } else {
                Ok((bytes::round_up(end, 16) as u64, end as u64))
            }
        },
    }
}

/// `prefix` with room for the signature's load command, and the offset of
/// that command.
pub open spec fn with_command(prefix: Seq<u8>, info: LoadInfo, code_limit: u64) -> Result<
    (Seq<u8>, int),
    ErrorView,
> {
    match info.codesig {
        Some(codesig) => Ok((prefix, codesig.cmd_offset as int)),
        None => match macho::inserted(prefix, info, code_limit as u32) {
            Ok(prefix) => Ok((prefix, info.commands_end())),
            Err(error) => Err(error),
        },
    }
}

/// `prefix` with the sizes of `__LINKEDIT` filled in.
pub open spec fn with_linkedit_sizes(
    prefix: Seq<u8>,
    info: LoadInfo,
    linkedit: LinkeditCmd,
    filesize: u64,
    vmsize: u64,
) -> Seq<u8> {
    let le = info.little_endian;
    if info.is_64bit {
        bytes::put64(
            bytes::put64(prefix, linkedit.cmd_offset + 32, vmsize, le),
            linkedit.cmd_offset + 48,
            filesize,
            le,
        )
    } else {
        bytes::put32(
            bytes::put32(prefix, linkedit.cmd_offset + 28, vmsize as u32, le),
            linkedit.cmd_offset + 36,
            filesize as u32,
            le,
        )
    }
}

/// `prefix` with the place of the signature and the sizes of `__LINKEDIT`
/// filled in.
pub open spec fn patched(
    prefix: Seq<u8>,
    cmd_offset: int,
    info: LoadInfo,
    linkedit: LinkeditCmd,
    layout: LayoutView,
    filesize: u64,
    vmsize: u64,
) -> Seq<u8> {
    let le = info.little_endian;
    with_linkedit_sizes(
        bytes::put32(
            bytes::put32(prefix, cmd_offset + 8, layout.code_limit as u32, le),
            cmd_offset + 12,
            layout.allocated_size as u32,
            le,
        ),
        info,
        linkedit,
        filesize,
        vmsize,
    )
}

/// What preparing a binary for signing gives.
#[verifier::opaque]
pub open spec fn prepared(
    prefix: Seq<u8>,
    info: LoadInfo,
    identifier: Seq<char>,
    hardened_runtime: bool,
    linker_signed: bool,
    entitlements: Option<Seq<u8>>,
) -> Result<PreparedView, ErrorView> {
    match info.linkedit {
        None => Err(ErrorView::MissingLinkedit),
        Some(linkedit) => match placement(info, linkedit) {
            Err(error) => Err(error),
            Ok((code_limit, min_input)) => match with_command(prefix, info, code_limit) {
                Err(error) => Err(error),
                Ok((commanded, cmd_offset)) => if code_limit < info.prefix_len() {
                    Err(
                        ErrorView::Malformed(
                            "code signature region overlaps the load commands"@,
                        ),
                    )
                } else if linkedit.fileoff > code_limit {
                    Err(
                        ErrorView::Malformed(
                            "__LINKEDIT segment starts after the code signature"@,
                        ),
                    )
                } else {
                    match layout::layout_of(
                        info,
                        code_limit,
                        identifier,
                        hardened_runtime,
                        linker_signed,
                        entitlements,
                    ) {
                        Err(error) => Err(error),
                        Ok(layout) => match layout::linkedit_sizes_of(layout, linkedit.fileoff) {
                            Err(error) => Err(error),
                            Ok((filesize, vmsize)) => if !info.is_64bit && vmsize > u32::MAX {
                                Err(
                                    ErrorView::TooLarge(
                                        "__LINKEDIT vmsize exceeds 4 GiB in a 32-bit binary"@,
                                    ),
                                )
                            } else {
                                Ok(
                                    PreparedView {
                                        prefix: patched(
                                            commanded,
                                            cmd_offset,
                                            info,
                                            linkedit,
                                            layout,
                                            filesize,
                                            vmsize,
                                        ),
                                        layout,
                                        min_input,
                                    },
                                )
                            },
                        },
                    }
                },
            },
        },
    }
}

/// Fill in the place of the signature and the sizes of `__LINKEDIT`.
fn patch(
    prefix: &mut Vec<u8>,
    cmd_offset: usize,
    info: &LoadInfo,
    linkedit: &LinkeditCmd,
    layout: &Layout,
    filesize: u64,
    vmsize: u64,
) -> (done: Result<(), SignError>)
    requires
        info.wf(),
        info.linkedit == Some(*linkedit),
        info.commands_end() <= old(prefix).len(),
        cmd_offset + 16 <= old(prefix).len(),
    ensures
        done is Ok,
        final(prefix)@ == patched(
            old(prefix)@,
            cmd_offset as int,
            *info,
            *linkedit,
            layout@,
            filesize,
            vmsize,
        ),
        final(prefix)@.len() == old(prefix)@.len(),
{
    let le = info.little_endian;
    // Patch LC_CODE_SIGNATURE dataoff/datasize.
    macho::write_u32(prefix, cmd_offset + 8, layout.code_limit as u32, le)?;
    macho::write_u32(prefix, cmd_offset + 12, layout.allocated_size as u32, le)?;

    // Patch __LINKEDIT filesize and vmsize so the file ends exactly at the
    // end of the signature (a kernel requirement).
    if info.is_64bit {
        macho::write_u64(prefix, linkedit.cmd_offset + 32, vmsize, le)?;
        macho::write_u64(prefix, linkedit.cmd_offset + 48, filesize, le)?;
    } else {
        macho::write_u32(prefix, linkedit.cmd_offset + 28, vmsize as u32, le)?;
        macho::write_u32(prefix, linkedit.cmd_offset + 36, filesize as u32, le)?;
    }
    Ok(())
}

/// Find the place of the new signature, and insert the command for it where
/// there is none yet. Returns the offset of that command, where the signature
/// starts, and how much of the binary has to come before it.
fn place(prefix: &mut Vec<u8>, info: &LoadInfo, linkedit: &LinkeditCmd) -> (placed: Result<
    (usize, u64, u64),
    SignError,
>)
    requires
        info.wf(),
        info.prefix_len() <= old(prefix).len(),
    ensures
        match placed {
            Ok((cmd_offset, code_limit, min_input)) => {
                &&& placement(*info, *linkedit) == Ok::<(u64, u64), ErrorView>(
                    (code_limit, min_input),
                )
                &&& with_command(old(prefix)@, *info, code_limit) == Ok::<
                    (Seq<u8>, int),
                    ErrorView,
                >((final(prefix)@, cmd_offset as int))
                &&& cmd_offset + 16 <= final(prefix)@.len()
                &&& final(prefix)@ == old(prefix)@ || info.codesig is None && final(prefix)@
                    == macho::with_codesig_cmd(old(prefix)@, *info, code_limit as u32)
            },
            Err(error) => {
                &&& match placement(*info, *linkedit) {
                    Ok((code_limit, _)) => with_command(old(prefix)@, *info, code_limit) == Err::<
                        (Seq<u8>, int),
                        ErrorView,
                    >(error@),
                    Err(expected) => error@ == expected,
                }
                &&& !(error is Io)
                &&& final(prefix)@ == old(prefix)@
            },
        },
        final(prefix)@.len() == old(prefix)@.len(),
{
    match info.codesig {
        // The binary is already signed: the new signature replaces the old
        // one at the same offset.
        Some(codesig) => Ok(
            (codesig.cmd_offset, codesig.data_offset as u64, codesig.data_offset as u64),
        ),
        // The binary is unsigned: append a signature at the end of
        // __LINKEDIT, aligned to 16 bytes like Apple's codesign_allocate.
        None => {
            let linkedit_end = match linkedit.fileoff.checked_add(linkedit.filesize) {
                None => return Err(error::malformed("__LINKEDIT segment overflows")),
                Some(end) => end,
            };
            if linkedit_end > 0xffff_fff0 {
                return Err(
                    error::too_large("code signature would start beyond the 4 GiB limit"),
                );
            }
            let code_limit: u64 = (linkedit_end + 15) / 16 * 16;
            let cmd_offset = macho::insert_codesig_cmd(prefix, info, code_limit as u32)?;
            Ok((cmd_offset, code_limit, linkedit_end))
        },
    }
}

/// Patch the header + load commands in `prefix` so they describe the new
/// signature, and compute the signature layout.
///
/// `prefix` must be at least [`LoadInfo::required_prefix_len`] bytes long.
/// Where an error is returned, the command for the signature may have been
/// inserted already.
///
/// `__LINKEDIT` is required to hold the code signature: a binary that is
/// signed already is refused where `__LINKEDIT` starts after the place of its
/// signature.
#[verifier::spinoff_prover]
#[verifier::rlimit(50)]
pub fn prepare(
    prefix: &mut Vec<u8>,
    info: &LoadInfo,
    identifier: &str,
    hardened_runtime: bool,
    linker_signed: bool,
    entitlements: Option<Vec<u8>>,
) -> (prepared: Result<Prepared, SignError>)
    requires
        info.wf(),
        info.prefix_len() <= old(prefix).len(),
    ensures
        match prepared {
            Ok(done) => {
                &&& self::prepared(
                    old(prefix)@,
                    *info,
                    identifier@,
                    hardened_runtime,
                    linker_signed,
                    layout::optional_bytes(entitlements),
                ) == Ok::<PreparedView, ErrorView>(
                    PreparedView {
                        prefix: final(prefix)@,
                        layout: done.layout@,
                        min_input: done.min_input,
                    },
                )
                &&& done.layout@.wf()
            },
            Err(error) => {
                &&& self::prepared(
                    old(prefix)@,
                    *info,
                    identifier@,
                    hardened_runtime,
                    linker_signed,
                    layout::optional_bytes(entitlements),
                ) == Err::<PreparedView, ErrorView>(error@)
                &&& !(error is Io)
                &&& final(prefix)@ == old(prefix)@ || info.codesig is None && exists|
                    code_limit: u32,
                |
                    final(prefix)@ == #[trigger] macho::with_codesig_cmd(
                        old(prefix)@,
                        *info,
                        code_limit,
                    )
            },
        },
        final(prefix)@.len() == old(prefix)@.len(),
{
    proof {
        reveal(self::prepared);
    }
    let linkedit = match info.linkedit {
        None => return Err(SignError::MissingLinkedit),
        Some(linkedit) => linkedit,
    };
    let (cmd_offset, code_limit, min_input) = place(prefix, info, &linkedit)?;
    if code_limit < info.required_prefix_len() as u64 {
        return Err(error::malformed("code signature region overlaps the load commands"));
    }
    if linkedit.fileoff > code_limit {
        return Err(error::malformed("__LINKEDIT segment starts after the code signature"));
    }
    let layout = Layout::compute(
        info,
        code_limit,
        identifier,
        hardened_runtime,
        linker_signed,
        entitlements,
    )?;
    let (filesize, vmsize) = layout.linkedit_sizes(linkedit.fileoff)?;
    if !info.is_64bit && vmsize > u32::MAX as u64 {
        return Err(error::too_large("__LINKEDIT vmsize exceeds 4 GiB in a 32-bit binary"));
    }
    patch(prefix, cmd_offset, info, &linkedit, &layout, filesize, vmsize)?;
    Ok(Prepared { layout, min_input })
}

/// The entitlements that the new signature of `data` embeds.
pub open spec fn resolved(data: Seq<u8>, entitlements: EntitlementsView) -> Option<Seq<u8>> {
    match entitlements {
        EntitlementsView::Omit => None,
        EntitlementsView::Preserve => blob::entitlements_of(data),
        EntitlementsView::Custom(custom) => Some(custom),
    }
}

/// The signed binary that a prepared one becomes: the code, cut or filled up
/// with zeros to where the signature starts, and the signature.
pub open spec fn completed(prepared: PreparedView) -> Seq<u8> {
    let code = bytes::resized(prepared.prefix, prepared.layout.code_limit as nat);
    code + prepared.layout.region(digest::all_page_digests(code))
}

/// What signing a thin binary gives.
pub open spec fn signed_thin(data: Seq<u8>, options: OptionsView) -> Result<Seq<u8>, ErrorView> {
    match macho::load_info(data) {
        Err(error) => Err(error),
        Ok(info) => if data.len() < info.prefix_len() {
            Err(ErrorView::Malformed("binary ends within its load command area"@))
        } else {
            match prepared(
                data,
                info,
                options.identifier,
                options.hardened_runtime,
                options.linker_signed,
                resolved(data, options.entitlements),
            ) {
                Err(error) => Err(error),
                Ok(prepared) => if data.len() < prepared.min_input {
                    Err(
                        ErrorView::TruncatedInput {
                            expected: prepared.min_input,
                            got: data.len() as u64,
                        },
                    )
                } else {
                    Ok(completed(prepared))
                },
            }
        },
    }
}

/// Whether a byte vector or an error is what is expected.
pub open spec fn is_signed(
    result: Result<Vec<u8>, SignError>,
    expected: Result<Seq<u8>, ErrorView>,
) -> bool {
    match result {
        Ok(data) => expected == Ok::<Seq<u8>, ErrorView>(data@),
        Err(error) => expected == Err::<Seq<u8>, ErrorView>(error@) && !(error is Io),
    }
}

/// Sign a thin Mach-O binary in memory.
pub fn sign_thin(data: Vec<u8>, options: &AdhocSignOptions<'_>) -> (signed: Result<
    Vec<u8>,
    SignError,
>)
    ensures
        is_signed(signed, signed_thin(data@, options@)),
{
    let mut data = data;
    let ghost input = data@;
    // Resolve entitlements while the old signature is still present.
    let entitlements = match &options.entitlements {
        Entitlements::Omit => None,
        Entitlements::Custom(custom) => Some(slice_to_vec(custom)),
        Entitlements::Preserve => blob::extract_entitlements(data.as_slice()),
    };
    assert(layout::optional_bytes(entitlements) == resolved(input, options@.entitlements));
    let info = macho::parse_load_info(data.as_slice())?;
    let required = info.required_prefix_len();
    if data.len() < required {
        return Err(error::malformed("binary ends within its load command area"));
    }
    let prepared = prepare(
        &mut data,
        &info,
        options.identifier,
        options.hardened_runtime,
        options.linker_signed,
        entitlements,
    )?;
    if (data.len() as u64) < prepared.min_input {
        return Err(
            SignError::TruncatedInput { expected: prepared.min_input, got: data.len() as u64 },
        );
    }
    let layout = prepared.layout;
    let ghost prefix = data@;
    // Drop the old signature / zero-pad up to the aligned code limit.
    data.resize(layout.code_limit as usize, 0);
    assert(data@ =~= bytes::resized(prefix, layout.code_limit as nat));
    let page_hashes = hash_pages(data.as_slice());
    proof {
        digest::lemma_page_digests_len(
            data@,
            crate::constants::CS_PAGE_SIZE as int,
            layout.n_code_slots as nat,
        );
    }
    assert(layout@.built(page_hashes@) is Ok);
    let blob = layout.build_blob(page_hashes.as_slice())?;
    let ghost code = data@;
    data.extend_from_slice(blob.as_slice());
    assert(data@ =~= code + blob@);
    assert(data@ == completed(
        PreparedView { prefix, layout: layout@, min_input: prepared.min_input },
    ));
    Ok(data)
}

/// Maximum number of architecture slices we accept in a fat binary.
pub const MAX_FAT_ARCHES: usize = 128;

/// The entry for an architecture slice in the header of a fat binary.
#[derive(Debug, Clone, Copy)]
pub struct FatArch {
    pub cputype: u32,
    pub cpusubtype: u32,
    pub offset: u32,
    pub size: u32,
    pub align: u32,
}

/// The entry for the slice with the given number, or what is wrong with it.
pub open spec fn fat_arch(data: Seq<u8>, i: int) -> Result<FatArch, ErrorView> {
    let base = 8 + i * 20;
    let arch = FatArch {
        cputype: bytes::u32_at(data, base, false),
        cpusubtype: bytes::u32_at(data, base + 4, false),
        offset: bytes::u32_at(data, base + 8, false),
        size: bytes::u32_at(data, base + 12, false),
        align: bytes::u32_at(data, base + 16, false),
    };
    if base + 4 > data.len() {
        Err(macho::oob_error("fat cputype"@))
    } else if base + 8 > data.len() {
        Err(macho::oob_error("fat cpusubtype"@))
    } else if base + 12 > data.len() {
        Err(macho::oob_error("fat slice offset"@))
    } else if base + 16 > data.len() {
        Err(macho::oob_error("fat slice size"@))
    } else if base + 20 > data.len() {
        Err(macho::oob_error("fat slice alignment"@))
    } else if arch.align > 30 {
        Err(
            ErrorView::Malformed(
                "fat slice "@ + text::decimal(i as nat) + " has invalid alignment 2^"@
                    + text::decimal(arch.align as nat),
            ),
        )
    } else if arch.offset + arch.size > data.len() {
        Err(
            ErrorView::Malformed(
                "fat slice "@ + text::decimal(i as nat) + " extends past the end of the file"@,
            ),
        )
    } else {
        Ok(arch)
    }
}

/// `before` followed by the entries for the slices from `i` to `count`.
pub open spec fn fat_arches(data: Seq<u8>, i: nat, count: nat, before: Seq<FatArch>) -> Result<
    Seq<FatArch>,
    ErrorView,
>
    decreases count - i,
{
    if i >= count {
        Ok(before)
    } else {
        match fat_arch(data, i as int) {
            Err(error) => Err(error),
            Ok(arch) => fat_arches(data, i + 1, count, before.push(arch)),
        }
    }
}

/// The bytes of an architecture slice.
pub open spec fn fat_slice(data: Seq<u8>, arch: FatArch) -> Seq<u8> {
    data.subrange(arch.offset as int, arch.offset + arch.size)
}

/// `before` followed by what signing the slices from `i` on gives.
pub open spec fn signed_slices(
    data: Seq<u8>,
    arches: Seq<FatArch>,
    i: nat,
    options: OptionsView,
    before: Seq<Seq<u8>>,
) -> Result<Seq<Seq<u8>>, ErrorView>
    decreases arches.len() - i,
{
    if i >= arches.len() {
        Ok(before)
    } else {
        match signed_thin(fat_slice(data, arches[i as int]), options) {
            Err(error) => Err(error),
            Ok(signed) => signed_slices(data, arches, i + 1, options, before.push(signed)),
        }
    }
}

/// `before` followed by the offsets of the signed slices from `i` on, each
/// aligned as its entry asks and none before `cursor`.
pub open spec fn slice_offsets(
    arches: Seq<FatArch>,
    signed: Seq<Seq<u8>>,
    i: nat,
    cursor: int,
    before: Seq<u64>,
) -> Result<Seq<u64>, ErrorView>
    decreases arches.len() - i,
{
    if i >= arches.len() {
        Ok(before)
    } else {
        let offset = bytes::round_up(cursor, power2::pow2(arches[i as int].align as nat) as int);
        let end = offset + signed[i as int].len();
        if end > u32::MAX {
            Err(
                ErrorView::TooLarge("signed fat binary exceeds the 4 GiB fat container limit"@),
            )
        } else {
            slice_offsets(arches, signed, i + 1, end, before.push(offset as u64))
        }
    }
}

/// The header entry of a signed slice.
pub open spec fn fat_entry(arch: FatArch, signed: Seq<u8>, offset: u64) -> Seq<u8> {
    layout::be(arch.cputype as int) + layout::be(arch.cpusubtype as int) + layout::be(
        offset as int,
    ) + layout::be(signed.len() as int) + layout::be(arch.align as int)
}

/// The header of a fat binary with its first `count` entries.
pub open spec fn fat_header(
    arches: Seq<FatArch>,
    signed: Seq<Seq<u8>>,
    offsets: Seq<u64>,
    count: nat,
) -> Seq<u8>
    decreases count,
{
    if count == 0 {
        layout::be(macho::FAT_MAGIC as int) + layout::be(arches.len() as int)
    } else {
        fat_header(arches, signed, offsets, (count - 1) as nat) + fat_entry(
            arches[count - 1],
            signed[count - 1],
            offsets[count - 1],
        )
    }
}

/// A fat binary with its first `count` slices, each at its offset and with
/// zeros before it.
pub open spec fn fat_container(
    arches: Seq<FatArch>,
    signed: Seq<Seq<u8>>,
    offsets: Seq<u64>,
    count: nat,
) -> Seq<u8>
    decreases count,
{
    if count == 0 {
        fat_header(arches, signed, offsets, arches.len())
    } else {
        bytes::resized(
            fat_container(arches, signed, offsets, (count - 1) as nat),
            offsets[count - 1] as nat,
        ) + signed[count - 1]
    }
}

/// The slices of a fat binary, or what is wrong with its header.
pub open spec fn fat_layout(data: Seq<u8>) -> Result<Seq<FatArch>, ErrorView> {
    let count = bytes::u32_at(data, 4, false);
    if data.len() < 8 {
        Err(macho::oob_error("fat arch count"@))
    } else if count == 0 || count > MAX_FAT_ARCHES {
        Err(
            ErrorView::Malformed(
                "fat binary declares "@ + text::decimal(count as nat) + " architecture slices"@,
            ),
        )
    } else {
        fat_arches(data, 0, count as nat, Seq::empty())
    }
}

/// What signing a fat binary gives.
pub open spec fn signed_fat(data: Seq<u8>, options: OptionsView) -> Result<Seq<u8>, ErrorView> {
    match fat_layout(data) {
        Err(error) => Err(error),
        Ok(arches) => match signed_slices(data, arches, 0, options, Seq::empty()) {
            Err(error) => Err(error),
            Ok(signed) => match slice_offsets(
                arches,
                signed,
                0,
                8 + arches.len() as int * 20,
                Seq::empty(),
            ) {
                Err(error) => Err(error),
                Ok(offsets) => Ok(fat_container(arches, signed, offsets, arches.len())),
            },
        },
    }
}

/// Read the entries of all slices of a fat binary.
fn read_fat_arches(data: &[u8]) -> (arches: Result<Vec<FatArch>, SignError>)
    ensures
        match arches {
            Ok(arches) => {
                &&& fat_layout(data@) == Ok::<Seq<FatArch>, ErrorView>(arches@)
                &&& 0 < arches@.len() <= MAX_FAT_ARCHES
                &&& forall|k: int|
                    0 <= k < arches@.len() ==> (#[trigger] arches@[k]).align <= 30
                        && arches@[k].offset + arches@[k].size <= data@.len()
            },
            Err(error) => fat_layout(data@) == Err::<Seq<FatArch>, ErrorView>(error@) && !(
            error is Io),
        },
{
    let n_arches = macho::read_u32(data, 4, false, "fat arch count")? as usize;
    if n_arches == 0 || n_arches > MAX_FAT_ARCHES {
        return Err(
            SignError::Malformed(
                text::with_decimal(
                    "fat binary declares ",
                    n_arches as u64,
                    " architecture slices",
                ),
            ),
        );
    }
    let mut arches: Vec<FatArch> = Vec::new();
    let mut i: usize = 0;
    while i < n_arches
        invariant
            i <= n_arches <= MAX_FAT_ARCHES,
            arches@.len() == i,
            fat_layout(data@) == fat_arches(data@, i as nat, n_arches as nat, arches@),
            forall|k: int|
                0 <= k < arches@.len() ==> (#[trigger] arches@[k]).align <= 30 && arches@[k].offset
                    + arches@[k].size <= data@.len(),
        decreases n_arches - i,
    {
        let base: usize = 8 + i * 20;
        let arch = FatArch {
            cputype: macho::read_u32(data, base, false, "fat cputype")?,
            cpusubtype: macho::read_u32(data, base + 4, false, "fat cpusubtype")?,
            offset: macho::read_u32(data, base + 8, false, "fat slice offset")?,
            size: macho::read_u32(data, base + 12, false, "fat slice size")?,
            align: macho::read_u32(data, base + 16, false, "fat slice alignment")?,
        };
        if arch.align > 30 {
            let mut message = text::with_decimal(
                "fat slice ",
                i as u64,
                " has invalid alignment 2^",
            );
            text::push_decimal(&mut message, arch.align as u64);
            return Err(SignError::Malformed(message));
        }
        if arch.offset as u64 + arch.size as u64 > data.len() as u64 {
            return Err(
                SignError::Malformed(
                    text::with_decimal("fat slice ", i as u64, " extends past the end of the file"),
                ),
            );
        }
        arches.push(arch);
        i += 1;
    }
    Ok(arches)
}

/// The bytes of each vector.
pub open spec fn all_bytes(vectors: Seq<Vec<u8>>) -> Seq<Seq<u8>> {
    Seq::new(vectors.len(), |i: int| vectors[i]@)
}

/// Give every signed slice its offset: signing changes slice sizes.
fn place_slices(arches: &Vec<FatArch>, signed: &Vec<Vec<u8>>) -> (offsets: Result<
    Vec<u64>,
    SignError,
>)
    requires
        arches@.len() == signed@.len(),
        arches@.len() <= MAX_FAT_ARCHES,
        forall|k: int| 0 <= k < arches@.len() ==> (#[trigger] arches@[k]).align <= 30,
    ensures
        match offsets {
            Ok(offsets) => {
                &&& slice_offsets(
                    arches@,
                    all_bytes(signed@),
                    0,
                    8 + arches@.len() as int * 20,
                    Seq::empty(),
                ) == Ok::<Seq<u64>, ErrorView>(offsets@)
                &&& offsets@.len() == arches@.len()
                &&& forall|k: int|
                    0 <= k < offsets@.len() ==> #[trigger] offsets@[k] + signed@[k]@.len()
                        <= u32::MAX
            },
            Err(error) => slice_offsets(
                arches@,
                all_bytes(signed@),
                0,
                8 + arches@.len() as int * 20,
                Seq::empty(),
            ) == Err::<Seq<u64>, ErrorView>(error@) && !(error is Io),
        },
{
    let mut offsets: Vec<u64> = Vec::new();
    let mut cursor: u64 = 8 + arches.len() as u64 * 20;
    let mut i: usize = 0;
    while i < arches.len()
        invariant
            i <= arches@.len(),
            arches@.len() == signed@.len(),
            offsets@.len() == i,
            cursor <= u32::MAX,
            forall|k: int| 0 <= k < arches@.len() ==> (#[trigger] arches@[k]).align <= 30,
            forall|k: int|
                0 <= k < offsets@.len() ==> #[trigger] offsets@[k] + signed@[k]@.len() <= u32::MAX,
            slice_offsets(
                arches@,
                all_bytes(signed@),
                0,
                8 + arches@.len() as int * 20,
                Seq::empty(),
            ) == slice_offsets(
                arches@,
                all_bytes(signed@),
                i as nat,
                cursor as int,
                offsets@,
            ),
        decreases arches@.len() - i,
    {
        let offset = bytes::align_up(cursor, bytes::power_of_two(arches[i].align));
        let len = signed[i].len() as u64;
        if offset > u32::MAX as u64 || len > u32::MAX as u64 - offset {
            return Err(
                error::too_large("signed fat binary exceeds the 4 GiB fat container limit"),
            );
        }
        offsets.push(offset);
        cursor = offset + len;
        i += 1;
    }
    Ok(offsets)
}

/// Put the header and the signed slices of a fat binary together.
fn assemble(arches: &Vec<FatArch>, signed: &Vec<Vec<u8>>, offsets: &Vec<u64>) -> (out: Vec<u8>)
    requires
        arches@.len() == signed@.len(),
        arches@.len() == offsets@.len(),
        arches@.len() <= MAX_FAT_ARCHES,
        forall|k: int|
            0 <= k < offsets@.len() ==> #[trigger] offsets@[k] + signed@[k]@.len() <= u32::MAX,
    ensures
        out@ == fat_container(arches@, all_bytes(signed@), offsets@, arches@.len()),
{
    let mut out: Vec<u8> = Vec::new();
    out.extend_from_slice(&bytes::bytes_of_u32(macho::FAT_MAGIC, false));
    out.extend_from_slice(&bytes::bytes_of_u32(arches.len() as u32, false));
    let ghost all = all_bytes(signed@);
    assert(out@ =~= fat_header(arches@, all, offsets@, 0));
    let mut i: usize = 0;
    while i < arches.len()
        invariant
            i <= arches@.len(),
            arches@.len() == signed@.len(),
            arches@.len() == offsets@.len(),
            all == all_bytes(signed@),
            forall|k: int|
                0 <= k < offsets@.len() ==> #[trigger] offsets@[k] + signed@[k]@.len() <= u32::MAX,
            out@ == fat_header(arches@, all, offsets@, i as nat),
        decreases arches@.len() - i,
    {
        let arch = arches[i];
        let ghost before = out@;
        assert(offsets@[i as int] + signed@[i as int]@.len() <= u32::MAX);
        out.extend_from_slice(&bytes::bytes_of_u32(arch.cputype, false));
        out.extend_from_slice(&bytes::bytes_of_u32(arch.cpusubtype, false));
        out.extend_from_slice(&bytes::bytes_of_u32(offsets[i] as u32, false));
        out.extend_from_slice(&bytes::bytes_of_u32(signed[i].len() as u32, false));
        out.extend_from_slice(&bytes::bytes_of_u32(arch.align, false));
        assert(out@ =~= before + fat_entry(arch, all[i as int], offsets@[i as int]));
        i += 1;
    }
    let mut i: usize = 0;
    while i < signed.len()
        invariant
            i <= signed@.len(),
            arches@.len() == signed@.len(),
            arches@.len() == offsets@.len(),
            all == all_bytes(signed@),
            forall|k: int|
                0 <= k < offsets@.len() ==> #[trigger] offsets@[k] + signed@[k]@.len() <= u32::MAX,
            out@ == fat_container(arches@, all, offsets@, i as nat),
        decreases signed@.len() - i,
    {
        let ghost before = out@;
        assert(offsets@[i as int] + signed@[i as int]@.len() <= u32::MAX);
        out.resize(offsets[i] as usize, 0);
        assert(out@ =~= bytes::resized(before, offsets@[i as int] as nat));
        out.extend_from_slice(signed[i].as_slice());
        i += 1;
    }
    out
}

/// Sign every architecture slice of a fat (universal) binary and reassemble
/// the fat container with the alignment of each slice kept.
pub fn sign_fat(data: &[u8], options: &AdhocSignOptions<'_>) -> (signed: Result<Vec<u8>, SignError>)
    ensures
        is_signed(signed, signed_fat(data@, options@)),
{
    let arches = read_fat_arches(data)?;

    // Sign each slice independently. `Entitlements::Preserve` is resolved
    // per slice by `sign_thin`.
    let mut signed: Vec<Vec<u8>> = Vec::new();
    assert(all_bytes(signed@) =~= Seq::empty());
    let mut i: usize = 0;
    while i < arches.len()
        invariant
            i <= arches@.len(),
            signed@.len() == i,
            fat_layout(data@) == Ok::<Seq<FatArch>, ErrorView>(arches@),
            forall|k: int|
                0 <= k < arches@.len() ==> (#[trigger] arches@[k]).offset + arches@[k].size
                    <= data.len(),
            signed_slices(data@, arches@, 0, options@, Seq::empty()) == signed_slices(
                data@,
                arches@,
                i as nat,
                options@,
                all_bytes(signed@),
            ),
        decreases arches@.len() - i,
    {
        let arch = arches[i];
        let start = arch.offset as usize;
        let slice = slice_to_vec(slice_subrange(data, start, start + arch.size as usize));
        let ghost before = all_bytes(signed@);
        let one = sign_thin(slice, options)?;
        signed.push(one);
        assert(all_bytes(signed@) =~= before.push(one@));
        i += 1;
    }

    // Recompute slice offsets: signing changes slice sizes.
    let offsets = place_slices(&arches, &signed)?;
    Ok(assemble(&arches, &signed, &offsets))
}

/// What signing a binary in memory gives.
pub open spec fn signed(data: Seq<u8>, options: OptionsView) -> Result<Seq<u8>, ErrorView> {
    match macho::kind_of(data) {
        None => Err(ErrorView::NotMachO),
        Some(MachOKind::Fat) => signed_fat(data, options),
        Some(MachOKind::Fat64) => Err(ErrorView::Fat64Unsupported),
        Some(_) => signed_thin(data, options),
    }
}

/// Ad-hoc sign a Mach-O binary in memory.
///
/// Handles thin binaries as well as fat (universal) binaries, in which case
/// every architecture slice is signed and the fat container is reassembled.
///
/// # Example
///
/// ```no_run
/// use arwen_codesign::{adhoc_sign, AdhocSignOptions, Entitlements};
///
/// let data = std::fs::read("libfoo.dylib")?;
/// let options = AdhocSignOptions::new("libfoo.dylib")
///     .with_entitlements(Entitlements::Preserve);
/// let signed = adhoc_sign(data, &options)?;
/// std::fs::write("libfoo.dylib", signed)?;
/// # Ok::<(), arwen_codesign::SignError>(())
/// ```
pub fn adhoc_sign(data: Vec<u8>, options: &AdhocSignOptions<'_>) -> (result: Result<
    Vec<u8>,
    SignError,
>)
    ensures
        is_signed(result, signed(data@, options@)),
{
    match macho::macho_kind(data.as_slice()) {
        None => Err(SignError::NotMachO),
        Some(MachOKind::Fat) => sign_fat(data.as_slice(), options),
        Some(MachOKind::Fat64) => Err(SignError::Fat64Unsupported),
        Some(_) => sign_thin(data, options),
    }
}

} // verus!
