//! Decisions of signing a file in place.
//!
//! The program that owns the file reads what these functions ask for and
//! hands the bytes back.

use crate::error;
use crate::error::ErrorView;
use crate::error::SignError;
use crate::macho;
use crate::macho::LoadInfo;
use crate::macho::MachOKind;
use crate::options::AdhocSignOptions;
use crate::options::Entitlements;
use crate::options::EntitlementsView;
use crate::options::OptionsView;
use crate::{blob, layout};
use vstd::prelude::*;

verus! {

/// I/O buffer size for copying a file through the signer.
pub const FILE_BUFFER_SIZE: usize = 0x4_0000;

/// Sanity cap for reading an existing signature blob when preserving
/// entitlements. Real signatures are at most a few MiB.
pub const MAX_EXISTING_SIGNATURE_SIZE: u32 = 0x100_0000;

/// How a file is signed.
#[derive(Debug, Clone, Copy, PartialEq, Eq, Structural)]
pub enum FileMode {
    /// The whole file is read and signed in memory.
    InMemory,
    /// The file is copied through a streaming signer.
    Streaming,
}

/// How the file that starts with `magic` is signed.
pub open spec fn mode_of(magic: Seq<u8>) -> Result<FileMode, ErrorView> {
    match macho::kind_of(magic) {
        None => Err(ErrorView::NotMachO),
        Some(MachOKind::Fat64) => Err(ErrorView::Fat64Unsupported),
        Some(MachOKind::Fat) => Ok(FileMode::InMemory),
        Some(_) => Ok(FileMode::Streaming),
    }
}

/// Decide from the first four bytes of a file how it is signed: thin binaries
/// in a single streaming pass, fat (universal) binaries in memory.
pub fn file_mode(magic: &[u8]) -> (mode: Result<FileMode, SignError>)
    ensures
        error::agrees(mode, mode_of(magic@)),
{
    match macho::macho_kind(magic) {
        None => Err(SignError::NotMachO),
        Some(MachOKind::Fat64) => Err(SignError::Fat64Unsupported),
        Some(MachOKind::Fat) => Ok(FileMode::InMemory),
        Some(_) => Ok(FileMode::Streaming),
    }
}

/// How many bytes hold the header and the load commands of the thin binary
/// that starts with `header`, if the file has that many.
pub open spec fn wanted_prefix(header: Seq<u8>, file_len: u64) -> Option<int> {
    match macho::kind_of(header) {
        None => None,
        Some(kind) => if !kind.thin() || header.len() < kind.header_len() {
            None
        } else {
            match macho::header(header) {
                Err(_) => None,
                Ok((_, sizeofcmds)) => if kind.header_len() + sizeofcmds > file_len {
                    None
                } else {
                    Some(kind.header_len() + sizeofcmds)
                },
            }
        },
    }
}

/// Decide from the first 32 bytes of a file (or all of a shorter one) how many
/// bytes to read for its load commands. `None` where it has no entitlements
/// to read.
pub fn prefix_to_read(header: &[u8], file_len: u64) -> (len: Option<usize>)
    ensures
        match len {
            Some(len) => wanted_prefix(header@, file_len) == Some(len as int),
            None => wanted_prefix(header@, file_len) is None,
        },
{
    let kind = match macho::macho_kind(header) {
        None => return None,
        Some(kind) => kind,
    };
    if !kind.is_thin() || header.len() < kind.header_size() {
        return None;
    }
    match macho::parse_header(header) {
        Err(_) => None,
        Ok((_, sizeofcmds)) => {
            let len: usize = kind.header_size() + sizeofcmds;
            if len as u64 > file_len {
                return None;
            }
            Some(len)
        },
    }
}

/// Where the existing signature of a file lies, as far as it is worth
/// reading: offset and size.
pub open spec fn wanted_signature(prefix: Seq<u8>, file_len: u64) -> Option<(u32, u32)> {
    match macho::load_info(prefix) {
        Ok(LoadInfo { codesig: Some(codesig), .. }) => if codesig.data_size == 0
            || codesig.data_size > MAX_EXISTING_SIGNATURE_SIZE || codesig.data_offset
            + codesig.data_size > file_len {
            None
        } else {
            Some((codesig.data_offset, codesig.data_size))
        },
        _ => None,
    }
}

/// Decide from the header and the load commands of a file which part of it to
/// read for its signature. `None` where it has no entitlements to read.
pub fn signature_to_read(prefix: &[u8], file_len: u64) -> (region: Option<(u32, u32)>)
    ensures
        region == wanted_signature(prefix@, file_len),
{
    let codesig = match macho::parse_load_info(prefix) {
        Err(_) => return None,
        Ok(info) => match info.codesig {
            None => return None,
            Some(codesig) => codesig,
        },
    };
    if codesig.data_size == 0 || codesig.data_size > MAX_EXISTING_SIGNATURE_SIZE
        || codesig.data_offset as u64 + codesig.data_size as u64 > file_len {
        return None;
    }
    Some((codesig.data_offset, codesig.data_size))
}

/// The first bytes of `data`, as many as `len` or all.
pub open spec fn up_to(data: Seq<u8>, len: int) -> Seq<u8> {
    if len <= data.len() {
        data.take(len)
    } else {
        data
    }
}

/// The entitlements of a file with the content `data`, found by reading only
/// the parts of it that are asked for.
pub open spec fn entitlements_by_parts(data: Seq<u8>) -> Option<Seq<u8>> {
    let file_len = data.len() as u64;
    match wanted_prefix(up_to(data, 32), file_len) {
        None => None,
        Some(len) => match wanted_signature(data.take(len), file_len) {
            None => None,
            Some((offset, size)) => blob::entitlements_in(
                data.subrange(offset as int, offset + size),
            ),
        },
    }
}

/// The options with the preserved entitlements filled in.
pub open spec fn with_preserved(options: OptionsView, preserved: Option<Seq<u8>>) -> OptionsView {
    OptionsView {
        entitlements: match options.entitlements {
            EntitlementsView::Preserve => match preserved {
                Some(entitlements) => EntitlementsView::Custom(entitlements),
                None => EntitlementsView::Omit,
            },
            other => other,
        },
        ..options
    }
}

/// Resolve [`Entitlements::Preserve`] up front; the streaming signer cannot
/// seek back to the old signature.
pub fn resolve_options<'a>(
    options: &AdhocSignOptions<'a>,
    preserved: &'a Option<Vec<u8>>,
) -> (resolved: AdhocSignOptions<'a>)
    ensures
        resolved@ == with_preserved(options@, layout::optional_bytes(*preserved)),
        !(resolved@.entitlements is Preserve),
{
    let entitlements = match &options.entitlements {
        Entitlements::Omit => Entitlements::Omit,
        Entitlements::Custom(custom) => Entitlements::Custom(custom),
        Entitlements::Preserve => match preserved {
            Some(entitlements) => Entitlements::Custom(entitlements.as_slice()),
            None => Entitlements::Omit,
        },
    };
    AdhocSignOptions {
        identifier: options.identifier,
        hardened_runtime: options.hardened_runtime,
        entitlements,
        linker_signed: options.linker_signed,
    }
}

} // verus!
