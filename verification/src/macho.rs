//! Minimal, bounds-checked Mach-O parsing for code signing.
//!
//! This module deliberately parses only the small subset of the Mach-O format
//! that code signing needs (the header, `LC_SEGMENT{,_64}` and
//! `LC_CODE_SIGNATURE` load commands). All reads are bounds-checked so that
//! malformed or truncated input produces an error instead of a panic.

use crate::bytes;
use crate::error;
use crate::error::ErrorView;
use crate::error::SignError;
use crate::text;
use vstd::prelude::*;
use vstd::slice::slice_subrange;
use vstd::string::StringExecFns;

verus! {

pub const MH_MAGIC: u32 = 0xfeed_face;

pub const MH_MAGIC_64: u32 = 0xfeed_facf;

pub const FAT_MAGIC: u32 = 0xcafe_babe;

pub const FAT_MAGIC_64: u32 = 0xcafe_babf;

pub const LC_SEGMENT: u32 = 0x1;

pub const LC_SEGMENT_64: u32 = 0x19;

pub const LC_CODE_SIGNATURE: u32 = 0x1d;

/// `MH_EXECUTE`: the file is a main executable.
pub const MH_EXECUTE: u32 = 0x2;

/// Size of a `linkedit_data_command` (`LC_CODE_SIGNATURE`).
pub const LC_CODE_SIGNATURE_SIZE: usize = 16;

/// Upper bound on `sizeofcmds` that we are willing to buffer. Real binaries
/// have load commands in the tens of kilobytes; 16 MiB is a generous sanity
/// limit that protects the streaming signer from unbounded buffering when fed
/// garbage.
pub const MAX_SIZEOFCMDS: usize = 0x100_0000;

/// The kind of Mach-O file, as determined from the first four bytes.
#[derive(Debug, Clone, Copy, PartialEq, Eq, Structural)]
pub enum MachOKind {
    /// A thin 32-bit Mach-O binary.
    Thin32 {
        /// Whether the binary is little-endian.
        little_endian: bool,
    },
    /// A thin 64-bit Mach-O binary.
    Thin64 {
        /// Whether the binary is little-endian.
        little_endian: bool,
    },
    /// A fat (universal) binary containing multiple architecture slices.
    Fat,
    /// A fat (universal) binary with 64-bit fat headers.
    Fat64,
}

impl MachOKind {
    pub open spec fn thin(self) -> bool {
        self is Thin32 || self is Thin64
    }

    pub open spec fn header_len(self) -> int {
        match self {
            MachOKind::Thin32 { .. } => 28,
            MachOKind::Thin64 { .. } => 32,
            MachOKind::Fat => 8,
            MachOKind::Fat64 => 8,
        }
    }

    pub open spec fn is_le(self) -> bool {
        match self {
            MachOKind::Thin32 { little_endian } => little_endian,
            MachOKind::Thin64 { little_endian } => little_endian,
            MachOKind::Fat => false,
            MachOKind::Fat64 => false,
        }
    }

    /// Whether this is a thin (single-architecture) Mach-O binary.
    pub fn is_thin(&self) -> (thin: bool)
        ensures
            thin == self.thin(),
    {
        matches!(self, MachOKind::Thin32 { .. } | MachOKind::Thin64 { .. })
    }

    /// Size of the header that the magic number belongs to.
    pub fn header_size(&self) -> (size: usize)
        ensures
            size == self.header_len(),
    {
        match self {
            MachOKind::Thin32 { .. } => 28,
            MachOKind::Thin64 { .. } => 32,
            // Fat header: magic + nfat_arch
            MachOKind::Fat | MachOKind::Fat64 => 8,
        }
    }

    /// Whether the fields of the header are little-endian.
    pub fn little_endian(&self) -> (le: bool)
        ensures
            le == self.is_le(),
    {
        match self {
            MachOKind::Thin32 { little_endian } => *little_endian,
            MachOKind::Thin64 { little_endian } => *little_endian,
            // Fat headers are always big-endian.
            MachOKind::Fat | MachOKind::Fat64 => false,
        }
    }
}

/// The kind of Mach-O file that starts with `data`, if it is one.
pub open spec fn kind_of(data: Seq<u8>) -> Option<MachOKind> {
    let le = bytes::u32_at(data, 0, true);
    let be = bytes::u32_at(data, 0, false);
    if data.len() < 4 {
        None
    } else if le == MH_MAGIC_64 {
        Some(MachOKind::Thin64 { little_endian: true })
    } else if be == MH_MAGIC_64 {
        Some(MachOKind::Thin64 { little_endian: false })
    } else if le == MH_MAGIC {
        Some(MachOKind::Thin32 { little_endian: true })
    } else if be == MH_MAGIC {
        Some(MachOKind::Thin32 { little_endian: false })
    } else if be == FAT_MAGIC {
        Some(MachOKind::Fat)
    } else if be == FAT_MAGIC_64 {
        Some(MachOKind::Fat64)
    } else {
        None
    }
}

/// Classify the first bytes of a file as a Mach-O binary (or not).
///
/// Returns `None` if `bytes` is shorter than four bytes or does not start
/// with a known Mach-O magic number.
pub fn macho_kind(bytes: &[u8]) -> (kind: Option<MachOKind>)
    ensures
        kind == kind_of(bytes@),
{
    if bytes.len() < 4 {
        return None;
    }
    let le = bytes::get_u32(bytes, 0, true);
    let be = bytes::get_u32(bytes, 0, false);
    if le == MH_MAGIC_64 {
        Some(MachOKind::Thin64 { little_endian: true })
    } else if be == MH_MAGIC_64 {
        Some(MachOKind::Thin64 { little_endian: false })
    } else if le == MH_MAGIC {
        Some(MachOKind::Thin32 { little_endian: true })
    } else if be == MH_MAGIC {
        Some(MachOKind::Thin32 { little_endian: false })
    } else if be == FAT_MAGIC {
        Some(MachOKind::Fat)
    } else if be == FAT_MAGIC_64 {
        Some(MachOKind::Fat64)
    } else {
        None
    }
}

/// The error for a read past the end of the data.
pub open spec fn oob_error(what: Seq<char>) -> ErrorView {
    ErrorView::Malformed("unexpected end of data while reading "@ + what)
}

/// The error for a read past the end of the data.
pub(crate) fn oob(what: &str) -> (error: SignError)
    ensures
        error@ == oob_error(what@),
        !(error is Io),
{
    SignError::Malformed(String::from_str("unexpected end of data while reading ").concat(what))
}

/// The 32-bit integer at `offset`, or an error where the data ends before it.
pub open spec fn read32(data: Seq<u8>, offset: int, le: bool, what: Seq<char>) -> Result<
    u32,
    ErrorView,
> {
    if offset + 4 <= data.len() {
        Ok(bytes::u32_at(data, offset, le))
    } else {
        Err(oob_error(what))
    }
}

/// The 64-bit integer at `offset`, or an error where the data ends before it.
pub open spec fn read64(data: Seq<u8>, offset: int, le: bool, what: Seq<char>) -> Result<
    u64,
    ErrorView,
> {
    if offset + 8 <= data.len() {
        Ok(bytes::u64_at(data, offset, le))
    } else {
        Err(oob_error(what))
    }
}

/// Read a 32-bit integer.
pub fn read_u32(data: &[u8], offset: usize, le: bool, what: &str) -> (value: Result<u32, SignError>)
    ensures
        error::agrees(value, read32(data@, offset as int, le, what@)),
{
    if data.len() < 4 || offset > data.len() - 4 {
        return Err(oob(what));
    }
    Ok(bytes::get_u32(data, offset, le))
}

/// Read a 64-bit integer.
pub fn read_u64(data: &[u8], offset: usize, le: bool, what: &str) -> (value: Result<u64, SignError>)
    ensures
        error::agrees(value, read64(data@, offset as int, le, what@)),
{
    if data.len() < 8 || offset > data.len() - 8 {
        return Err(oob(what));
    }
    Ok(bytes::get_u64(data, offset, le))
}

/// Write a 32-bit integer.
pub fn write_u32(data: &mut Vec<u8>, offset: usize, value: u32, le: bool) -> (done: Result<
    (),
    SignError,
>)
    ensures
        offset + 4 <= old(data)@.len() ==> done is Ok && final(data)@ == bytes::put32(
            old(data)@,
            offset as int,
            value,
            le,
        ),
        offset + 4 > old(data)@.len() ==> error::agrees(done, Err(oob_error("write target"@)))
            && final(data)@ == old(data)@,
        final(data)@.len() == old(data)@.len(),
{
    if data.len() < 4 || offset > data.len() - 4 {
        return Err(oob("write target"));
    }
    bytes::set_u32(data, offset, value, le);
    Ok(())
}

/// Write a 64-bit integer.
pub fn write_u64(data: &mut Vec<u8>, offset: usize, value: u64, le: bool) -> (done: Result<
    (),
    SignError,
>)
    ensures
        offset + 8 <= old(data)@.len() ==> done is Ok && final(data)@ == bytes::put64(
            old(data)@,
            offset as int,
            value,
            le,
        ),
        offset + 8 > old(data)@.len() ==> error::agrees(done, Err(oob_error("write target"@)))
            && final(data)@ == old(data)@,
        final(data)@.len() == old(data)@.len(),
{
    if data.len() < 8 || offset > data.len() - 8 {
        return Err(oob("write target"));
    }
    bytes::set_u64(data, offset, value, le);
    Ok(())
}

/// The `LC_CODE_SIGNATURE` load command of a binary.
#[derive(Debug, Clone, Copy)]
pub struct CodeSigCmd {
    /// File offset of the load command itself.
    pub cmd_offset: usize,
    /// File offset of the signature data (`dataoff`).
    pub data_offset: u32,
    /// Size of the signature data (`datasize`).
    pub data_size: u32,
}

/// The `__LINKEDIT` segment load command of a binary.
#[derive(Debug, Clone, Copy)]
pub struct LinkeditCmd {
    /// File offset of the load command itself.
    pub cmd_offset: usize,
    /// File offset of the segment (`fileoff`).
    pub fileoff: u64,
    /// File size of the segment (`filesize`).
    pub filesize: u64,
}

/// Information extracted from the Mach-O header and load commands that is
/// needed for code signing.
#[derive(Debug, Clone, Copy)]
pub struct LoadInfo {
    pub little_endian: bool,
    pub is_64bit: bool,
    pub header_size: usize,
    pub ncmds: u32,
    pub sizeofcmds: usize,
    pub is_executable: bool,
    pub codesig: Option<CodeSigCmd>,
    pub linkedit: Option<LinkeditCmd>,
    pub text_fileoff: u64,
    pub text_filesize: u64,
    /// The smallest non-zero file offset of any section; used to determine
    /// how much zero padding is available after the load commands.
    pub first_section_offset: u64,
}

impl LoadInfo {
    /// The load commands are of a size that can be buffered, and those that
    /// are named lie among them.
    pub open spec fn wf(self) -> bool {
        &&& self.header_size == (if self.is_64bit {
            32int
        } else {
            28
        })
        &&& self.sizeofcmds <= MAX_SIZEOFCMDS
        &&& 8 * self.ncmds <= self.sizeofcmds
        &&& self.codesig matches Some(codesig) ==> {
            &&& self.header_size <= codesig.cmd_offset
            &&& codesig.cmd_offset + LC_CODE_SIGNATURE_SIZE <= self.commands_end()
        }
        &&& self.linkedit matches Some(linkedit) ==> {
            &&& self.header_size <= linkedit.cmd_offset
            &&& linkedit.cmd_offset + 56 <= self.commands_end()
        }
    }

    pub open spec fn commands_end(self) -> int {
        self.header_size + self.sizeofcmds
    }

    pub open spec fn prefix_len(self) -> int {
        if self.codesig is None {
            self.commands_end() + LC_CODE_SIGNATURE_SIZE
        } else {
            self.commands_end()
        }
    }

    /// End of the load commands region (`header + sizeofcmds`).
    pub fn load_commands_end(&self) -> (end: usize)
        requires
            self.wf(),
        ensures
            end == self.commands_end(),
    {
        self.header_size + self.sizeofcmds
    }

    /// Number of bytes of `data` that must be available (and buffered) to
    /// patch the load commands: the load commands themselves plus room for an
    /// inserted `LC_CODE_SIGNATURE` if the binary does not have one yet.
    pub fn required_prefix_len(&self) -> (len: usize)
        requires
            self.wf(),
        ensures
            len == self.prefix_len(),
    {
        if self.codesig.is_none() {
            self.load_commands_end() + LC_CODE_SIGNATURE_SIZE
        } else {
            self.load_commands_end()
        }
    }
}

/// The kind of a binary and the size of its load commands.
pub open spec fn header(data: Seq<u8>) -> Result<(MachOKind, usize), ErrorView> {
    match kind_of(data) {
        None => Err(ErrorView::NotMachO),
        Some(kind) => if !kind.thin() {
            Ok((kind, 0))
        } else if data.len() < kind.header_len() {
            Err(oob_error("Mach-O header"@))
        } else {
            let size = bytes::u32_at(data, 20, kind.is_le());
            if size > MAX_SIZEOFCMDS {
                Err(
                    ErrorView::Malformed(
                        "sizeofcmds ("@ + text::decimal(size as nat)
                            + ") exceeds the maximum supported size"@,
                    ),
                )
            } else {
                Ok((kind, size as usize))
            }
        },
    }
}

/// Parse the Mach-O header, returning `(kind, sizeofcmds)`.
///
/// `data` must contain at least the full header.
pub fn parse_header(data: &[u8]) -> (parsed: Result<(MachOKind, usize), SignError>)
    ensures
        error::agrees(parsed, header(data@)),
{
    let kind = match macho_kind(data) {
        None => return Err(SignError::NotMachO),
        Some(kind) => kind,
    };
    if !kind.is_thin() {
        return Ok((kind, 0));
    }
    let le = kind.little_endian();
    if data.len() < kind.header_size() {
        return Err(oob("Mach-O header"));
    }
    let sizeofcmds = read_u32(data, 20, le, "sizeofcmds")? as usize;
    if sizeofcmds > MAX_SIZEOFCMDS {
        return Err(
            SignError::Malformed(
                text::with_decimal(
                    "sizeofcmds (",
                    sizeofcmds as u64,
                    ") exceeds the maximum supported size",
                ),
            ),
        );
    }
    Ok((kind, sizeofcmds))
}

/// The bytes of `__LINKEDIT`.
pub open spec fn linkedit_name() -> Seq<u8> {
    seq![0x5f, 0x5f, 0x4c, 0x49, 0x4e, 0x4b, 0x45, 0x44, 0x49, 0x54]
}

/// The bytes of `__TEXT`.
pub open spec fn text_name() -> Seq<u8> {
    seq![0x5f, 0x5f, 0x54, 0x45, 0x58, 0x54]
}

/// Size of the fixed part of a segment command.
pub open spec fn segment_len(is_64bit: bool) -> int {
    if is_64bit {
        72
    } else {
        56
    }
}

/// Size of one section entry of a segment command.
pub open spec fn section_len(is_64bit: bool) -> int {
    if is_64bit {
        80
    } else {
        68
    }
}

/// Where the first section's file offset stands in a segment command.
pub open spec fn section_field(is_64bit: bool) -> int {
    if is_64bit {
        120
    } else {
        96
    }
}

/// The `fileoff` field of the segment command at `offset`.
pub open spec fn segment_fileoff(data: Seq<u8>, offset: int, is_64bit: bool, le: bool) -> u64 {
    if is_64bit {
        bytes::u64_at(data, offset + 40, le)
    } else {
        bytes::u32_at(data, offset + 32, le) as u64
    }
}

/// The `filesize` field of the segment command at `offset`.
pub open spec fn segment_filesize(data: Seq<u8>, offset: int, is_64bit: bool, le: bool) -> u64 {
    if is_64bit {
        bytes::u64_at(data, offset + 48, le)
    } else {
        bytes::u32_at(data, offset + 36, le) as u64
    }
}

/// The `nsects` field of the segment command at `offset`.
pub open spec fn segment_nsects(data: Seq<u8>, offset: int, is_64bit: bool, le: bool) -> u32 {
    if is_64bit {
        bytes::u32_at(data, offset + 64, le)
    } else {
        bytes::u32_at(data, offset + 48, le)
    }
}

/// The `segname` field of the segment command at `offset`.
pub open spec fn segment_name(data: Seq<u8>, offset: int) -> Seq<u8> {
    data.subrange(offset + 8, offset + 24)
}

/// The smallest of `least` and the non-zero ones among `count` file offsets,
/// which stand `stride` bytes apart from `at` on.
pub open spec fn least_offset(
    data: Seq<u8>,
    le: bool,
    at: int,
    stride: int,
    count: nat,
    least: u64,
) -> u64
    decreases count,
{
    if count == 0 {
        least
    } else {
        let here = bytes::u32_at(data, at, le) as u64;
        let next = if 0 < here < least {
            here
        } else {
            least
        };
        least_offset(data, le, at + stride, stride, (count - 1) as nat, next)
    }
}

/// `info` after the segment command at `offset`.
pub open spec fn after_segment(
    data: Seq<u8>,
    offset: int,
    size: int,
    is_64bit: bool,
    le: bool,
    info: LoadInfo,
) -> Result<LoadInfo, ErrorView> {
    let name = text::trim_nul(segment_name(data, offset));
    let fileoff = segment_fileoff(data, offset, is_64bit, le);
    let filesize = segment_filesize(data, offset, is_64bit, le);
    let nsects = segment_nsects(data, offset, is_64bit, le);
    if size < segment_len(is_64bit) {
        Err(ErrorView::Malformed("segment load command is too small"@))
    } else if segment_len(is_64bit) + nsects * section_len(is_64bit) > size {
        Err(
            ErrorView::Malformed(
                "segment "@ + text::padded_name(segment_name(data, offset))
                    + " declares more sections than fit in its load command"@,
            ),
        )
    } else {
        Ok(
            LoadInfo {
                linkedit: if name == linkedit_name() {
                    Some(LinkeditCmd { cmd_offset: offset as usize, fileoff, filesize })
                } else {
                    info.linkedit
                },
                text_fileoff: if name == text_name() {
                    fileoff
                } else {
                    info.text_fileoff
                },
                text_filesize: if name == text_name() {
                    filesize
                } else {
                    info.text_filesize
                },
                first_section_offset: least_offset(
                    data,
                    le,
                    offset + section_field(is_64bit),
                    section_len(is_64bit),
                    nsects as nat,
                    info.first_section_offset,
                ),
                ..info
            },
        )
    }
}

/// The size of the load command at `offset`, and `info` after it.
pub open spec fn after_command(
    data: Seq<u8>,
    le: bool,
    cmds_end: int,
    offset: int,
    info: LoadInfo,
) -> Result<(int, LoadInfo), ErrorView> {
    let cmd = bytes::u32_at(data, offset, le);
    let size = bytes::u32_at(data, offset + 4, le) as int;
    if offset + 4 > data.len() {
        Err(oob_error("load command type"@))
    } else if offset + 8 > data.len() {
        Err(oob_error("load command size"@))
    } else if size < 8 || offset + size > cmds_end {
        Err(
            ErrorView::Malformed(
                "load command at offset "@ + text::decimal(offset as nat) + " has invalid size "@
                    + text::decimal(size as nat),
            ),
        )
    } else if cmd == LC_CODE_SIGNATURE {
        if size < LC_CODE_SIGNATURE_SIZE {
            Err(ErrorView::Malformed("LC_CODE_SIGNATURE command is too small"@))
        } else {
            Ok(
                (
                    size,
                    LoadInfo {
                        codesig: Some(
                            CodeSigCmd {
                                cmd_offset: offset as usize,
                                data_offset: bytes::u32_at(data, offset + 8, le),
                                data_size: bytes::u32_at(data, offset + 12, le),
                            },
                        ),
                        ..info
                    },
                ),
            )
        }
    } else if cmd == LC_SEGMENT_64 || cmd == LC_SEGMENT {
        match after_segment(data, offset, size, cmd == LC_SEGMENT_64, le, info) {
            Ok(next) => Ok((size, next)),
            Err(error) => Err(error),
        }
    } else {
        Ok((size, info))
    }
}

/// Where `remaining` load commands from `offset` on end, and `info` after
/// them.
pub open spec fn after_commands(
    data: Seq<u8>,
    le: bool,
    cmds_end: int,
    offset: int,
    remaining: nat,
    info: LoadInfo,
) -> Result<(int, LoadInfo), ErrorView>
    decreases remaining,
{
    if remaining == 0 {
        Ok((offset, info))
    } else {
        match after_command(data, le, cmds_end, offset, info) {
            Ok((size, next)) => after_commands(
                data,
                le,
                cmds_end,
                offset + size,
                (remaining - 1) as nat,
                next,
            ),
            Err(error) => Err(error),
        }
    }
}

/// What the header alone says of a thin binary.
pub open spec fn header_info(data: Seq<u8>, kind: MachOKind, sizeofcmds: usize) -> LoadInfo {
    let le = kind.is_le();
    LoadInfo {
        little_endian: le,
        is_64bit: kind is Thin64,
        header_size: kind.header_len() as usize,
        ncmds: bytes::u32_at(data, 16, le),
        sizeofcmds,
        is_executable: bytes::u32_at(data, 12, le) == MH_EXECUTE,
        codesig: None,
        linkedit: None,
        text_fileoff: 0,
        text_filesize: 0,
        first_section_offset: u64::MAX,
    }
}

/// If no section provides a lower bound for header padding, the start of the
/// `__LINKEDIT` segment does (load commands always precede it).
pub open spec fn with_padding_bound(info: LoadInfo) -> LoadInfo {
    LoadInfo {
        first_section_offset: if info.first_section_offset != u64::MAX {
            info.first_section_offset
        } else {
            match info.linkedit {
                Some(linkedit) => linkedit.fileoff,
                None => info.commands_end() as u64,
            }
        },
        ..info
    }
}

/// Where the load commands of a thin binary end when walked one by one, and
/// what they say.
pub open spec fn walk(data: Seq<u8>) -> Result<(int, LoadInfo), ErrorView> {
    match header(data) {
        Err(error) => Err(error),
        Ok((kind, sizeofcmds)) => {
            let start = header_info(data, kind, sizeofcmds);
            if kind is Fat {
                Err(
                    ErrorView::Malformed(
                        "expected a thin Mach-O binary, found a fat binary"@,
                    ),
                )
            } else if kind is Fat64 {
                Err(ErrorView::Fat64Unsupported)
            } else if data.len() < start.commands_end() {
                Err(oob_error("load commands"@))
            } else {
                after_commands(
                    data,
                    kind.is_le(),
                    start.commands_end(),
                    kind.header_len(),
                    start.ncmds as nat,
                    start,
                )
            }
        },
    }
}

/// What the header and load commands of a thin binary say.
#[verifier::opaque]
pub open spec fn load_info(data: Seq<u8>) -> Result<LoadInfo, ErrorView> {
    match walk(data) {
        Err(error) => Err(error),
        Ok((_, info)) => Ok(with_padding_bound(info)),
    }
}

/// Whether the name field of a segment command, without its padding, is
/// `name`.
fn is_named(field: &[u8], name: &[u8]) -> (same: bool)
    ensures
        same == (text::trim_nul(field@) == name@),
{
    let len = text::trimmed_len(field);
    bytes::same_bytes(slice_subrange(field, 0, len), name)
}

/// Read a segment command and note in `info` what it says.
fn parse_segment(
    data: &[u8],
    offset: usize,
    cmdsize: usize,
    is_64bit: bool,
    le: bool,
    info: &mut LoadInfo,
) -> (done: Result<(), SignError>)
    requires
        offset + cmdsize <= data.len(),
    ensures
        match done {
            Ok(_) => after_segment(
                data@,
                offset as int,
                cmdsize as int,
                is_64bit,
                le,
                *old(info),
            ) == Ok::<LoadInfo, ErrorView>(*final(info)),
            Err(error) => {
                &&& after_segment(data@, offset as int, cmdsize as int, is_64bit, le, *old(info))
                    == Err::<LoadInfo, ErrorView>(error@)
                &&& !(error is Io)
                &&& *final(info) == *old(info)
            },
        },
{
    // segment_command{,_64} layout:
    //   cmd, cmdsize, segname[16],
    //   vmaddr, vmsize, fileoff, filesize (u32 or u64 each),
    //   maxprot, initprot, nsects, flags
    let (seg_cmd_size, sect_size): (usize, usize) = if is_64bit {
        (72, 80)
    } else {
        (56, 68)
    };
    if cmdsize < seg_cmd_size {
        return Err(error::malformed("segment load command is too small"));
    }
    let segname = slice_subrange(data, offset + 8, offset + 24);
    let (fileoff, filesize, nsects): (u64, u64, u32) = if is_64bit {
        (
            read_u64(data, offset + 40, le, "segment fileoff")?,
            read_u64(data, offset + 48, le, "segment filesize")?,
            read_u32(data, offset + 64, le, "segment nsects")?,
        )
    } else {
        (
            read_u32(data, offset + 32, le, "segment fileoff")? as u64,
            read_u32(data, offset + 36, le, "segment filesize")? as u64,
            read_u32(data, offset + 48, le, "segment nsects")?,
        )
    };
    if seg_cmd_size as u64 + nsects as u64 * sect_size as u64 > cmdsize as u64 {
        let mut message = String::from_str("segment ");
        message.append(text::name_text(segname).as_str());
        message.append(" declares more sections than fit in its load command");
        return Err(SignError::Malformed(message));
    }
    // Track the smallest non-zero section file offset to know how much
    // padding is available after the load commands. It lives at +48 (64-bit)
    // / +40 (32-bit) within each section entry.
    let field: usize = if is_64bit {
        48
    } else {
        40
    };
    let ghost first = offset + section_field(is_64bit);
    let ghost start = info.first_section_offset;
    let mut least: u64 = info.first_section_offset;
    let mut entry: usize = offset + seg_cmd_size;
    let mut i: u32 = 0;
    while i < nsects
        invariant
            i <= nsects,
            sect_size == section_len(is_64bit),
            seg_cmd_size == segment_len(is_64bit),
            seg_cmd_size + field == section_field(is_64bit),
            field + 4 <= sect_size,
            entry == offset + seg_cmd_size + i * sect_size,
            offset + seg_cmd_size + nsects * sect_size <= data.len(),
            least_offset(data@, le, first, sect_size as int, nsects as nat, start) == least_offset(
                data@,
                le,
                entry + field,
                sect_size as int,
                (nsects - i) as nat,
                least,
            ),
        decreases nsects - i,
    {
        assert(i * sect_size + sect_size <= nsects * sect_size) by (nonlinear_arith)
            requires
                i < nsects,
                0 <= sect_size,
        ;
        assert((i + 1) * sect_size == i * sect_size + sect_size) by (nonlinear_arith);
        let file_offset = bytes::get_u32(data, entry + field, le) as u64;
        if file_offset > 0 && file_offset < least {
            least = file_offset;
        }
        i += 1;
        entry += sect_size;
    }
    if is_named(segname, &[0x5f, 0x5f, 0x4c, 0x49, 0x4e, 0x4b, 0x45, 0x44, 0x49, 0x54]) {
        info.linkedit = Some(LinkeditCmd { cmd_offset: offset, fileoff, filesize });
    } else if is_named(segname, &[0x5f, 0x5f, 0x54, 0x45, 0x58, 0x54]) {
        info.text_fileoff = fileoff;
        info.text_filesize = filesize;
    }
    info.first_section_offset = least;
    Ok(())
}

/// Where the commands that `info` names stand, and what they hold.
pub open spec fn located(data: Seq<u8>, le: bool, cmds_end: int, info: LoadInfo) -> bool {
    &&& info.codesig matches Some(codesig) ==> {
        &&& info.header_size <= codesig.cmd_offset
        &&& codesig.cmd_offset + 16 <= cmds_end
        &&& bytes::u32_at(data, codesig.cmd_offset as int, le) == LC_CODE_SIGNATURE
        &&& codesig.data_offset == bytes::u32_at(data, codesig.cmd_offset + 8, le)
        &&& codesig.data_size == bytes::u32_at(data, codesig.cmd_offset + 12, le)
    }
    &&& info.linkedit matches Some(linkedit) ==> {
        let cmd = bytes::u32_at(data, linkedit.cmd_offset as int, le);
        let at = linkedit.cmd_offset as int;
        &&& info.header_size <= at
        &&& cmd == LC_SEGMENT || cmd == LC_SEGMENT_64
        &&& at + segment_len(cmd == LC_SEGMENT_64) <= cmds_end
        &&& linkedit.fileoff == segment_fileoff(data, at, cmd == LC_SEGMENT_64, le)
        &&& linkedit.filesize == segment_filesize(data, at, cmd == LC_SEGMENT_64, le)
        &&& text::trim_nul(segment_name(data, at)) == linkedit_name()
    }
}

/// Two records that agree on what the header says.
pub open spec fn same_header(a: LoadInfo, b: LoadInfo) -> bool {
    &&& a.little_endian == b.little_endian
    &&& a.is_64bit == b.is_64bit
    &&& a.header_size == b.header_size
    &&& a.ncmds == b.ncmds
    &&& a.sizeofcmds == b.sizeofcmds
    &&& a.is_executable == b.is_executable
}

/// Walked load commands lie within the load command area, at eight bytes or
/// more each.
pub proof fn lemma_commands_located(
    data: Seq<u8>,
    le: bool,
    cmds_end: int,
    offset: int,
    remaining: nat,
    info: LoadInfo,
)
    requires
        info.header_size <= offset <= cmds_end <= data.len(),
        cmds_end <= u32::MAX,
        located(data, le, cmds_end, info),
        after_commands(data, le, cmds_end, offset, remaining, info) is Ok,
    ensures
        ({
            let (end, next) = after_commands(data, le, cmds_end, offset, remaining, info)->Ok_0;
            &&& offset + 8 * remaining <= end <= cmds_end
            &&& located(data, le, cmds_end, next)
            &&& same_header(info, next)
        }),
    decreases remaining,
{
    if remaining > 0 {
        let (size, next) = after_command(data, le, cmds_end, offset, info)->Ok_0;
        assert(located(data, le, cmds_end, next));
        lemma_commands_located(data, le, cmds_end, offset + size, (remaining - 1) as nat, next);
    }
}

/// What holds of every record that a binary gives.
pub proof fn lemma_load_info(data: Seq<u8>, info: LoadInfo)
    requires
        load_info(data) == Ok::<LoadInfo, ErrorView>(info),
    ensures
        kind_of(data) is Some,
        kind_of(data)->0.thin(),
        kind_of(data)->0.is_le() == info.little_endian,
        info.is_64bit == kind_of(data)->0 is Thin64,
        info.wf(),
        info.sizeofcmds == bytes::u32_at(data, 20, info.little_endian),
        info.ncmds == bytes::u32_at(data, 16, info.little_endian),
        info.commands_end() <= data.len(),
        located(data, info.little_endian, info.commands_end(), info),
{
    reveal(load_info);
    let (kind, sizeofcmds) = header(data)->Ok_0;
    let start = header_info(data, kind, sizeofcmds);
    lemma_commands_located(
        data,
        kind.is_le(),
        start.commands_end(),
        kind.header_len(),
        start.ncmds as nat,
        start,
    );
}

/// Parse the header and load commands of a thin Mach-O binary.
///
/// `data` must contain at least `header + sizeofcmds` bytes; extra bytes are
/// ignored.
pub fn parse_load_info(data: &[u8]) -> (parsed: Result<LoadInfo, SignError>)
    ensures
        error::agrees(parsed, load_info(data@)),
        parsed matches Ok(info) ==> info.wf() && info.commands_end() <= data@.len(),
{
    proof {
        reveal(load_info);
    }
    let (kind, sizeofcmds) = parse_header(data)?;
    let (is_64bit, le) = match kind {
        MachOKind::Thin64 { little_endian } => (true, little_endian),
        MachOKind::Thin32 { little_endian } => (false, little_endian),
        MachOKind::Fat => {
            return Err(error::malformed("expected a thin Mach-O binary, found a fat binary"));
        },
        MachOKind::Fat64 => return Err(SignError::Fat64Unsupported),
    };
    let header_size = kind.header_size();
    let ncmds = read_u32(data, 16, le, "ncmds")?;
    let filetype = read_u32(data, 12, le, "filetype")?;

    let cmds_end: usize = header_size + sizeofcmds;
    if data.len() < cmds_end {
        return Err(oob("load commands"));
    }
    let mut info = LoadInfo {
        little_endian: le,
        is_64bit,
        header_size,
        ncmds,
        sizeofcmds,
        is_executable: filetype == MH_EXECUTE,
        codesig: None,
        linkedit: None,
        text_fileoff: 0,
        text_filesize: 0,
        first_section_offset: u64::MAX,
    };
    let ghost start = info;
    let mut offset: usize = header_size;
    let mut i: u32 = 0;
    while i < ncmds
        invariant
            i <= ncmds,
            offset <= cmds_end <= data.len(),
            cmds_end <= 32 + MAX_SIZEOFCMDS,
            after_commands(
                data@,
                le,
                cmds_end as int,
                header_size as int,
                ncmds as nat,
                start,
            ) == after_commands(
                data@,
                le,
                cmds_end as int,
                offset as int,
                (ncmds - i) as nat,
                info,
            ),
            walk(data@) == after_commands(
                data@,
                le,
                cmds_end as int,
                header_size as int,
                ncmds as nat,
                start,
            ),
            same_header(start, info),
        decreases ncmds - i,
    {
        proof {
            reveal(load_info);
        }
        let cmd = read_u32(data, offset, le, "load command type")?;
        let cmdsize = read_u32(data, offset + 4, le, "load command size")? as usize;
        if cmdsize < 8 || cmdsize > cmds_end - offset {
            let mut message = text::with_decimal(
                "load command at offset ",
                offset as u64,
                " has invalid size ",
            );
            text::push_decimal(&mut message, cmdsize as u64);
            return Err(SignError::Malformed(message));
        }
        if cmd == LC_CODE_SIGNATURE {
            if cmdsize < LC_CODE_SIGNATURE_SIZE {
                return Err(error::malformed("LC_CODE_SIGNATURE command is too small"));
            }
            info.codesig = Some(
                CodeSigCmd {
                    cmd_offset: offset,
                    data_offset: read_u32(data, offset + 8, le, "code signature dataoff")?,
                    data_size: read_u32(data, offset + 12, le, "code signature datasize")?,
                },
            );
        } else if cmd == LC_SEGMENT_64 || cmd == LC_SEGMENT {
            parse_segment(data, offset, cmdsize, cmd == LC_SEGMENT_64, le, &mut info)?;
        }
        offset += cmdsize;
        i += 1;
    }
    // If no section provides a lower bound for header padding, fall back to
    // the start of the __LINKEDIT segment (load commands always precede it).
    if info.first_section_offset == u64::MAX {
        info.first_section_offset = match info.linkedit {
            Some(linkedit) => linkedit.fileoff,
            None => cmds_end as u64,
        };
    }
    proof {
        lemma_load_info(data@, info);
    }
    Ok(info)
}

/// `prefix` with an `LC_CODE_SIGNATURE` load command after its other load
/// commands, and with the header counting it. The size of the signature is
/// left zero.
pub open spec fn with_codesig_cmd(prefix: Seq<u8>, info: LoadInfo, data_offset: u32) -> Seq<u8> {
    let le = info.little_endian;
    let at = info.commands_end();
    let a = bytes::put32(prefix, at, LC_CODE_SIGNATURE, le);
    let b = bytes::put32(a, at + 4, LC_CODE_SIGNATURE_SIZE as u32, le);
    let c = bytes::put32(b, at + 8, data_offset, le);
    let d = bytes::put32(c, at + 12, 0, le);
    let e = bytes::put32(d, 16, (info.ncmds + 1) as u32, le);
    bytes::put32(e, 20, (info.sizeofcmds + LC_CODE_SIGNATURE_SIZE) as u32, le)
}

/// What inserting an `LC_CODE_SIGNATURE` load command gives.
pub open spec fn inserted(prefix: Seq<u8>, info: LoadInfo, data_offset: u32) -> Result<
    Seq<u8>,
    ErrorView,
> {
    let end = info.commands_end() + LC_CODE_SIGNATURE_SIZE;
    if end > info.first_section_offset {
        Err(ErrorView::InsufficientHeaderPadding)
    } else if end > prefix.len() {
        Err(ErrorView::Malformed("load command area extends past the end of the binary"@))
    } else if !bytes::all_zero(prefix, info.commands_end(), end) {
        Err(ErrorView::InsufficientHeaderPadding)
    } else {
        Ok(with_codesig_cmd(prefix, info, data_offset))
    }
}

/// Insert an `LC_CODE_SIGNATURE` load command into the zero padding after the
/// existing load commands, updating `ncmds` and `sizeofcmds` in the header.
/// Bytes that are not zero are no padding, and stay as they are.
///
/// Returns the offset of the inserted command.
pub fn insert_codesig_cmd(prefix: &mut Vec<u8>, info: &LoadInfo, data_offset: u32) -> (at: Result<
    usize,
    SignError,
>)
    requires
        info.wf(),
    ensures
        match at {
            Ok(at) => {
                &&& at == info.commands_end()
                &&& inserted(old(prefix)@, *info, data_offset) == Ok::<Seq<u8>, ErrorView>(
                    final(prefix)@,
                )
                &&& final(prefix)@.len() == old(prefix)@.len()
            },
            Err(error) => {
                &&& inserted(old(prefix)@, *info, data_offset) == Err::<Seq<u8>, ErrorView>(error@)
                &&& !(error is Io)
                &&& final(prefix)@ == old(prefix)@
            },
        },
{
    let le = info.little_endian;
    let insert_at = info.load_commands_end();
    let insert_end: usize = insert_at + LC_CODE_SIGNATURE_SIZE;
    if insert_end as u64 > info.first_section_offset {
        return Err(SignError::InsufficientHeaderPadding);
    }
    if insert_end > prefix.len() {
        return Err(error::malformed("load command area extends past the end of the binary"));
    }
    if !bytes::is_zero(prefix.as_slice(), insert_at, insert_end) {
        return Err(SignError::InsufficientHeaderPadding);
    }
    write_u32(prefix, insert_at, LC_CODE_SIGNATURE, le)?;
    write_u32(prefix, insert_at + 4, LC_CODE_SIGNATURE_SIZE as u32, le)?;
    write_u32(prefix, insert_at + 8, data_offset, le)?;
    // datasize is patched later, together with the pre-existing command case.
    write_u32(prefix, insert_at + 12, 0, le)?;

    // ncmds is at offset 16, sizeofcmds at offset 20 for both 32/64-bit.
    write_u32(prefix, 16, info.ncmds + 1, le)?;
    write_u32(prefix, 20, (info.sizeofcmds + LC_CODE_SIGNATURE_SIZE) as u32, le)?;
    Ok(insert_at)
}

} // verus!
