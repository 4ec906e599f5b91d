//! What the load commands of a binary say after it has been signed.

use crate::bytes;
use crate::error::ErrorView;
use crate::layout;
use crate::layout::LayoutView;
use crate::macho;
use crate::macho::{CodeSigCmd, LinkeditCmd, LoadInfo};
use crate::sign;
use crate::sign::PreparedView;
use crate::text;
use vstd::prelude::*;

verus! {

/// How signing changes load commands: the place of the signature in the
/// command at `codesig`, and the sizes in the segment command at `linkedit`.
pub ghost struct Change {
    pub codesig: int,
    pub data_offset: u32,
    pub data_size: u32,
    pub linkedit: int,
    pub is_64bit: bool,
    pub filesize: u64,
    pub vmsize: u64,
    pub ncmds: u32,
    pub sizeofcmds: usize,
}

impl Change {
    /// Whether the byte at `i` belongs to a field that is changed.
    pub open spec fn touches(self, i: int) -> bool {
        ||| self.codesig + 8 <= i < self.codesig + 16
        ||| self.is_64bit && self.linkedit + 32 <= i < self.linkedit + 40
        ||| self.is_64bit && self.linkedit + 48 <= i < self.linkedit + 56
        ||| !self.is_64bit && self.linkedit + 28 <= i < self.linkedit + 32
        ||| !self.is_64bit && self.linkedit + 36 <= i < self.linkedit + 40
    }

    /// The record of a binary after the change.
    pub open spec fn apply(self, info: LoadInfo) -> LoadInfo {
        LoadInfo {
            ncmds: self.ncmds,
            sizeofcmds: self.sizeofcmds,
            codesig: match info.codesig {
                Some(codesig) if codesig.cmd_offset == self.codesig => Some(
                    CodeSigCmd {
                        cmd_offset: codesig.cmd_offset,
                        data_offset: self.data_offset,
                        data_size: self.data_size,
                    },
                ),
                other => other,
            },
            linkedit: match info.linkedit {
                Some(linkedit) if linkedit.cmd_offset == self.linkedit => Some(
                    LinkeditCmd { filesize: self.filesize, ..linkedit },
                ),
                other => other,
            },
            ..info
        }
    }

    /// The changed fields of `b` hold their new values.
    pub open spec fn done(self, b: Seq<u8>, le: bool, cmds_end: int) -> bool {
        &&& self.codesig < cmds_end ==> {
            &&& bytes::u32_at(b, self.codesig + 8, le) == self.data_offset
            &&& bytes::u32_at(b, self.codesig + 12, le) == self.data_size
        }
        &&& macho::segment_filesize(b, self.linkedit, self.is_64bit, le) == self.filesize
    }
}

/// The `vmsize` field of the segment command at `offset`.
pub open spec fn segment_vmsize(data: Seq<u8>, offset: int, is_64bit: bool, le: bool) -> u64 {
    if is_64bit {
        bytes::u64_at(data, offset + 32, le)
    } else {
        bytes::u32_at(data, offset + 28, le) as u64
    }
}

/// Two sequences that agree between `start` and `end` but for the changed
/// fields.
pub open spec fn agree(a: Seq<u8>, b: Seq<u8>, change: Change, start: int, end: int) -> bool {
    forall|i: int| start <= i < end && !change.touches(i) ==> #[trigger] a[i] == b[i]
}

/// Integers outside the changed fields agree.
pub proof fn lemma_u32_agrees(
    a: Seq<u8>,
    b: Seq<u8>,
    change: Change,
    start: int,
    end: int,
    at: int,
    le: bool,
)
    requires
        agree(a, b, change, start, end),
        start <= at,
        at + 4 <= end,
        forall|i: int| at <= i < at + 4 ==> !change.touches(i),
    ensures
        bytes::u32_at(a, at, le) == bytes::u32_at(b, at, le),
{
    assert(!change.touches(at + 0));
    assert(!change.touches(at + 1));
    assert(!change.touches(at + 2));
    assert(!change.touches(at + 3));
    assert(a[at + 0] == b[at + 0]);
    assert(a[at + 1] == b[at + 1]);
    assert(a[at + 2] == b[at + 2]);
    assert(a[at + 3] == b[at + 3]);
}

proof fn lemma_u64_agrees(
    a: Seq<u8>,
    b: Seq<u8>,
    change: Change,
    start: int,
    end: int,
    at: int,
    le: bool,
)
    requires
        agree(a, b, change, start, end),
        start <= at,
        at + 8 <= end,
        forall|i: int| at <= i < at + 8 ==> !change.touches(i),
    ensures
        bytes::u64_at(a, at, le) == bytes::u64_at(b, at, le),
{
    lemma_u32_agrees(a, b, change, start, end, at, le);
    lemma_u32_agrees(a, b, change, start, end, at + 4, le);
}

/// Section entries that agree give the same smallest offset.
proof fn lemma_sections_agree(
    a: Seq<u8>,
    b: Seq<u8>,
    change: Change,
    start: int,
    end: int,
    le: bool,
    at: int,
    stride: int,
    count: nat,
    least: u64,
)
    requires
        agree(a, b, change, start, end),
        start <= at,
        stride >= 4,
        at + (count - 1) * stride + 4 <= end,
        forall|i: int| at <= i < end ==> !change.touches(i),
    ensures
        macho::least_offset(a, le, at, stride, count, least) == macho::least_offset(
            b,
            le,
            at,
            stride,
            count,
            least,
        ),
    decreases count,
{
    if count > 0 {
        assert((count - 1) * stride == (count - 2) * stride + stride) by (nonlinear_arith);
        assert((count - 1) * stride >= 0) by (nonlinear_arith)
            requires
                count >= 1,
                stride >= 4,
        ;
        lemma_u32_agrees(a, b, change, start, end, at, le);
        let here = bytes::u32_at(a, at, le) as u64;
        let next = if 0 < here < least {
            here
        } else {
            least
        };
        lemma_sections_agree(
            a,
            b,
            change,
            start,
            end,
            le,
            at + stride,
            stride,
            (count - 1) as nat,
            next,
        );
    }
}

/// The change leaves other commands alone, and is known at its own.
spec fn clear_of(change: Change, offset: int, size: int) -> bool {
    &&& change.codesig == offset || change.codesig + 16 <= offset || offset + size
        <= change.codesig
    &&& change.linkedit == offset || change.linkedit + 56 <= offset || offset + size
        <= change.linkedit
}

#[verifier::spinoff_prover]
#[verifier::rlimit(50)]
proof fn lemma_segment_change(
    a: Seq<u8>,
    b: Seq<u8>,
    le: bool,
    offset: int,
    size: int,
    is_64bit: bool,
    info: LoadInfo,
    change: Change,
)
    requires
        0 <= offset <= u32::MAX,
        agree(a, b, change, offset, offset + size),
        clear_of(change, offset, size),
        change.codesig != offset,
        macho::after_segment(a, offset, size, is_64bit, le, info) is Ok,
        offset + size <= b.len(),
        offset + size <= a.len(),
        change.linkedit == offset ==> {
            &&& is_64bit == change.is_64bit
            &&& text::trim_nul(macho::segment_name(a, offset)) == macho::linkedit_name()
            &&& macho::segment_filesize(b, offset, is_64bit, le) == change.filesize
        },
        info.linkedit matches Some(linkedit) ==> linkedit.cmd_offset != offset,
    ensures
        macho::after_segment(b, offset, size, is_64bit, le, change.apply(info)) == Ok::<
            LoadInfo,
            ErrorView,
        >(change.apply(macho::after_segment(a, offset, size, is_64bit, le, info)->Ok_0)),
{
    let end = offset + size;
    let nsects = macho::segment_nsects(a, offset, is_64bit, le);
    assert(macho::segment_name(a, offset) =~= macho::segment_name(b, offset)) by {
        assert forall|k: int| 0 <= k < 16 implies macho::segment_name(a, offset)[k]
            == macho::segment_name(b, offset)[k] by {
            assert(!change.touches(offset + 8 + k));
            assert(a[offset + 8 + k] == b[offset + 8 + k]);
        }
    }
    if is_64bit {
        lemma_u32_agrees(a, b, change, offset, end, offset + 64, le);
        lemma_u64_agrees(a, b, change, offset, end, offset + 40, le);
        if change.linkedit != offset {
            lemma_u64_agrees(a, b, change, offset, end, offset + 48, le);
        }
    } else {
        lemma_u32_agrees(a, b, change, offset, end, offset + 48, le);
        lemma_u32_agrees(a, b, change, offset, end, offset + 32, le);
        if change.linkedit != offset {
            lemma_u32_agrees(a, b, change, offset, end, offset + 36, le);
        }
    }
    lemma_sections_agree(
        a,
        b,
        change,
        offset,
        end,
        le,
        offset + macho::section_field(is_64bit),
        macho::section_len(is_64bit),
        nsects as nat,
        info.first_section_offset,
    );
    assert(macho::linkedit_name().len() == 10);
    assert(macho::text_name().len() == 6);
}

/// A load command after the change.
#[verifier::spinoff_prover]
#[verifier::rlimit(50)]
proof fn lemma_command_change(
    a: Seq<u8>,
    b: Seq<u8>,
    le: bool,
    end_a: int,
    end_b: int,
    offset: int,
    info: LoadInfo,
    change: Change,
)
    requires
        0 <= offset <= end_a <= end_b,
        end_b <= u32::MAX,
        end_a <= a.len(),
        end_b <= b.len(),
        macho::after_command(a, le, end_a, offset, info) is Ok,
        ({
            let size = macho::after_command(a, le, end_a, offset, info)->Ok_0.0;
            &&& agree(a, b, change, offset, offset + size)
            &&& clear_of(change, offset, size)
        }),
        change.codesig == offset ==> bytes::u32_at(a, offset, le) == macho::LC_CODE_SIGNATURE,
        change.linkedit == offset ==> {
            &&& bytes::u32_at(a, offset, le) == (if change.is_64bit {
                macho::LC_SEGMENT_64
            } else {
                macho::LC_SEGMENT
            })
            &&& text::trim_nul(macho::segment_name(a, offset)) == macho::linkedit_name()
        },
        change.done(b, le, end_a),
        info.codesig matches Some(codesig) ==> codesig.cmd_offset != offset,
        info.linkedit matches Some(linkedit) ==> linkedit.cmd_offset != offset,
    ensures
        ({
            let (size, next) = macho::after_command(a, le, end_a, offset, info)->Ok_0;
            macho::after_command(b, le, end_b, offset, change.apply(info)) == Ok::<
                (int, LoadInfo),
                ErrorView,
            >((size, change.apply(next)))
        }),
{
    let (size, next) = macho::after_command(a, le, end_a, offset, info)->Ok_0;
    let cmd = bytes::u32_at(a, offset, le);
    let end = offset + size;
    lemma_u32_agrees(a, b, change, offset, end, offset, le);
    lemma_u32_agrees(a, b, change, offset, end, offset + 4, le);
    if cmd == macho::LC_CODE_SIGNATURE {
        if change.codesig != offset {
            lemma_u32_agrees(a, b, change, offset, end, offset + 8, le);
            lemma_u32_agrees(a, b, change, offset, end, offset + 12, le);
        }
    } else if cmd == macho::LC_SEGMENT_64 || cmd == macho::LC_SEGMENT {
        lemma_segment_change(
            a,
            b,
            le,
            offset,
            size,
            cmd == macho::LC_SEGMENT_64,
            info,
            change,
        );
    }
}

/// The commands that end up in the record lie before the walk or on it.
proof fn lemma_found_on_the_way(
    data: Seq<u8>,
    le: bool,
    cmds_end: int,
    offset: int,
    remaining: nat,
    info: LoadInfo,
)
    requires
        0 <= offset <= cmds_end <= data.len(),
        cmds_end <= u32::MAX,
        macho::after_commands(data, le, cmds_end, offset, remaining, info) is Ok,
    ensures
        ({
            let (end, last) = macho::after_commands(
                data,
                le,
                cmds_end,
                offset,
                remaining,
                info,
            )->Ok_0;
            &&& last.codesig == info.codesig || last.codesig is Some
                && last.codesig->0.cmd_offset >= offset
            &&& last.linkedit == info.linkedit || last.linkedit is Some
                && last.linkedit->0.cmd_offset >= offset
        }),
    decreases remaining,
{
    if remaining > 0 {
        let (size, next) = macho::after_command(data, le, cmds_end, offset, info)->Ok_0;
        lemma_found_on_the_way(data, le, cmds_end, offset + size, (remaining - 1) as nat, next);
    }
}

/// The rest of the load commands after the change.
#[verifier::spinoff_prover]
#[verifier::rlimit(50)]
pub proof fn lemma_commands_change(
    a: Seq<u8>,
    b: Seq<u8>,
    le: bool,
    end_a: int,
    end_b: int,
    offset: int,
    remaining: nat,
    info: LoadInfo,
    change: Change,
)
    requires
        0 <= offset <= end_a <= end_b,
        end_b <= u32::MAX,
        end_a <= a.len(),
        end_b <= b.len(),
        agree(a, b, change, offset, end_a),
        change.done(b, le, end_a),
        info.codesig matches Some(codesig) ==> codesig.cmd_offset + 16 <= offset,
        info.linkedit matches Some(linkedit) ==> linkedit.cmd_offset + 56 <= offset,
        macho::after_commands(a, le, end_a, offset, remaining, info) is Ok,
        ({
            let (_, last) = macho::after_commands(a, le, end_a, offset, remaining, info)->Ok_0;
            &&& match last.codesig {
                Some(codesig) => change.codesig == codesig.cmd_offset && bytes::u32_at(
                    a,
                    change.codesig,
                    le,
                ) == macho::LC_CODE_SIGNATURE,
                None => change.codesig >= end_a,
            }
            &&& last.linkedit is Some
            &&& change.linkedit == last.linkedit->0.cmd_offset
        }),
        bytes::u32_at(a, change.linkedit, le) == (if change.is_64bit {
            macho::LC_SEGMENT_64
        } else {
            macho::LC_SEGMENT
        }),
        text::trim_nul(macho::segment_name(a, change.linkedit)) == macho::linkedit_name(),
    ensures
        ({
            let (end, last) = macho::after_commands(a, le, end_a, offset, remaining, info)->Ok_0;
            macho::after_commands(b, le, end_b, offset, remaining, change.apply(info)) == Ok::<
                (int, LoadInfo),
                ErrorView,
            >((end, change.apply(last)))
        }),
    decreases remaining,
{
    if remaining > 0 {
        let (size, next) = macho::after_command(a, le, end_a, offset, info)->Ok_0;
        lemma_found_on_the_way(a, le, end_a, offset, remaining, info);
        lemma_found_on_the_way(a, le, end_a, offset + size, (remaining - 1) as nat, next);
        assert(clear_of(change, offset, size));
        lemma_command_change(a, b, le, end_a, end_b, offset, info, change);
        lemma_commands_change(
            a,
            b,
            le,
            end_a,
            end_b,
            offset + size,
            (remaining - 1) as nat,
            next,
            change,
        );
    }
}

/// The two commands that signing changes do not overlap.
pub open spec fn apart(info: LoadInfo) -> bool {
    info.codesig matches Some(codesig) ==> info.linkedit matches Some(linkedit)
        ==> codesig.cmd_offset + 16 <= linkedit.cmd_offset || linkedit.cmd_offset + 56
        <= codesig.cmd_offset
}

proof fn lemma_apart(
    data: Seq<u8>,
    le: bool,
    cmds_end: int,
    offset: int,
    remaining: nat,
    info: LoadInfo,
)
    requires
        0 <= offset <= cmds_end <= data.len(),
        cmds_end <= u32::MAX,
        info.codesig matches Some(codesig) ==> codesig.cmd_offset + 16 <= offset,
        info.linkedit matches Some(linkedit) ==> linkedit.cmd_offset + 56 <= offset,
        apart(info),
        macho::after_commands(data, le, cmds_end, offset, remaining, info) is Ok,
    ensures
        apart(macho::after_commands(data, le, cmds_end, offset, remaining, info)->Ok_0.1),
    decreases remaining,
{
    if remaining > 0 {
        let (size, next) = macho::after_command(data, le, cmds_end, offset, info)->Ok_0;
        lemma_apart(data, le, cmds_end, offset + size, (remaining - 1) as nat, next);
    }
}

/// Signing can be read back: `__LINKEDIT` is described by a command of the
/// binary's own class, and where the command for the signature has to be
/// inserted, the other commands fill the area that the header declares and
/// leave room below its size limit.
pub open spec fn regular(data: Seq<u8>) -> bool {
    match macho::walk(data) {
        Err(_) => false,
        Ok((end, info)) => {
            &&& info.linkedit matches Some(linkedit) ==> bytes::u32_at(
                data,
                linkedit.cmd_offset as int,
                info.little_endian,
            ) == (if info.is_64bit {
                macho::LC_SEGMENT_64
            } else {
                macho::LC_SEGMENT
            })
            &&& info.codesig is None ==> {
                &&& end == info.commands_end()
                &&& info.sizeofcmds + macho::LC_CODE_SIGNATURE_SIZE <= macho::MAX_SIZEOFCMDS
            }
        },
    }
}

/// What `patched` changes.
pub proof fn lemma_patched(
    prefix: Seq<u8>,
    info: LoadInfo,
    linkedit: LinkeditCmd,
    layout: LayoutView,
    filesize: u64,
    vmsize: u64,
    change: Change,
)
    requires
        info.is_64bit == change.is_64bit,
        0 <= change.codesig,
        change.codesig + 16 <= prefix.len(),
        linkedit.cmd_offset == change.linkedit,
        linkedit.cmd_offset + 56 <= prefix.len(),
        change.codesig + 16 <= change.linkedit || change.linkedit + 56 <= change.codesig,
        info.is_64bit || filesize <= u32::MAX && vmsize <= u32::MAX,
    ensures
        ({
            let le = info.little_endian;
            let after = sign::patched(
                prefix,
                change.codesig,
                info,
                linkedit,
                layout,
                filesize,
                vmsize,
            );
            &&& after.len() == prefix.len()
            &&& bytes::u32_at(after, change.codesig + 8, le) == layout.code_limit as u32
            &&& bytes::u32_at(after, change.codesig + 12, le) == layout.allocated_size as u32
            &&& macho::segment_filesize(after, change.linkedit, info.is_64bit, le) == filesize
            &&& segment_vmsize(after, change.linkedit, info.is_64bit, le) == vmsize
            &&& agree(prefix, after, change, 0, prefix.len() as int)
        }),
{
    let le = info.little_endian;
    let cs = change.codesig;
    let at = linkedit.cmd_offset as int;
    let a = bytes::put32(prefix, cs + 8, layout.code_limit as u32, le);
    let b = bytes::put32(a, cs + 12, layout.allocated_size as u32, le);
    bytes::lemma_put32(prefix, cs + 8, layout.code_limit as u32, le);
    bytes::lemma_put32(a, cs + 12, layout.allocated_size as u32, le);
    bytes::lemma_u32_same(b, cs + 8, a, cs + 8, le);
    if info.is_64bit {
        let c = bytes::put64(b, at + 32, vmsize, le);
        let d = bytes::put64(c, at + 48, filesize, le);
        bytes::lemma_put64(b, at + 32, vmsize, le);
        bytes::lemma_put64(c, at + 48, filesize, le);
        bytes::lemma_u64_same(d, at + 32, c, at + 32, le);
        bytes::lemma_u32_same(d, cs + 8, b, cs + 8, le);
        bytes::lemma_u32_same(d, cs + 12, b, cs + 12, le);
    } else {
        let c = bytes::put32(b, at + 28, vmsize as u32, le);
        let d = bytes::put32(c, at + 36, filesize as u32, le);
        bytes::lemma_put32(b, at + 28, vmsize as u32, le);
        bytes::lemma_put32(c, at + 36, filesize as u32, le);
        bytes::lemma_u32_same(d, at + 28, c, at + 28, le);
        bytes::lemma_u32_same(d, cs + 8, b, cs + 8, le);
        bytes::lemma_u32_same(d, cs + 12, b, cs + 12, le);
    }
}

/// How signing with the given layout changes a binary.
pub open spec fn change_of(info: LoadInfo, layout: LayoutView) -> Change {
    let inserted = info.codesig is None;
    let linkedit = info.linkedit->0;
    Change {
        codesig: match info.codesig {
            Some(codesig) => codesig.cmd_offset as int,
            None => info.commands_end(),
        },
        data_offset: layout.code_limit as u32,
        data_size: layout.allocated_size as u32,
        linkedit: linkedit.cmd_offset as int,
        is_64bit: info.is_64bit,
        filesize: (layout.file_size() - linkedit.fileoff) as u64,
        vmsize: bytes::round_up(
            layout.file_size() - linkedit.fileoff,
            layout::SEGMENT_PAGE_SIZE as int,
        ) as u64,
        ncmds: if inserted {
            (info.ncmds + 1) as u32
        } else {
            info.ncmds
        },
        sizeofcmds: if inserted {
            (info.sizeofcmds + macho::LC_CODE_SIGNATURE_SIZE) as usize
        } else {
            info.sizeofcmds
        },
    }
}

/// What the load commands of a binary say once it has been signed.
pub open spec fn signed_info(info: LoadInfo, layout: LayoutView) -> LoadInfo {
    let change = change_of(info, layout);
    LoadInfo {
        codesig: Some(
            CodeSigCmd {
                cmd_offset: change.codesig as usize,
                data_offset: change.data_offset,
                data_size: change.data_size,
            },
        ),
        ..change.apply(info)
    }
}

/// What preparing a binary does to it.
pub open spec fn rewritten(
    data: Seq<u8>,
    prefix: Seq<u8>,
    info: LoadInfo,
    layout: LayoutView,
) -> bool {
    let le = info.little_endian;
    let change = change_of(info, layout);
    &&& prefix.len() == data.len()
    &&& change.codesig + 16 <= info.prefix_len()
    &&& change.codesig + 16 <= change.linkedit || change.linkedit + 56 <= change.codesig
    &&& change.linkedit + 56 <= info.commands_end()
    &&& bytes::u32_at(prefix, change.codesig + 8, le) == change.data_offset
    &&& bytes::u32_at(prefix, change.codesig + 12, le) == change.data_size
    &&& macho::segment_filesize(prefix, change.linkedit, info.is_64bit, le) == change.filesize
    &&& segment_vmsize(prefix, change.linkedit, info.is_64bit, le) == change.vmsize
    &&& agree(data, prefix, change, 0, 16)
    &&& agree(data, prefix, change, 24, info.commands_end())
    &&& agree(data, prefix, change, info.prefix_len(), data.len() as int)
    &&& bytes::u32_at(prefix, 16, le) == change.ncmds
    &&& bytes::u32_at(prefix, 20, le) == change.sizeofcmds
    &&& bytes::u32_at(prefix, change.codesig, le) == macho::LC_CODE_SIGNATURE
    &&& info.codesig is None ==> bytes::u32_at(prefix, change.codesig + 4, le) == 16
    &&& info.codesig is Some ==> agree(data, prefix, change, 0, data.len() as int)
}

/// A load command area that was walked keeps the two commands apart.
pub proof fn lemma_info_apart(data: Seq<u8>, info: LoadInfo)
    requires
        macho::load_info(data) == Ok::<LoadInfo, ErrorView>(info),
    ensures
        apart(info),
{
    reveal(macho::load_info);
    macho::lemma_load_info(data, info);
    let (kind, sizeofcmds) = macho::header(data)->Ok_0;
    let start = macho::header_info(data, kind, sizeofcmds);
    lemma_apart(
        data,
        kind.is_le(),
        start.commands_end(),
        kind.header_len(),
        start.ncmds as nat,
        start,
    );
}

/// Inserting a command changes the header's counts and the bytes of the
/// command.
proof fn lemma_inserted(prefix: Seq<u8>, info: LoadInfo, data_offset: u32)
    requires
        info.wf(),
        info.codesig is None,
        info.prefix_len() <= prefix.len(),
    ensures
        ({
            let le = info.little_endian;
            let at = info.commands_end();
            let after = macho::with_codesig_cmd(prefix, info, data_offset);
            &&& after.len() == prefix.len()
            &&& bytes::u32_at(after, at, le) == macho::LC_CODE_SIGNATURE
            &&& bytes::u32_at(after, at + 4, le) == 16
            &&& bytes::u32_at(after, 16, le) == info.ncmds + 1
            &&& bytes::u32_at(after, 20, le) == info.sizeofcmds + 16
            &&& forall|i: int|
                0 <= i < prefix.len() && !(16 <= i < 24) && !(at <= i < at + 16)
                    ==> #[trigger] after[i] == prefix[i]
        }),
{
    let le = info.little_endian;
    let at = info.commands_end();
    let a = bytes::put32(prefix, at, macho::LC_CODE_SIGNATURE, le);
    let b = bytes::put32(a, at + 4, macho::LC_CODE_SIGNATURE_SIZE as u32, le);
    let c = bytes::put32(b, at + 8, data_offset, le);
    let d = bytes::put32(c, at + 12, 0, le);
    let e = bytes::put32(d, 16, (info.ncmds + 1) as u32, le);
    let f = bytes::put32(e, 20, (info.sizeofcmds + macho::LC_CODE_SIGNATURE_SIZE) as u32, le);
    bytes::lemma_put32(prefix, at, macho::LC_CODE_SIGNATURE, le);
    bytes::lemma_put32(a, at + 4, macho::LC_CODE_SIGNATURE_SIZE as u32, le);
    bytes::lemma_put32(b, at + 8, data_offset, le);
    bytes::lemma_put32(c, at + 12, 0, le);
    bytes::lemma_put32(d, 16, (info.ncmds + 1) as u32, le);
    bytes::lemma_put32(e, 20, (info.sizeofcmds + macho::LC_CODE_SIGNATURE_SIZE) as u32, le);
    bytes::lemma_u32_same(f, at, a, at, le);
    bytes::lemma_u32_same(f, at + 4, b, at + 4, le);
    bytes::lemma_u32_same(f, 16, e, 16, le);
}

/// A signed binary that is patched is rewritten.
proof fn lemma_rewritten_signed(
    data: Seq<u8>,
    info: LoadInfo,
    layout: LayoutView,
    after: Seq<u8>,
    change: Change,
)
    requires
        info.wf(),
        apart(info),
        info.linkedit is Some,
        info.codesig is Some,
        info.prefix_len() <= data.len(),
        change == change_of(info, layout),
        bytes::u32_at(data, 16, info.little_endian) == info.ncmds,
        bytes::u32_at(data, 20, info.little_endian) == info.sizeofcmds,
        bytes::u32_at(data, change.codesig, info.little_endian) == macho::LC_CODE_SIGNATURE,
        after.len() == data.len(),
        bytes::u32_at(after, change.codesig + 8, info.little_endian) == change.data_offset,
        bytes::u32_at(after, change.codesig + 12, info.little_endian) == change.data_size,
        macho::segment_filesize(after, change.linkedit, info.is_64bit, info.little_endian)
            == change.filesize,
        segment_vmsize(after, change.linkedit, info.is_64bit, info.little_endian)
            == change.vmsize,
        agree(data, after, change, 0, data.len() as int),
    ensures
        rewritten(data, after, info, layout),
{
    let le = info.little_endian;
    let len = data.len() as int;
    lemma_u32_agrees(data, after, change, 0, len, 16, le);
    lemma_u32_agrees(data, after, change, 0, len, 20, le);
    lemma_u32_agrees(data, after, change, 0, len, change.codesig, le);
}

/// An unsigned binary that gets a command and is patched is rewritten.
#[verifier::spinoff_prover]
#[verifier::rlimit(50)]
proof fn lemma_rewritten_unsigned(
    data: Seq<u8>,
    info: LoadInfo,
    layout: LayoutView,
    commanded: Seq<u8>,
    after: Seq<u8>,
    change: Change,
)
    requires
        info.wf(),
        info.linkedit is Some,
        info.codesig is None,
        info.prefix_len() <= data.len(),
        change == change_of(info, layout),
        commanded == macho::with_codesig_cmd(data, info, layout.code_limit as u32),
        after.len() == data.len(),
        bytes::u32_at(after, change.codesig + 8, info.little_endian) == change.data_offset,
        bytes::u32_at(after, change.codesig + 12, info.little_endian) == change.data_size,
        macho::segment_filesize(after, change.linkedit, info.is_64bit, info.little_endian)
            == change.filesize,
        segment_vmsize(after, change.linkedit, info.is_64bit, info.little_endian)
            == change.vmsize,
        agree(commanded, after, change, 0, data.len() as int),
    ensures
        rewritten(data, after, info, layout),
{
    let le = info.little_endian;
    let len = data.len() as int;
    lemma_inserted(data, info, layout.code_limit as u32);
    lemma_u32_agrees(commanded, after, change, 0, len, 16, le);
    lemma_u32_agrees(commanded, after, change, 0, len, 20, le);
    lemma_u32_agrees(commanded, after, change, 0, len, change.codesig, le);
    lemma_u32_agrees(commanded, after, change, 0, len, change.codesig + 4, le);
    let at = info.commands_end();
    assert forall|i: int|
        (0 <= i < 16 || 24 <= i < at || at + 16 <= i < len) && !change.touches(
            i,
        ) implies #[trigger] data[i] == after[i] by {
        assert(commanded[i] == after[i]);
    }
}

/// Patching a binary that has the command for its signature rewrites it.
#[verifier::spinoff_prover]
#[verifier::rlimit(50)]
proof fn lemma_rewritten(
    data: Seq<u8>,
    info: LoadInfo,
    layout: LayoutView,
    filesize: u64,
    vmsize: u64,
)
    requires
        macho::load_info(data) == Ok::<LoadInfo, ErrorView>(info),
        info.prefix_len() <= data.len(),
        info.linkedit is Some,
        layout.wf(),
        sign::with_command(data, info, layout.code_limit) is Ok,
        filesize == layout.file_size() - info.linkedit->0.fileoff,
        vmsize == bytes::round_up(filesize as int, layout::SEGMENT_PAGE_SIZE as int),
        info.is_64bit || vmsize <= u32::MAX,
    ensures
        ({
            let (commanded, cmd_offset) = sign::with_command(
                data,
                info,
                layout.code_limit,
            )->Ok_0;
            rewritten(
                data,
                sign::patched(
                    commanded,
                    cmd_offset,
                    info,
                    info.linkedit->0,
                    layout,
                    filesize,
                    vmsize,
                ),
                info,
                layout,
            )
        }),
{
    macho::lemma_load_info(data, info);
    lemma_info_apart(data, info);
    let linkedit = info.linkedit->0;
    let change = change_of(info, layout);
    let (commanded, cmd_offset) = sign::with_command(data, info, layout.code_limit)->Ok_0;
    let after = sign::patched(commanded, cmd_offset, info, linkedit, layout, filesize, vmsize);
    if info.codesig is None {
        assert(commanded.len() == data.len()) by {
            lemma_inserted(data, info, layout.code_limit as u32);
        }
        lemma_patched(commanded, info, linkedit, layout, filesize, vmsize, change);
        lemma_rewritten_unsigned(data, info, layout, commanded, after, change);
    } else {
        lemma_patched(commanded, info, linkedit, layout, filesize, vmsize, change);
        lemma_rewritten_signed(data, info, layout, after, change);
    }
}

/// What a prepared binary consists of.
pub proof fn lemma_prepared(
    data: Seq<u8>,
    info: LoadInfo,
    identifier: Seq<char>,
    hardened_runtime: bool,
    linker_signed: bool,
    entitlements: Option<Seq<u8>>,
    prepared: PreparedView,
)
    requires
        macho::load_info(data) == Ok::<LoadInfo, ErrorView>(info),
        info.prefix_len() <= data.len(),
        sign::prepared(data, info, identifier, hardened_runtime, linker_signed, entitlements)
            == Ok::<PreparedView, ErrorView>(prepared),
    ensures
        info.linkedit is Some,
        sign::placement(info, info.linkedit->0) == Ok::<(u64, u64), ErrorView>(
            (prepared.layout.code_limit, prepared.min_input),
        ),
        layout::layout_of(
            info,
            prepared.layout.code_limit,
            identifier,
            hardened_runtime,
            linker_signed,
            entitlements,
        ) == Ok::<LayoutView, ErrorView>(prepared.layout),
        prepared.layout.wf(),
        info.prefix_len() <= prepared.layout.code_limit,
        info.linkedit->0.fileoff <= prepared.layout.code_limit,
        info.codesig is None ==> bytes::all_zero(data, info.commands_end(), info.prefix_len()),
        rewritten(data, prepared.prefix, info, prepared.layout),
{
    reveal(sign::prepared);
    let layout = prepared.layout;
    let linkedit = info.linkedit->0;
    let (code_limit, min_input) = sign::placement(info, linkedit)->Ok_0;
    layout::lemma_layout_wf(
        info,
        code_limit,
        identifier,
        hardened_runtime,
        linker_signed,
        entitlements,
    );
    assert(layout.code_limit == code_limit) by {
        reveal(layout::layout_of);
    }
    let (filesize, vmsize) = layout::linkedit_sizes_of(layout, linkedit.fileoff)->Ok_0;
    lemma_rewritten(data, info, layout, filesize, vmsize);
}

/// One more command comes after the others.
proof fn lemma_one_more_command(
    data: Seq<u8>,
    le: bool,
    cmds_end: int,
    offset: int,
    remaining: nat,
    info: LoadInfo,
)
    requires
        macho::after_commands(data, le, cmds_end, offset, remaining, info) is Ok,
        ({
            let (end, last) = macho::after_commands(
                data,
                le,
                cmds_end,
                offset,
                remaining,
                info,
            )->Ok_0;
            macho::after_command(data, le, cmds_end, end, last) is Ok
        }),
    ensures
        ({
            let (end, last) = macho::after_commands(
                data,
                le,
                cmds_end,
                offset,
                remaining,
                info,
            )->Ok_0;
            let (size, next) = macho::after_command(data, le, cmds_end, end, last)->Ok_0;
            macho::after_commands(data, le, cmds_end, offset, remaining + 1, info) == Ok::<
                (int, LoadInfo),
                ErrorView,
            >((end + size, next))
        }),
    decreases remaining,
{
    reveal_with_fuel(macho::after_commands, 2);
    if remaining > 0 {
        let (size, next) = macho::after_command(data, le, cmds_end, offset, info)->Ok_0;
        lemma_one_more_command(
            data,
            le,
            cmds_end,
            offset + size,
            (remaining - 1) as nat,
            next,
        );
    }
}

/// The header of a rewritten binary.
proof fn lemma_header_again(
    data: Seq<u8>,
    prefix: Seq<u8>,
    after: Seq<u8>,
    info: LoadInfo,
    layout: LayoutView,
)
    requires
        macho::load_info(data) == Ok::<LoadInfo, ErrorView>(info),
        regular(data),
        rewritten(data, prefix, info, layout),
        info.prefix_len() <= data.len(),
        info.prefix_len() <= after.len(),
        forall|i: int| 0 <= i < info.prefix_len() ==> #[trigger] after[i] == prefix[i],
    ensures
        ({
            let change = change_of(info, layout);
            let (kind, sizeofcmds) = macho::header(data)->Ok_0;
            &&& macho::header(data) is Ok
            &&& kind.thin()
            &&& macho::header(after) == Ok::<(macho::MachOKind, usize), ErrorView>(
                (kind, change.sizeofcmds),
            )
            &&& macho::header_info(after, kind, change.sizeofcmds) == change.apply(
                macho::header_info(data, kind, sizeofcmds),
            )
        }),
{
    reveal(macho::load_info);
    macho::lemma_load_info(data, info);
    let le = info.little_endian;
    let change = change_of(info, layout);
    let (kind, sizeofcmds) = macho::header(data)->Ok_0;
    assert(agree(data, after, change, 0, 16)) by {
        assert forall|i: int| 0 <= i < 16 && !change.touches(i) implies #[trigger] data[i]
            == after[i] by {
            assert(prefix[i] == after[i]);
        }
    }
    lemma_u32_agrees(data, after, change, 0, 16, 0, true);
    lemma_u32_agrees(data, after, change, 0, 16, 0, false);
    lemma_u32_agrees(data, after, change, 0, 16, 12, le);
    bytes::lemma_u32_same(after, 16, prefix, 16, le);
    bytes::lemma_u32_same(after, 20, prefix, 20, le);
}

/// Rewritten bytes hold the new values and otherwise agree.
proof fn lemma_done(
    data: Seq<u8>,
    prefix: Seq<u8>,
    after: Seq<u8>,
    info: LoadInfo,
    layout: LayoutView,
)
    requires
        info.wf(),
        info.linkedit is Some,
        rewritten(data, prefix, info, layout),
        info.prefix_len() <= data.len(),
        info.prefix_len() <= after.len(),
        forall|i: int| 0 <= i < info.prefix_len() ==> #[trigger] after[i] == prefix[i],
    ensures
        agree(data, after, change_of(info, layout), 24, info.commands_end()),
        change_of(info, layout).done(after, info.little_endian, info.prefix_len()),
        ({
            let at = change_of(info, layout).codesig;
            let le = info.little_endian;
            &&& bytes::u32_at(after, at, le) == macho::LC_CODE_SIGNATURE
            &&& info.codesig is None ==> bytes::u32_at(after, at + 4, le) == 16
        }),
{
    let le = info.little_endian;
    let change = change_of(info, layout);
    let cs = change.codesig;
    assert forall|i: int|
        24 <= i < info.commands_end() && !change.touches(i) implies #[trigger] data[i]
        == after[i] by {
        assert(prefix[i] == after[i]);
    }
    bytes::lemma_u32_same(after, cs, prefix, cs, le);
    bytes::lemma_u32_same(after, cs + 4, prefix, cs + 4, le);
    bytes::lemma_u32_same(after, cs + 8, prefix, cs + 8, le);
    bytes::lemma_u32_same(after, cs + 12, prefix, cs + 12, le);
    if info.is_64bit {
        bytes::lemma_u64_same(after, change.linkedit + 48, prefix, change.linkedit + 48, le);
    } else {
        bytes::lemma_u32_same(after, change.linkedit + 36, prefix, change.linkedit + 36, le);
    }
}

/// The load commands of a rewritten binary, but for an inserted one.
proof fn lemma_walk_again(
    data: Seq<u8>,
    after: Seq<u8>,
    info: LoadInfo,
    layout: LayoutView,
    start: LoadInfo,
    end: int,
    last: LoadInfo,
)
    requires
        info.wf(),
        regular(data),
        macho::walk(data) == Ok::<(int, LoadInfo), ErrorView>((end, last)),
        info == macho::with_padding_bound(last),
        macho::located(data, info.little_endian, info.commands_end(), info),
        info.linkedit is Some,
        info.commands_end() <= data.len(),
        info.prefix_len() <= after.len(),
        macho::same_header(info, start),
        start.codesig is None,
        start.linkedit is None,
        macho::after_commands(
            data,
            info.little_endian,
            info.commands_end(),
            info.header_size as int,
            info.ncmds as nat,
            start,
        ) == Ok::<(int, LoadInfo), ErrorView>((end, last)),
        agree(data, after, change_of(info, layout), 24, info.commands_end()),
        change_of(info, layout).done(after, info.little_endian, info.prefix_len()),
    ensures
        macho::after_commands(
            after,
            info.little_endian,
            info.prefix_len(),
            info.header_size as int,
            info.ncmds as nat,
            change_of(info, layout).apply(start),
        ) == Ok::<(int, LoadInfo), ErrorView>((end, change_of(info, layout).apply(last))),
{
    let change = change_of(info, layout);
    lemma_commands_change(
        data,
        after,
        info.little_endian,
        info.commands_end(),
        info.prefix_len(),
        info.header_size as int,
        info.ncmds as nat,
        start,
        change,
    );
}

/// A walk through the load commands gives the record of the binary.
proof fn lemma_record_of_walk(
    data: Seq<u8>,
    kind: macho::MachOKind,
    sizeofcmds: usize,
    end: int,
    last: LoadInfo,
)
    requires
        macho::header(data) == Ok::<(macho::MachOKind, usize), ErrorView>((kind, sizeofcmds)),
        kind.thin(),
        kind.header_len() + sizeofcmds <= data.len(),
        sizeofcmds <= macho::MAX_SIZEOFCMDS,
        macho::after_commands(
            data,
            kind.is_le(),
            kind.header_len() + sizeofcmds,
            kind.header_len(),
            macho::header_info(data, kind, sizeofcmds).ncmds as nat,
            macho::header_info(data, kind, sizeofcmds),
        ) == Ok::<(int, LoadInfo), ErrorView>((end, last)),
    ensures
        macho::load_info(data) == Ok::<LoadInfo, ErrorView>(macho::with_padding_bound(last)),
{
    reveal(macho::load_info);
}

/// The record of a binary comes from a walk through its load commands.
pub proof fn lemma_walk_of_record(data: Seq<u8>, info: LoadInfo)
    requires
        macho::load_info(data) == Ok::<LoadInfo, ErrorView>(info),
    ensures
        macho::walk(data) is Ok,
        ({
            let (end, last) = macho::walk(data)->Ok_0;
            let (kind, sizeofcmds) = macho::header(data)->Ok_0;
            let start = macho::header_info(data, kind, sizeofcmds);
            &&& info == macho::with_padding_bound(last)
            &&& kind.header_len() == info.header_size
            &&& kind.is_le() == info.little_endian
            &&& macho::same_header(info, start)
            &&& macho::after_commands(
                data,
                info.little_endian,
                info.commands_end(),
                info.header_size as int,
                info.ncmds as nat,
                start,
            ) == Ok::<(int, LoadInfo), ErrorView>((end, last))
        }),
{
    reveal(macho::load_info);
    macho::lemma_load_info(data, info);
    let (kind, sizeofcmds) = macho::header(data)->Ok_0;
    let start = macho::header_info(data, kind, sizeofcmds);
    macho::lemma_commands_located(
        data,
        kind.is_le(),
        start.commands_end(),
        kind.header_len(),
        start.ncmds as nat,
        start,
    );
}

/// The inserted command comes after the others.
proof fn lemma_inserted_command(
    after: Seq<u8>,
    info: LoadInfo,
    layout: LayoutView,
    last: LoadInfo,
)
    requires
        info.wf(),
        info.codesig is None,
        info.linkedit is Some,
        info == macho::with_padding_bound(last),
        info.prefix_len() <= after.len(),
        change_of(info, layout).done(after, info.little_endian, info.prefix_len()),
        bytes::u32_at(after, info.commands_end(), info.little_endian)
            == macho::LC_CODE_SIGNATURE,
        bytes::u32_at(after, info.commands_end() + 4, info.little_endian) == 16,
    ensures
        ({
            let changed = change_of(info, layout).apply(last);
            macho::after_command(
                after,
                info.little_endian,
                info.prefix_len(),
                info.commands_end(),
                changed,
            ) == Ok::<(int, LoadInfo), ErrorView>(
                (16, LoadInfo { codesig: signed_info(info, layout).codesig, ..changed }),
            )
        }),
{
}

/// What the load commands of a rewritten binary say.
#[verifier::spinoff_prover]
#[verifier::rlimit(50)]
pub proof fn lemma_reparse(
    data: Seq<u8>,
    prefix: Seq<u8>,
    after: Seq<u8>,
    info: LoadInfo,
    layout: LayoutView,
)
    requires
        macho::load_info(data) == Ok::<LoadInfo, ErrorView>(info),
        regular(data),
        info.linkedit is Some,
        rewritten(data, prefix, info, layout),
        info.prefix_len() <= data.len(),
        info.prefix_len() <= after.len(),
        forall|i: int| 0 <= i < info.prefix_len() ==> #[trigger] after[i] == prefix[i],
    ensures
        macho::load_info(after) == Ok::<LoadInfo, ErrorView>(signed_info(info, layout)),
{
    macho::lemma_load_info(data, info);
    lemma_walk_of_record(data, info);
    lemma_header_again(data, prefix, after, info, layout);
    lemma_done(data, prefix, after, info, layout);
    let change = change_of(info, layout);
    let (kind, sizeofcmds) = macho::header(data)->Ok_0;
    let start = macho::header_info(data, kind, sizeofcmds);
    let (end, last) = macho::walk(data)->Ok_0;
    lemma_walk_again(data, after, info, layout, start, end, last);
    let changed = change.apply(last);
    if info.codesig is None {
        lemma_inserted_command(after, info, layout, last);
        lemma_one_more_command(
            after,
            info.little_endian,
            info.prefix_len(),
            info.header_size as int,
            info.ncmds as nat,
            change.apply(start),
        );
        let next = LoadInfo { codesig: signed_info(info, layout).codesig, ..changed };
        lemma_record_of_walk(after, kind, change.sizeofcmds, end + 16, next);
        assert(macho::with_padding_bound(next) == signed_info(info, layout));
    } else {
        lemma_record_of_walk(after, kind, change.sizeofcmds, end, changed);
        assert(macho::with_padding_bound(changed) == signed_info(info, layout));
    }
}

/// No change at all.
spec fn no_change(b: Seq<u8>, le: bool, info: LoadInfo) -> Change {
    Change {
        codesig: -100,
        data_offset: bytes::u32_at(b, -92, le),
        data_size: bytes::u32_at(b, -88, le),
        linkedit: -200,
        is_64bit: true,
        filesize: macho::segment_filesize(b, -200, true, le),
        vmsize: 0,
        ncmds: info.ncmds,
        sizeofcmds: info.sizeofcmds,
    }
}

/// The same load command says the same.
proof fn lemma_command_same(
    a: Seq<u8>,
    b: Seq<u8>,
    le: bool,
    cmds_end: int,
    offset: int,
    info: LoadInfo,
)
    requires
        0 <= offset <= cmds_end,
        cmds_end <= u32::MAX,
        cmds_end <= a.len(),
        cmds_end <= b.len(),
        forall|i: int| 0 <= i < cmds_end ==> #[trigger] a[i] == b[i],
        info.codesig matches Some(codesig) ==> codesig.cmd_offset < offset,
        info.linkedit matches Some(linkedit) ==> linkedit.cmd_offset < offset,
        macho::after_command(a, le, cmds_end, offset, info) is Ok,
    ensures
        macho::after_command(b, le, cmds_end, offset, info) == macho::after_command(
            a,
            le,
            cmds_end,
            offset,
            info,
        ),
        ({
            let (size, next) = macho::after_command(a, le, cmds_end, offset, info)->Ok_0;
            &&& 8 <= size <= cmds_end - offset
            &&& next.codesig matches Some(codesig) ==> codesig.cmd_offset < offset + size
            &&& next.linkedit matches Some(linkedit) ==> linkedit.cmd_offset < offset + size
        }),
{
    let (size, next) = macho::after_command(a, le, cmds_end, offset, info)->Ok_0;
    let change = no_change(b, le, info);
    assert(agree(a, b, change, offset, offset + size));
    lemma_command_change(a, b, le, cmds_end, cmds_end, offset, info, change);
    assert(change.apply(info) == info);
    assert(change.apply(next) == next);
}

/// The same load commands say the same.
proof fn lemma_commands_same(
    a: Seq<u8>,
    b: Seq<u8>,
    le: bool,
    cmds_end: int,
    offset: int,
    remaining: nat,
    info: LoadInfo,
)
    requires
        0 <= offset <= cmds_end,
        cmds_end <= u32::MAX,
        cmds_end <= a.len(),
        cmds_end <= b.len(),
        forall|i: int| 0 <= i < cmds_end ==> #[trigger] a[i] == b[i],
        info.codesig matches Some(codesig) ==> codesig.cmd_offset < offset,
        info.linkedit matches Some(linkedit) ==> linkedit.cmd_offset < offset,
        macho::after_commands(a, le, cmds_end, offset, remaining, info) is Ok,
    ensures
        macho::after_commands(b, le, cmds_end, offset, remaining, info)
            == macho::after_commands(a, le, cmds_end, offset, remaining, info),
    decreases remaining,
{
    if remaining > 0 {
        let (size, next) = macho::after_command(a, le, cmds_end, offset, info)->Ok_0;
        lemma_command_same(a, b, le, cmds_end, offset, info);
        lemma_commands_same(a, b, le, cmds_end, offset + size, (remaining - 1) as nat, next);
    }
}

/// The record of a binary depends on its header and load commands alone.
#[verifier::spinoff_prover]
#[verifier::rlimit(50)]
pub proof fn lemma_record_of_prefix(a: Seq<u8>, b: Seq<u8>, info: LoadInfo)
    requires
        macho::load_info(a) == Ok::<LoadInfo, ErrorView>(info),
        info.commands_end() <= b.len(),
        forall|i: int| 0 <= i < info.commands_end() ==> #[trigger] a[i] == b[i],
    ensures
        macho::load_info(b) == Ok::<LoadInfo, ErrorView>(info),
{
    macho::lemma_load_info(a, info);
    lemma_walk_of_record(a, info);
    let (kind, sizeofcmds) = macho::header(a)->Ok_0;
    let start = macho::header_info(a, kind, sizeofcmds);
    let (end, last) = macho::walk(a)->Ok_0;
    bytes::lemma_u32_same(a, 0, b, 0, true);
    bytes::lemma_u32_same(a, 0, b, 0, false);
    bytes::lemma_u32_same(a, 12, b, 12, info.little_endian);
    bytes::lemma_u32_same(a, 16, b, 16, info.little_endian);
    bytes::lemma_u32_same(a, 20, b, 20, info.little_endian);
    lemma_commands_same(
        a,
        b,
        info.little_endian,
        info.commands_end(),
        info.header_size as int,
        info.ncmds as nat,
        start,
    );
    lemma_record_of_walk(b, kind, sizeofcmds, end, last);
}

} // verus!
