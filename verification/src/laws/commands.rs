//! What the load commands of a binary say, told from its bytes.

use crate::bytes;
use crate::error::ErrorView;
use crate::macho;
use crate::macho::{CodeSigCmd, LinkeditCmd, LoadInfo, MachOKind};
use crate::text;
use vstd::prelude::*;

verus! {

/// The size of a Mach-O header.
pub open spec fn header_len(is_64bit: bool) -> int {
    if is_64bit {
        32
    } else {
        28
    }
}

/// Whether `data` starts with the magic number of a thin binary of the given
/// word size and byte order.
pub open spec fn has_magic(data: Seq<u8>, is_64bit: bool, le: bool) -> bool {
    let low: int = if is_64bit {
        0xcf
    } else {
        0xce
    };
    &&& data.len() >= 4
    &&& le ==> data[0] == low && data[1] == 0xfa && data[2] == 0xed && data[3] == 0xfe
    &&& !le ==> data[0] == 0xfe && data[1] == 0xed && data[2] == 0xfa && data[3] == low
}

/// Whether `data` starts with the header of a thin binary of the given word
/// size and byte order.
pub open spec fn starts_thin(data: Seq<u8>, is_64bit: bool, le: bool) -> bool {
    has_magic(data, is_64bit, le) && data.len() >= header_len(is_64bit)
}

/// Where the command with the given number stands if the first one stands at
/// `first`: every command is followed by the next.
pub open spec fn command_at(data: Seq<u8>, le: bool, first: int, k: nat) -> int
    decreases k,
{
    if k == 0 {
        first
    } else {
        command_at(data, le, first + bytes::u32_at(data, first + 4, le), (k - 1) as nat)
    }
}

/// How many sections the command at `at` describes.
pub open spec fn section_count(data: Seq<u8>, le: bool, at: int) -> int {
    if bytes::u32_at(data, at, le) == 0x19 {
        bytes::u32_at(data, at + 64, le) as int
    } else if bytes::u32_at(data, at, le) == 0x1 {
        bytes::u32_at(data, at + 48, le) as int
    } else {
        0
    }
}

/// The file offset of a section that the command at `at` describes.
pub open spec fn section_offset(data: Seq<u8>, le: bool, at: int, j: int) -> int {
    if bytes::u32_at(data, at, le) == 0x19 {
        bytes::u32_at(data, at + 72 + j * 80 + 48, le) as int
    } else {
        bytes::u32_at(data, at + 56 + j * 68 + 40, le) as int
    }
}

/// Whether the command at `at` has room for what it holds and lies before
/// `end`.
pub open spec fn well_sized(data: Seq<u8>, le: bool, end: int, at: int) -> bool {
    let cmd = bytes::u32_at(data, at, le);
    let size = bytes::u32_at(data, at + 4, le);
    &&& size >= 8
    &&& at + size <= end
    &&& cmd == 0x1d ==> size >= 16
    &&& cmd == 0x19 ==> size >= 72 + section_count(data, le, at) * 80
    &&& cmd == 0x1 ==> size >= 56 + section_count(data, le, at) * 68
}

/// Whether the header and the load commands of a binary can be read.
pub open spec fn readable(data: Seq<u8>, is_64bit: bool, le: bool) -> bool {
    let end = header_len(is_64bit) + bytes::u32_at(data, 20, le);
    &&& starts_thin(data, is_64bit, le)
    &&& bytes::u32_at(data, 20, le) <= 0x100_0000
    &&& end <= data.len()
    &&& forall|k: nat|
        k < bytes::u32_at(data, 16, le) ==> well_sized(
            data,
            le,
            end,
            #[trigger] command_at(data, le, header_len(is_64bit), k),
        )
}

/// What kind of command is looked for.
pub ghost enum Wanted {
    /// The place of the signature.
    Signature,
    /// A segment with the given name.
    Segment(Seq<u8>),
}

/// Whether the 16 bytes of the segment name at `at` are `name` and zeros.
pub open spec fn named(data: Seq<u8>, at: int, name: Seq<u8>) -> bool {
    data.subrange(at + 8, at + 24) == name + bytes::zeros((16 - name.len()) as nat)
}

/// Whether the command at `at` is looked for.
pub open spec fn is_wanted(data: Seq<u8>, le: bool, at: int, wanted: Wanted) -> bool {
    let cmd = bytes::u32_at(data, at, le);
    match wanted {
        Wanted::Signature => cmd == 0x1d,
        Wanted::Segment(name) => (cmd == 0x19 || cmd == 0x1) && named(data, at, name),
    }
}

/// Whether none of `count` commands is looked for.
pub open spec fn is_missing(
    data: Seq<u8>,
    le: bool,
    first: int,
    count: nat,
    wanted: Wanted,
) -> bool {
    forall|k: nat|
        k < count ==> !is_wanted(data, le, #[trigger] command_at(data, le, first, k), wanted)
}

/// Whether the command with the number `k` is the last of `count` commands
/// that is looked for.
pub open spec fn is_last(
    data: Seq<u8>,
    le: bool,
    first: int,
    count: nat,
    wanted: Wanted,
    k: nat,
) -> bool {
    &&& k < count
    &&& is_wanted(data, le, command_at(data, le, first, k), wanted)
    &&& forall|j: nat|
        k < j < count ==> !is_wanted(data, le, #[trigger] command_at(data, le, first, j), wanted)
}

/// Where a segment command at `at` says that its segment starts in the file.
pub open spec fn fileoff_at(data: Seq<u8>, le: bool, at: int) -> int {
    if bytes::u32_at(data, at, le) == 0x19 {
        bytes::u64_at(data, at + 40, le) as int
    } else {
        bytes::u32_at(data, at + 32, le) as int
    }
}

/// How many bytes of the file a segment command at `at` says that its segment
/// takes.
pub open spec fn filesize_at(data: Seq<u8>, le: bool, at: int) -> int {
    if bytes::u32_at(data, at, le) == 0x19 {
        bytes::u64_at(data, at + 48, le) as int
    } else {
        bytes::u32_at(data, at + 36, le) as int
    }
}

/// Whether `found` is what the command at `at` says of the signature.
pub open spec fn is_signature_at(data: Seq<u8>, le: bool, at: int, found: CodeSigCmd) -> bool {
    &&& found.cmd_offset == at
    &&& found.data_offset == bytes::u32_at(data, at + 8, le)
    &&& found.data_size == bytes::u32_at(data, at + 12, le)
}

/// Whether `found` is what the command at `at` says of `__LINKEDIT`.
pub open spec fn is_linkedit_at(data: Seq<u8>, le: bool, at: int, found: LinkeditCmd) -> bool {
    &&& found.cmd_offset == at
    &&& found.fileoff == fileoff_at(data, le, at)
    &&& found.filesize == filesize_at(data, le, at)
}

/// `__LINKEDIT`.
pub open spec fn linkedit() -> Wanted {
    Wanted::Segment(seq![0x5f, 0x5f, 0x4c, 0x49, 0x4e, 0x4b, 0x45, 0x44, 0x49, 0x54])
}

/// `__TEXT`.
pub open spec fn text_segment() -> Wanted {
    Wanted::Segment(seq![0x5f, 0x5f, 0x54, 0x45, 0x58, 0x54])
}

/// No section that `count` commands describe has a file offset other than
/// zero.
pub open spec fn no_section(data: Seq<u8>, le: bool, first: int, count: nat) -> bool {
    forall|k: nat, j: int|
        #![trigger section_offset(data, le, command_at(data, le, first, k), j)]
        k < count && 0 <= j < section_count(data, le, command_at(data, le, first, k))
            ==> section_offset(data, le, command_at(data, le, first, k), j) == 0
}

/// The smallest file offset other than zero of the sections that `count`
/// commands describe is `least`.
pub open spec fn first_section(
    data: Seq<u8>,
    le: bool,
    first: int,
    count: nat,
    least: int,
) -> bool {
    &&& exists|k: nat, j: int|
        #![trigger section_offset(data, le, command_at(data, le, first, k), j)]
        k < count && 0 <= j < section_count(data, le, command_at(data, le, first, k))
            && section_offset(data, le, command_at(data, le, first, k), j) == least
    &&& least != 0
    &&& forall|k: nat, j: int|
        #![trigger section_offset(data, le, command_at(data, le, first, k), j)]
        k < count && 0 <= j < section_count(data, le, command_at(data, le, first, k)) ==> {
            let offset = section_offset(data, le, command_at(data, le, first, k), j);
            offset == 0 || least <= offset
        }
}

/// A name field that is `name` without its padding.
proof fn lemma_trimmed(field: Seq<u8>, name: Seq<u8>)
    requires
        name.len() > 0,
        name.last() != 0,
    ensures
        text::trim_nul(field) == name <==> field.len() >= name.len() && field == name
            + bytes::zeros((field.len() - name.len()) as nat),
    decreases field.len(),
{
    if field.len() > 0 && field.last() == 0 {
        let rest = field.drop_last();
        lemma_trimmed(rest, name);
        if field.len() >= name.len() && field == name + bytes::zeros(
            (field.len() - name.len()) as nat,
        ) {
            assert(field.len() > name.len()) by {
                if field.len() == name.len() {
                    assert(field =~= name);
                }
            }
            assert(rest =~= name + bytes::zeros((rest.len() - name.len()) as nat));
        }
        if text::trim_nul(field) == name {
            assert(field =~= rest.push(0u8));
            assert(field =~= name + bytes::zeros((field.len() - name.len()) as nat));
        }
    } else {
        if field == name {
            assert(field =~= name + bytes::zeros(0));
        }
        if field.len() >= name.len() && field == name + bytes::zeros(
            (field.len() - name.len()) as nat,
        ) {
            if field.len() > name.len() {
                assert(field.last() == 0);
            }
            assert(field =~= name);
        }
    }
}

/// The names that are looked for.
proof fn lemma_names(data: Seq<u8>, at: int)
    requires
        0 <= at,
        at + 24 <= data.len(),
    ensures
        (text::trim_nul(macho::segment_name(data, at)) == macho::linkedit_name()) == named(
            data,
            at,
            linkedit()->Segment_0,
        ),
        (text::trim_nul(macho::segment_name(data, at)) == macho::text_name()) == named(
            data,
            at,
            text_segment()->Segment_0,
        ),
{
    let field = macho::segment_name(data, at);
    lemma_trimmed(field, linkedit()->Segment_0);
    lemma_trimmed(field, text_segment()->Segment_0);
}

/// The least of some file offsets.
proof fn lemma_least(data: Seq<u8>, le: bool, at: int, stride: int, count: nat, least: u64)
    ensures
        ({
            let found = macho::least_offset(data, le, at, stride, count, least);
            &&& found <= least
            &&& forall|j: int|
                0 <= j < count ==> {
                    let offset = #[trigger] bytes::u32_at(data, at + j * stride, le);
                    offset == 0 || found <= offset
                }
            &&& found == least || exists|j: int|
                0 <= j < count && #[trigger] bytes::u32_at(data, at + j * stride, le) == found
                    && found != 0
        }),
    decreases count,
{
    if count > 0 {
        let here = bytes::u32_at(data, at, le) as u64;
        let next = if 0 < here < least {
            here
        } else {
            least
        };
        let rest = (count - 1) as nat;
        let found = macho::least_offset(data, le, at + stride, stride, rest, next);
        lemma_least(data, le, at + stride, stride, rest, next);
        assert(at + 0 * stride == at);
        assert forall|j: int| 0 <= j < count implies {
            let offset = #[trigger] bytes::u32_at(data, at + j * stride, le);
            offset == 0 || found <= offset
        } by {
            if j > 0 {
                assert(at + j * stride == at + stride + (j - 1) * stride) by (nonlinear_arith);
                assert(bytes::u32_at(data, at + stride + (j - 1) * stride, le) == bytes::u32_at(
                    data,
                    at + j * stride,
                    le,
                ));
            }
        }
        if found != least {
            if found == next {
                assert(bytes::u32_at(data, at + 0 * stride, le) == found);
            } else {
                let j = choose|j: int|
                    0 <= j < rest && #[trigger] bytes::u32_at(
                        data,
                        at + stride + j * stride,
                        le,
                    ) == found && found != 0;
                assert(at + (j + 1) * stride == at + stride + j * stride) by (nonlinear_arith);
                assert(bytes::u32_at(data, at + (j + 1) * stride, le) == found);
            }
        }
    }
}

/// The sections of one command.
pub open spec fn sections_told(
    data: Seq<u8>,
    le: bool,
    at: int,
    before: LoadInfo,
    after: LoadInfo,
) -> bool {
    &&& after.first_section_offset <= before.first_section_offset
    &&& forall|j: int|
        0 <= j < section_count(data, le, at) ==> {
            let offset = #[trigger] section_offset(data, le, at, j);
            offset == 0 || after.first_section_offset <= offset
        }
    &&& after.first_section_offset == before.first_section_offset || exists|j: int|
        0 <= j < section_count(data, le, at) && #[trigger] section_offset(data, le, at, j)
            == after.first_section_offset && after.first_section_offset != 0
}

/// What one command adds to a record.
pub open spec fn command_told(
    data: Seq<u8>,
    le: bool,
    at: int,
    before: LoadInfo,
    after: LoadInfo,
) -> bool {
    &&& macho::same_header(before, after)
    &&& if is_wanted(data, le, at, Wanted::Signature) {
        after.codesig matches Some(found) && is_signature_at(data, le, at, found)
    } else {
        after.codesig == before.codesig
    }
    &&& if is_wanted(data, le, at, linkedit()) {
        after.linkedit matches Some(found) && is_linkedit_at(data, le, at, found)
    } else {
        after.linkedit == before.linkedit
    }
    &&& if is_wanted(data, le, at, text_segment()) {
        after.text_fileoff == fileoff_at(data, le, at) && after.text_filesize == filesize_at(
            data,
            le,
            at,
        )
    } else {
        after.text_fileoff == before.text_fileoff && after.text_filesize == before.text_filesize
    }
    &&& sections_told(data, le, at, before, after)
}

/// The sections of a segment command.
proof fn lemma_sections(
    data: Seq<u8>,
    le: bool,
    at: int,
    is_64bit: bool,
    before: LoadInfo,
    after: LoadInfo,
)
    requires
        bytes::u32_at(data, at, le) == (if is_64bit {
            0x19u32
        } else {
            0x1
        }),
        after.first_section_offset == macho::least_offset(
            data,
            le,
            at + macho::section_field(is_64bit),
            macho::section_len(is_64bit),
            section_count(data, le, at) as nat,
            before.first_section_offset,
        ),
    ensures
        sections_told(data, le, at, before, after),
{
    let field = at + macho::section_field(is_64bit);
    let stride = macho::section_len(is_64bit);
    let count = section_count(data, le, at);
    let least = after.first_section_offset;
    lemma_least(data, le, field, stride, count as nat, before.first_section_offset);
    assert forall|j: int| 0 <= j < count implies {
        let offset = #[trigger] section_offset(data, le, at, j);
        offset == 0 || least <= offset
    } by {
        assert(bytes::u32_at(data, field + j * stride, le) == section_offset(data, le, at, j));
    }
    if least != before.first_section_offset {
        let j = choose|j: int|
            0 <= j < count && #[trigger] bytes::u32_at(data, field + j * stride, le) == least
                && least != 0;
        assert(section_offset(data, le, at, j) == least);
    }
}

/// One command is read where it is well-sized, and adds what it says.
#[verifier::rlimit(30)]
proof fn lemma_command_told(data: Seq<u8>, le: bool, end: int, at: int, info: LoadInfo)
    requires
        0 <= at,
        end <= data.len(),
        end <= u32::MAX,
    ensures
        macho::after_command(data, le, end, at, info) is Ok == well_sized(data, le, end, at),
        macho::after_command(data, le, end, at, info) matches Ok((size, next)) ==> size
            == bytes::u32_at(data, at + 4, le) && command_told(data, le, at, info, next),
{
    if well_sized(data, le, end, at) {
        let cmd = bytes::u32_at(data, at, le);
        if cmd == 0x19 || cmd == 0x1 {
            lemma_names(data, at);
            assert(linkedit()->Segment_0 != text_segment()->Segment_0) by {
                assert(linkedit()->Segment_0.len() != text_segment()->Segment_0.len());
            }
            let (size, next) = macho::after_command(data, le, end, at, info)->Ok_0;
            lemma_sections(data, le, at, cmd == 0x19, info, next);
        }
    }
}

/// What `count` commands add to a record: the last command of each kind
/// counts, and the least section.
pub open spec fn commands_told(
    data: Seq<u8>,
    le: bool,
    first: int,
    count: nat,
    before: LoadInfo,
    after: LoadInfo,
) -> bool {
    &&& macho::same_header(before, after)
    &&& is_missing(data, le, first, count, Wanted::Signature) ==> after.codesig == before.codesig
    &&& forall|k: nat| #[trigger]
        is_last(data, le, first, count, Wanted::Signature, k) ==> (after.codesig matches Some(
            found,
        ) && is_signature_at(data, le, command_at(data, le, first, k), found))
    &&& is_missing(data, le, first, count, linkedit()) ==> after.linkedit == before.linkedit
    &&& forall|k: nat| #[trigger]
        is_last(data, le, first, count, linkedit(), k) ==> (after.linkedit matches Some(found)
            && is_linkedit_at(data, le, command_at(data, le, first, k), found))
    &&& is_missing(data, le, first, count, text_segment()) ==> after.text_fileoff
        == before.text_fileoff && after.text_filesize == before.text_filesize
    &&& forall|k: nat| #[trigger]
        is_last(data, le, first, count, text_segment(), k) ==> after.text_fileoff == fileoff_at(
            data,
            le,
            command_at(data, le, first, k),
        ) && after.text_filesize == filesize_at(data, le, command_at(data, le, first, k))
    &&& after.first_section_offset <= before.first_section_offset
    &&& forall|k: nat, j: int|
        #![trigger section_offset(data, le, command_at(data, le, first, k), j)]
        k < count && 0 <= j < section_count(data, le, command_at(data, le, first, k)) ==> {
            let offset = section_offset(data, le, command_at(data, le, first, k), j);
            offset == 0 || after.first_section_offset <= offset
        }
    &&& after.first_section_offset == before.first_section_offset || exists|k: nat, j: int|
        #![trigger section_offset(data, le, command_at(data, le, first, k), j)]
        k < count && 0 <= j < section_count(data, le, command_at(data, le, first, k))
            && section_offset(data, le, command_at(data, le, first, k), j)
            == after.first_section_offset && after.first_section_offset != 0
}

/// Where one command is followed by others, what is looked for is it or one
/// of the others.
proof fn lemma_shift(data: Seq<u8>, le: bool, first: int, count: nat, wanted: Wanted)
    requires
        count > 0,
    ensures
        ({
            let second = first + bytes::u32_at(data, first + 4, le);
            let rest = (count - 1) as nat;
            &&& is_missing(data, le, first, count, wanted) == (!is_wanted(data, le, first, wanted)
                && is_missing(data, le, second, rest, wanted))
            &&& is_last(data, le, first, count, wanted, 0) == (is_wanted(data, le, first, wanted)
                && is_missing(data, le, second, rest, wanted))
            &&& forall|k: nat|
                k > 0 && #[trigger] is_last(data, le, first, count, wanted, k) ==> is_last(
                    data,
                    le,
                    second,
                    rest,
                    wanted,
                    (k - 1) as nat,
                )
            &&& forall|k: nat| #[trigger]
                is_last(data, le, second, rest, wanted, k) ==> is_last(
                    data,
                    le,
                    first,
                    count,
                    wanted,
                    k + 1,
                )
        }),
{
    let second = first + bytes::u32_at(data, first + 4, le);
    let rest = (count - 1) as nat;
    assert forall|k: nat| k > 0 implies #[trigger] command_at(data, le, first, k) == command_at(
        data,
        le,
        second,
        (k - 1) as nat,
    ) by {}
    assert forall|k: nat| #[trigger] command_at(data, le, second, k) == command_at(
        data,
        le,
        first,
        k + 1,
    ) by {}
    assert(command_at(data, le, first, 0) == first);
}

/// A command and those that follow it tell what they tell one by one.
proof fn lemma_told_together(
    data: Seq<u8>,
    le: bool,
    first: int,
    count: nat,
    before: LoadInfo,
    mid: LoadInfo,
    after: LoadInfo,
)
    requires
        count > 0,
        command_told(data, le, first, before, mid),
        commands_told(
            data,
            le,
            first + bytes::u32_at(data, first + 4, le),
            (count - 1) as nat,
            mid,
            after,
        ),
    ensures
        commands_told(data, le, first, count, before, after),
{
    let second = first + bytes::u32_at(data, first + 4, le);
    let rest = (count - 1) as nat;
    lemma_shift(data, le, first, count, Wanted::Signature);
    lemma_shift(data, le, first, count, linkedit());
    lemma_shift(data, le, first, count, text_segment());
    assert(command_at(data, le, first, 0) == first);
    assert forall|k: nat| k > 0 implies #[trigger] command_at(data, le, first, k) == command_at(
        data,
        le,
        second,
        (k - 1) as nat,
    ) by {}
    let least = after.first_section_offset;
    assert forall|k: nat, j: int|
        #![trigger section_offset(data, le, command_at(data, le, first, k), j)]
        k < count && 0 <= j < section_count(data, le, command_at(data, le, first, k)) implies {
        let offset = section_offset(data, le, command_at(data, le, first, k), j);
        offset == 0 || least <= offset
    } by {
        if k > 0 {
            let offset = section_offset(data, le, command_at(data, le, second, (k - 1) as nat), j);
            assert(offset == 0 || least <= offset);
        }
    }
    if least != before.first_section_offset {
        if least == mid.first_section_offset {
            let j = choose|j: int|
                0 <= j < section_count(data, le, first) && #[trigger] section_offset(
                    data,
                    le,
                    first,
                    j,
                ) == least && least != 0;
            assert(section_offset(data, le, command_at(data, le, first, 0), j) == least);
        } else {
            let (k, j) = choose|k: nat, j: int|
                #![trigger section_offset(data, le, command_at(data, le, second, k), j)]
                k < rest && 0 <= j < section_count(data, le, command_at(data, le, second, k))
                    && section_offset(data, le, command_at(data, le, second, k), j) == least
                    && least != 0;
            assert(command_at(data, le, first, k + 1) == command_at(data, le, second, k));
            assert(section_offset(data, le, command_at(data, le, first, k + 1), j) == least);
        }
    }
}

/// Commands are read one after the other where each is well-sized.
proof fn lemma_walk_told(
    data: Seq<u8>,
    le: bool,
    end: int,
    first: int,
    count: nat,
    info: LoadInfo,
)
    requires
        0 <= first,
        end <= data.len(),
        end <= u32::MAX,
    ensures
        macho::after_commands(data, le, end, first, count, info) is Ok == (forall|k: nat|
            k < count ==> well_sized(data, le, end, #[trigger] command_at(data, le, first, k))),
        macho::after_commands(data, le, end, first, count, info) matches Ok((_, next))
            ==> commands_told(data, le, first, count, info, next),
    decreases count,
{
    if count > 0 {
        let second = first + bytes::u32_at(data, first + 4, le);
        let rest = (count - 1) as nat;
        lemma_command_told(data, le, end, first, info);
        assert(command_at(data, le, first, 0) == first);
        if let Ok((size, mid)) = macho::after_command(data, le, end, first, info) {
            lemma_walk_told(data, le, end, second, rest, mid);
            assert forall|k: nat| k > 0 implies #[trigger] command_at(data, le, first, k)
                == command_at(data, le, second, (k - 1) as nat) by {}
            assert forall|k: nat| #[trigger] command_at(data, le, second, k) == command_at(
                data,
                le,
                first,
                k + 1,
            ) by {}
            if let Ok((_, next)) = macho::after_commands(data, le, end, first, count, info) {
                lemma_told_together(data, le, first, count, info, mid, next);
            }
        }
    }
}

/// Where something is not missing, there is a last one.
proof fn lemma_last(data: Seq<u8>, le: bool, first: int, count: nat, wanted: Wanted)
    ensures
        is_missing(data, le, first, count, wanted) || exists|k: nat| #[trigger]
            is_last(data, le, first, count, wanted, k),
    decreases count,
{
    if count > 0 {
        let second = first + bytes::u32_at(data, first + 4, le);
        let rest = (count - 1) as nat;
        lemma_shift(data, le, first, count, wanted);
        lemma_last(data, le, second, rest, wanted);
        if !is_missing(data, le, second, rest, wanted) {
            let k = choose|k: nat| #[trigger] is_last(data, le, second, rest, wanted, k);
            assert(is_last(data, le, first, count, wanted, k + 1));
        } else if is_wanted(data, le, first, wanted) {
            assert(is_last(data, le, first, count, wanted, 0));
        }
    }
}

/// Whether `data` starts with the four given bytes.
pub open spec fn starts_with(data: Seq<u8>, b0: u8, b1: u8, b2: u8, b3: u8) -> bool {
    &&& data.len() >= 4
    &&& data[0] == b0
    &&& data[1] == b1
    &&& data[2] == b2
    &&& data[3] == b3
}

/// The kind of a binary shows in its first four bytes: one of six magic
/// numbers, or the file is none of them.
pub proof fn law_kind_shows_in_four_bytes(data: Seq<u8>)
    ensures
        macho::kind_of(data) == (if starts_with(data, 0xcf, 0xfa, 0xed, 0xfe) {
            Some(MachOKind::Thin64 { little_endian: true })
        } else if starts_with(data, 0xfe, 0xed, 0xfa, 0xcf) {
            Some(MachOKind::Thin64 { little_endian: false })
        } else if starts_with(data, 0xce, 0xfa, 0xed, 0xfe) {
            Some(MachOKind::Thin32 { little_endian: true })
        } else if starts_with(data, 0xfe, 0xed, 0xfa, 0xce) {
            Some(MachOKind::Thin32 { little_endian: false })
        } else if starts_with(data, 0xca, 0xfe, 0xba, 0xbe) {
            Some(MachOKind::Fat)
        } else if starts_with(data, 0xca, 0xfe, 0xba, 0xbf) {
            Some(MachOKind::Fat64)
        } else {
            None
        }),
{
    if data.len() >= 4 {
        bytes::lemma_split4(data[0], data[1], data[2], data[3]);
        bytes::lemma_split4(data[3], data[2], data[1], data[0]);
    }
}

/// The last command for the signature is the one that counts.
pub open spec fn signature_told(
    data: Seq<u8>,
    le: bool,
    first: int,
    count: nat,
    codesig: Option<CodeSigCmd>,
) -> bool {
    match codesig {
        Some(found) => exists|k: nat| #[trigger]
            is_last(data, le, first, count, Wanted::Signature, k) && is_signature_at(
                data,
                le,
                command_at(data, le, first, k),
                found,
            ),
        None => is_missing(data, le, first, count, Wanted::Signature),
    }
}

/// The last segment named `__LINKEDIT` is the one that counts.
pub open spec fn linkedit_told(
    data: Seq<u8>,
    le: bool,
    first: int,
    count: nat,
    segment: Option<LinkeditCmd>,
) -> bool {
    match segment {
        Some(found) => exists|k: nat| #[trigger]
            is_last(data, le, first, count, linkedit(), k) && is_linkedit_at(
                data,
                le,
                command_at(data, le, first, k),
                found,
            ),
        None => is_missing(data, le, first, count, linkedit()),
    }
}

/// The last segment named `__TEXT` is the one that counts.
pub open spec fn text_told(
    data: Seq<u8>,
    le: bool,
    first: int,
    count: nat,
    fileoff: u64,
    filesize: u64,
) -> bool {
    if is_missing(data, le, first, count, text_segment()) {
        fileoff == 0 && filesize == 0
    } else {
        exists|k: nat| #[trigger]
            is_last(data, le, first, count, text_segment(), k) && fileoff == fileoff_at(
                data,
                le,
                command_at(data, le, first, k),
            ) && filesize == filesize_at(data, le, command_at(data, le, first, k))
    }
}

/// Room for another command ends where the first section starts that is in
/// the file. Where there is none, it ends where `__LINKEDIT` starts.
pub open spec fn room_told(
    data: Seq<u8>,
    le: bool,
    first: int,
    count: nat,
    segment: Option<LinkeditCmd>,
    room: u64,
) -> bool {
    if no_section(data, le, first, count) {
        room == match segment {
            Some(found) => found.fileoff as int,
            None => first + bytes::u32_at(data, 20, le),
        }
    } else {
        first_section(data, le, first, count, room as int)
    }
}

/// What the record of a binary says of its header and its load commands.
pub open spec fn record_tells(data: Seq<u8>, info: LoadInfo) -> bool {
    let le = info.little_endian;
    let first = header_len(info.is_64bit);
    let count = bytes::u32_at(data, 16, le) as nat;
    &&& info.header_size == first
    &&& info.ncmds == count
    &&& info.sizeofcmds == bytes::u32_at(data, 20, le)
    &&& info.is_executable == (bytes::u32_at(data, 12, le) == 2)
    &&& signature_told(data, le, first, count, info.codesig)
    &&& linkedit_told(data, le, first, count, info.linkedit)
    &&& text_told(data, le, first, count, info.text_fileoff, info.text_filesize)
    &&& room_told(data, le, first, count, info.linkedit, info.first_section_offset)
}

/// The load commands of a thin binary of the given class.
#[verifier::rlimit(30)]
proof fn lemma_thin(data: Seq<u8>, is_64bit: bool, le: bool)
    requires
        starts_thin(data, is_64bit, le),
    ensures
        macho::load_info(data) is Ok == readable(data, is_64bit, le),
        macho::load_info(data) matches Ok(info) ==> info.is_64bit == is_64bit
            && info.little_endian == le && record_tells(data, info),
{
    reveal(macho::load_info);
    law_kind_shows_in_four_bytes(data);
    let first = header_len(is_64bit);
    let count = bytes::u32_at(data, 16, le) as nat;
    let end = first + bytes::u32_at(data, 20, le);
    if let Ok((kind, sizeofcmds)) = macho::header(data) {
        if end <= data.len() {
            let start = macho::header_info(data, kind, sizeofcmds);
            lemma_walk_told(data, le, end, first, count, start);
            if let Ok((_, raw)) = macho::walk(data) {
                lemma_record(data, start, raw);
            }
        }
    }
}

/// What is told of all commands is what the record tells.
proof fn lemma_record(data: Seq<u8>, start: LoadInfo, raw: LoadInfo)
    requires
        start.header_size == header_len(start.is_64bit),
        start.ncmds == bytes::u32_at(data, 16, start.little_endian),
        start.sizeofcmds == bytes::u32_at(data, 20, start.little_endian),
        start.is_executable == (bytes::u32_at(data, 12, start.little_endian) == 2),
        start.codesig is None,
        start.linkedit is None,
        start.text_fileoff == 0,
        start.text_filesize == 0,
        start.first_section_offset == u64::MAX,
        commands_told(
            data,
            start.little_endian,
            header_len(start.is_64bit),
            start.ncmds as nat,
            start,
            raw,
        ),
    ensures
        record_tells(data, macho::with_padding_bound(raw)),
{
    let le = start.little_endian;
    let first = header_len(start.is_64bit);
    let count = start.ncmds as nat;
    lemma_last(data, le, first, count, Wanted::Signature);
    lemma_last(data, le, first, count, linkedit());
    lemma_last(data, le, first, count, text_segment());
    lemma_room(data, le, first, count, start, raw);
    let info = macho::with_padding_bound(raw);
    assert(signature_told(data, le, first, count, info.codesig));
    assert(linkedit_told(data, le, first, count, info.linkedit));
    assert(text_told(data, le, first, count, info.text_fileoff, info.text_filesize));
    assert(room_told(data, le, first, count, info.linkedit, info.first_section_offset));
}

/// The least section, or none.
proof fn lemma_room(
    data: Seq<u8>,
    le: bool,
    first: int,
    count: nat,
    before: LoadInfo,
    after: LoadInfo,
)
    requires
        before.first_section_offset == u64::MAX,
        commands_told(data, le, first, count, before, after),
    ensures
        after.first_section_offset == u64::MAX ==> no_section(data, le, first, count),
        after.first_section_offset != u64::MAX ==> first_section(
            data,
            le,
            first,
            count,
            after.first_section_offset as int,
        ) && !no_section(data, le, first, count),
{
    let least = after.first_section_offset;
    if least != u64::MAX {
        let (k, j) = choose|k: nat, j: int|
            #![trigger section_offset(data, le, command_at(data, le, first, k), j)]
            k < count && 0 <= j < section_count(data, le, command_at(data, le, first, k))
                && section_offset(data, le, command_at(data, le, first, k), j) == least
                && least != 0;
        assert(section_offset(data, le, command_at(data, le, first, k), j) == least);
    } else {
        assert forall|k: nat, j: int|
            #![trigger section_offset(data, le, command_at(data, le, first, k), j)]
            k < count && 0 <= j < section_count(
                data,
                le,
                command_at(data, le, first, k),
            ) implies section_offset(data, le, command_at(data, le, first, k), j) == 0 by {
            let offset = section_offset(data, le, command_at(data, le, first, k), j);
            assert(offset == 0 || least <= offset);
        }
    }
}

/// The load commands of a file can be read exactly if it starts with the
/// header of a thin binary, holds all of its load commands, at most 16 MiB of
/// them, and each command lies among them with room for what it describes.
pub proof fn law_load_commands_are_read(data: Seq<u8>)
    ensures
        macho::load_info(data) is Ok == exists|is_64bit: bool, le: bool| #[trigger]
            readable(data, is_64bit, le),
{
    law_kind_shows_in_four_bytes(data);
    if macho::load_info(data) is Ok {
        let info = macho::load_info(data)->Ok_0;
        macho::lemma_load_info(data, info);
        assert(starts_thin(data, info.is_64bit, info.little_endian));
        lemma_thin(data, info.is_64bit, info.little_endian);
        assert(readable(data, info.is_64bit, info.little_endian));
    }
    if exists|is_64bit: bool, le: bool| #[trigger] readable(data, is_64bit, le) {
        let (is_64bit, le) = choose|is_64bit: bool, le: bool| #[trigger]
            readable(data, is_64bit, le);
        lemma_thin(data, is_64bit, le);
    }
}

/// The record of a binary says what its header and load commands say.
pub proof fn law_record_tells_the_commands(data: Seq<u8>, info: LoadInfo)
    requires
        macho::load_info(data) == Ok::<LoadInfo, ErrorView>(info),
    ensures
        readable(data, info.is_64bit, info.little_endian),
        record_tells(data, info),
{
    law_kind_shows_in_four_bytes(data);
    macho::lemma_load_info(data, info);
    assert(starts_thin(data, info.is_64bit, info.little_endian));
    lemma_thin(data, info.is_64bit, info.little_endian);
}

/// The header of a thin binary gives its kind and the size of its load
/// commands, up to 16 MiB.
pub proof fn law_header_is_read(data: Seq<u8>, is_64bit: bool, le: bool)
    requires
        starts_thin(data, is_64bit, le),
    ensures
        macho::header(data) is Ok == (bytes::u32_at(data, 20, le) <= 0x100_0000),
        macho::header(data) matches Ok((kind, size)) ==> size == bytes::u32_at(data, 20, le)
            && kind == (if is_64bit {
            MachOKind::Thin64 { little_endian: le }
        } else {
            MachOKind::Thin32 { little_endian: le }
        }),
{
    law_kind_shows_in_four_bytes(data);
}

/// What is wrong with a command is that it is malformed.
proof fn lemma_walk_errors(
    data: Seq<u8>,
    le: bool,
    end: int,
    first: int,
    count: nat,
    info: LoadInfo,
)
    ensures
        macho::after_commands(data, le, end, first, count, info) matches Err(error) ==> error
            is Malformed,
    decreases count,
{
    if count > 0 {
        if let Ok((size, next)) = macho::after_command(data, le, end, first, info) {
            lemma_walk_errors(data, le, end, first + size, (count - 1) as nat, next);
        }
    }
}

/// A thin binary whose load commands cannot be read is malformed.
pub proof fn law_unreadable_commands_are_malformed(data: Seq<u8>, is_64bit: bool, le: bool)
    requires
        has_magic(data, is_64bit, le),
    ensures
        macho::load_info(data) matches Err(error) ==> error is Malformed,
{
    reveal(macho::load_info);
    law_kind_shows_in_four_bytes(data);
    if let Ok((kind, sizeofcmds)) = macho::header(data) {
        let start = macho::header_info(data, kind, sizeofcmds);
        lemma_walk_errors(
            data,
            kind.is_le(),
            start.commands_end(),
            kind.header_len(),
            start.ncmds as nat,
            start,
        );
    }
}

} // verus!
