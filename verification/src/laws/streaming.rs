//! Laws of the streaming signer.

use crate::bytes;
use crate::digest;
use crate::error::ErrorView;
use crate::laws::{commands, reparse};
use crate::layout;
use crate::layout::LayoutView;
use crate::macho;
use crate::macho::{LinkeditCmd, LoadInfo};
use crate::options::OptionsView;
use crate::sign;
use crate::sign::PreparedView;
use crate::streaming;
use crate::streaming::{SignerView, StateView};
use vstd::prelude::*;

verus! {

/// A command is inserted into the front of a binary.
proof fn lemma_command_in_front(front: Seq<u8>, rest: Seq<u8>, info: LoadInfo, code_limit: u64)
    requires
        info.wf(),
        info.prefix_len() <= front.len(),
    ensures
        match sign::with_command(front, info, code_limit) {
            Ok((commanded, at)) => {
                &&& commanded.len() == front.len()
                &&& sign::with_command(front + rest, info, code_limit) == Ok::<
                    (Seq<u8>, int),
                    ErrorView,
                >((commanded + rest, at))
                &&& 0 <= at
                &&& at + 16 <= front.len()
            },
            Err(error) => sign::with_command(front + rest, info, code_limit) == Err::<
                (Seq<u8>, int),
                ErrorView,
            >(error),
        },
{
    if info.codesig is None {
        let le = info.little_endian;
        let at = info.commands_end();
        assert forall|k: int| at <= k < at + 16 && at + 16 <= front.len() implies (front + rest)[k]
            == #[trigger] front[k] by {}
        let a = bytes::put32(front, at, macho::LC_CODE_SIGNATURE, le);
        let b = bytes::put32(a, at + 4, macho::LC_CODE_SIGNATURE_SIZE as u32, le);
        let c = bytes::put32(b, at + 8, code_limit as u32, le);
        let d = bytes::put32(c, at + 12, 0, le);
        let e = bytes::put32(d, 16, (info.ncmds + 1) as u32, le);
        bytes::lemma_put32_front(front, rest, at, macho::LC_CODE_SIGNATURE, le);
        bytes::lemma_put32_front(a, rest, at + 4, macho::LC_CODE_SIGNATURE_SIZE as u32, le);
        bytes::lemma_put32_front(b, rest, at + 8, code_limit as u32, le);
        bytes::lemma_put32_front(c, rest, at + 12, 0, le);
        bytes::lemma_put32_front(d, rest, 16, (info.ncmds + 1) as u32, le);
        bytes::lemma_put32_front(
            e,
            rest,
            20,
            (info.sizeofcmds + macho::LC_CODE_SIGNATURE_SIZE) as u32,
            le,
        );
    }
}

/// The front of a binary is patched.
proof fn lemma_patch_in_front(
    front: Seq<u8>,
    rest: Seq<u8>,
    cmd_offset: int,
    info: LoadInfo,
    linkedit: LinkeditCmd,
    l: LayoutView,
    filesize: u64,
    vmsize: u64,
)
    requires
        0 <= cmd_offset,
        cmd_offset + 16 <= front.len(),
        linkedit.cmd_offset + 56 <= front.len(),
    ensures
        sign::patched(front + rest, cmd_offset, info, linkedit, l, filesize, vmsize)
            == sign::patched(front, cmd_offset, info, linkedit, l, filesize, vmsize) + rest,
        sign::patched(front, cmd_offset, info, linkedit, l, filesize, vmsize).len()
            == front.len(),
{
    let le = info.little_endian;
    let at = linkedit.cmd_offset as int;
    let a = bytes::put32(front, cmd_offset + 8, l.code_limit as u32, le);
    let b = bytes::put32(a, cmd_offset + 12, l.allocated_size as u32, le);
    bytes::lemma_put32_front(front, rest, cmd_offset + 8, l.code_limit as u32, le);
    bytes::lemma_put32_front(a, rest, cmd_offset + 12, l.allocated_size as u32, le);
    if info.is_64bit {
        let c = bytes::put64(b, at + 32, vmsize, le);
        bytes::lemma_put64_front(b, rest, at + 32, vmsize, le);
        bytes::lemma_put64_front(c, rest, at + 48, filesize, le);
    } else {
        let c = bytes::put32(b, at + 28, vmsize as u32, le);
        bytes::lemma_put32_front(b, rest, at + 28, vmsize as u32, le);
        bytes::lemma_put32_front(c, rest, at + 36, filesize as u32, le);
    }
}

/// Preparing the front of a binary prepares the binary.
pub proof fn lemma_prepare_front(
    front: Seq<u8>,
    rest: Seq<u8>,
    info: LoadInfo,
    identifier: Seq<char>,
    hardened_runtime: bool,
    linker_signed: bool,
    entitlements: Option<Seq<u8>>,
)
    requires
        info.wf(),
        info.prefix_len() <= front.len(),
    ensures
        ({
            let whole = sign::prepared(
                front + rest,
                info,
                identifier,
                hardened_runtime,
                linker_signed,
                entitlements,
            );
            match sign::prepared(
                front,
                info,
                identifier,
                hardened_runtime,
                linker_signed,
                entitlements,
            ) {
                Ok(prepared) => {
                    &&& whole == Ok::<PreparedView, ErrorView>(
                        PreparedView { prefix: prepared.prefix + rest, ..prepared },
                    )
                    &&& prepared.prefix.len() == front.len()
                    &&& prepared.min_input <= prepared.layout.code_limit
                },
                Err(error) => whole == Err::<PreparedView, ErrorView>(error),
            }
        }),
{
    reveal(sign::prepared);
    if let Some(linkedit) = info.linkedit {
        if let Ok((code_limit, min_input)) = sign::placement(info, linkedit) {
            bytes::lemma_round_up(linkedit.fileoff + linkedit.filesize, 16);
            lemma_command_in_front(front, rest, info, code_limit);
            if let Ok((commanded, at)) = sign::with_command(front, info, code_limit) {
                if let Ok(l) = layout::layout_of(
                    info,
                    code_limit,
                    identifier,
                    hardened_runtime,
                    linker_signed,
                    entitlements,
                ) {
                    assert(l.code_limit == code_limit) by {
                        reveal(layout::layout_of);
                    }
                    if let Ok((filesize, vmsize)) = layout::linkedit_sizes_of(
                        l,
                        linkedit.fileoff,
                    ) {
                        lemma_patch_in_front(
                            commanded,
                            rest,
                            at,
                            info,
                            linkedit,
                            l,
                            filesize,
                            vmsize,
                        );
                    }
                }
            }
        }
    }
}

/// Code that streams through in two pieces.
proof fn lemma_fed_twice(signer: SignerView, a: Seq<u8>, b: Seq<u8>)
    requires
        signer.valid(),
        signer.state is Streaming,
    ensures
        signer.fed(a).fed(b) == signer.fed(a + b),
        signer.fed(a).valid(),
        signer.fed(a).state is Streaming,
{
    if let StateView::Streaming { layout, min_input, code } = signer.state {
        let limit = layout.code_limit as int;
        let len = code.len() as int;
        let first = streaming::passed(a, len, limit);
        let second = streaming::passed(b, len + first.len(), limit);
        let both = streaming::passed(a + b, len, limit);
        assert(first + second =~= both);
        assert(signer.written + first + second =~= signer.written + both);
        assert(code + first + second =~= code + both);
    }
}

/// What comes after the code, such as the old signature of the input, is taken
/// and discarded.
pub proof fn law_old_signature_is_discarded(signer: SignerView, chunk: Seq<u8>)
    requires
        signer.state matches StateView::Streaming { layout, code, .. } && code.len()
            == layout.code_limit,
    ensures
        signer.step(chunk) == (signer, Ok::<(), ErrorView>(())),
{
    if let StateView::Streaming { layout, code, .. } = signer.state {
        let taken = streaming::passed(chunk, code.len() as int, layout.code_limit as int);
        assert(taken =~= Seq::empty());
        assert(signer.written + taken =~= signer.written);
        assert(code + taken =~= code);
    }
}

/// A signer that waits only as long as it has to.
pub open spec fn settled(signer: SignerView) -> bool {
    &&& signer.valid()
    &&& signer.state matches StateView::Buffering { buf } ==> streaming::readiness(buf) == Ok::<
        Option<LoadInfo>,
        ErrorView,
    >(None)
}

/// Input that ends too early is reported with the number of bytes that came
/// and a greater number of bytes that were needed.
pub proof fn law_truncation_is_precise(signer: SignerView, expected: u64, got: u64)
    requires
        settled(signer),
        signer.finished() == Err::<Seq<u8>, ErrorView>(
            ErrorView::TruncatedInput { expected, got },
        ),
    ensures
        got < expected,
        got == match signer.state {
            StateView::Buffering { buf } => buf.len(),
            StateView::Streaming { code, .. } => code.len(),
        },
{
    if let StateView::Buffering { buf } = signer.state {
        if let Ok(info) = macho::load_info(buf) {
            macho::lemma_load_info(buf, info);
        }
    }
}

/// The kind and the header of a binary show in its first bytes.
proof fn lemma_first_bytes(a: Seq<u8>, b: Seq<u8>)
    requires
        a.len() >= 4,
    ensures
        macho::kind_of(a + b) == macho::kind_of(a),
        macho::kind_of(a) matches Some(kind) ==> a.len() >= kind.header_len() ==> macho::header(
            a + b,
        ) == macho::header(a),
{
    bytes::lemma_u32_same(a, 0, a + b, 0, true);
    bytes::lemma_u32_same(a, 0, a + b, 0, false);
    if let Some(kind) = macho::kind_of(a) {
        if a.len() >= kind.header_len() && kind.thin() {
            bytes::lemma_u32_same(a, 20, a + b, 20, kind.is_le());
        }
    }
}

/// Once signing can start, more bytes change nothing about it; and where it
/// cannot start because of an error, more bytes do not help.
proof fn lemma_readiness(a: Seq<u8>, b: Seq<u8>)
    ensures
        match streaming::readiness(a) {
            Ok(Some(info)) => {
                &&& streaming::readiness(a + b) == Ok::<Option<LoadInfo>, ErrorView>(Some(info))
                &&& info.wf()
                &&& info.prefix_len() <= a.len()
            },
            Ok(None) => true,
            Err(_) => streaming::readiness(a + b) is Err,
        },
{
    if a.len() >= 4 {
        lemma_first_bytes(a, b);
        match macho::load_info(a) {
            Ok(info) => {
                macho::lemma_load_info(a, info);
                reparse::lemma_record_of_prefix(a, a + b, info);
            },
            Err(_) => {},
        }
        if let Ok(info) = macho::load_info(a + b) {
            macho::lemma_load_info(a + b, info);
            lemma_header_of_record(a + b, info);
            if info.commands_end() <= a.len() {
                reparse::lemma_record_of_prefix(a + b, a, info);
            }
        }
    }
}

/// The record of a binary starts with its header.
pub proof fn lemma_header_of_record(data: Seq<u8>, info: LoadInfo)
    requires
        macho::load_info(data) == Ok::<LoadInfo, ErrorView>(info),
    ensures
        macho::header(data) is Ok,
        macho::header(data)->Ok_0.0.header_len() == info.header_size,
        macho::header(data)->Ok_0.1 == info.sizeofcmds,
{
    macho::lemma_load_info(data, info);
    reveal(macho::load_info);
}

/// Signing starts with some bytes buffered, and more come.
proof fn lemma_started(signer: SignerView, a: Seq<u8>, b: Seq<u8>, info: LoadInfo)
    requires
        streaming::readiness(a) == Ok::<Option<LoadInfo>, ErrorView>(Some(info)),
    ensures
        match signer.buffered(a) {
            (after, Ok(_)) => {
                &&& after.state is Streaming
                &&& after.valid()
                &&& signer.buffered(a + b) == (after.fed(b), Ok::<(), ErrorView>(()))
            },
            (_, Err(_)) => signer.buffered(a + b).1 is Err,
        },
{
    lemma_readiness(a, b);
    let n = info.prefix_len();
    assert((a + b).take(n) =~= a.take(n));
    assert((a + b).skip(n) =~= a.skip(n) + b);
    if let Ok(prepared) = sign::prepared(
        a.take(n),
        info,
        signer.identifier,
        signer.hardened_runtime,
        signer.linker_signed,
        signer.entitlements,
    ) {
        let start = SignerView {
            entitlements: None,
            state: StateView::Streaming {
                layout: prepared.layout,
                min_input: prepared.min_input,
                code: Seq::empty(),
            },
            ..signer
        };
        lemma_fed_twice(start, prepared.prefix, a.skip(n));
        lemma_fed_twice(start.fed(prepared.prefix), a.skip(n), b);
    }
}

/// Writing in two pieces is the same as writing at once: as long as no error
/// comes, the signer ends up the same, and an error comes in both ways or in
/// neither.
pub proof fn law_pieces_do_not_matter(signer: SignerView, a: Seq<u8>, b: Seq<u8>)
    requires
        settled(signer),
    ensures
        match signer.step(a) {
            (after, Ok(_)) => {
                &&& settled(after)
                &&& after.step(b) == signer.step(a + b)
            },
            (_, Err(_)) => signer.step(a + b).1 is Err,
        },
{
    match signer.state {
        StateView::Streaming { .. } => {
            lemma_fed_twice(signer, a, b);
        },
        StateView::Buffering { buf } => {
            let first = buf + a;
            assert(buf + (a + b) =~= first + b);
            lemma_readiness(first, b);
            match streaming::readiness(first) {
                Ok(Some(info)) => {
                    lemma_started(signer, first, b, info);
                },
                Ok(None) => {
                    let waiting = signer.step(a).0;
                    assert(waiting.buffered(first + b) == signer.buffered(first + b));
                },
                Err(_) => {},
            }
        },
    }
}

/// What writing some chunks one after the other leads to, up to the first
/// error.
pub open spec fn written_in(signer: SignerView, chunks: Seq<Seq<u8>>) -> (
    SignerView,
    Result<(), ErrorView>,
)
    decreases chunks.len(),
{
    if chunks.len() == 0 {
        (signer, Ok(()))
    } else {
        match signer.step(chunks[0]) {
            (after, Ok(_)) => written_in(after, chunks.drop_first()),
            (after, Err(error)) => (after, Err(error)),
        }
    }
}

/// Writing in chunks is the same as writing at once.
proof fn lemma_chunks(signer: SignerView, chunks: Seq<Seq<u8>>)
    requires
        settled(signer),
    ensures
        match written_in(signer, chunks) {
            (after, Ok(_)) => signer.step(chunks.flatten()) == (after, Ok::<(), ErrorView>(())),
            (_, Err(_)) => signer.step(chunks.flatten()).1 is Err,
        },
    decreases chunks.len(),
{
    if chunks.len() == 0 {
        let none = Seq::<u8>::empty();
        match signer.state {
            StateView::Streaming { layout, min_input, code } => {
                assert(code + none =~= code);
                assert(signer.written + none =~= signer.written);
            },
            StateView::Buffering { buf } => {
                assert(buf + none =~= buf);
            },
        }
    } else {
        let rest = chunks.drop_first();
        law_pieces_do_not_matter(signer, chunks[0], rest.flatten());
        if let (after, Ok(_)) = signer.step(chunks[0]) {
            lemma_chunks(after, rest);
        }
    }
}

/// A binary that streams through at once is signed as in memory.
proof fn lemma_at_once(data: Seq<u8>, options: OptionsView, written: Seq<u8>)
    requires
        !(options.entitlements is Preserve),
    ensures
        ({
            let (after, done) = SignerView::fresh(written, options).step(data);
            match sign::signed_thin(data, options) {
                Ok(out) => {
                    &&& done is Ok
                    &&& after.finished() == Ok::<Seq<u8>, ErrorView>(written + out)
                },
                Err(_) => done is Err || after.finished() is Err,
            }
        }),
{
    let signer = SignerView::fresh(written, options);
    let (after, done) = signer.step(data);
    assert(Seq::<u8>::empty() + data =~= data);
    match macho::load_info(data) {
        Err(_) => {},
        Ok(info) => {
            macho::lemma_load_info(data, info);
            lemma_header_of_record(data, info);
            if info.prefix_len() <= data.len() {
                assert(streaming::readiness(data) == Ok::<Option<LoadInfo>, ErrorView>(
                    Some(info),
                ));
                lemma_prepared_at_once(data, options, written, info);
            }
        },
    }
}

/// Code that has streamed through is completed as in memory.
proof fn lemma_completed(signer: SignerView, written: Seq<u8>, prepared: PreparedView)
    requires
        prepared.min_input <= prepared.layout.code_limit,
        ({
            let code = streaming::passed(
                prepared.prefix,
                0,
                prepared.layout.code_limit as int,
            );
            &&& signer.written == written + code
            &&& signer.state == StateView::Streaming {
                layout: prepared.layout,
                min_input: prepared.min_input,
                code,
            }
        }),
    ensures
        if prepared.prefix.len() < prepared.min_input {
            signer.finished() is Err
        } else {
            signer.finished() == Ok::<Seq<u8>, ErrorView>(written + sign::completed(prepared))
        },
{
    let l = prepared.layout;
    let limit = l.code_limit as int;
    let code = streaming::passed(prepared.prefix, 0, limit);
    let padding = bytes::zeros((limit - code.len()) as nat);
    let full = bytes::resized(prepared.prefix, limit as nat);
    assert(code + padding =~= full);
    let region = l.region(digest::all_page_digests(full));
    assert(written + code + padding + region =~= written + (full + region));
}

proof fn lemma_prepared_at_once(
    data: Seq<u8>,
    options: OptionsView,
    written: Seq<u8>,
    info: LoadInfo,
)
    requires
        !(options.entitlements is Preserve),
        macho::load_info(data) == Ok::<LoadInfo, ErrorView>(info),
        streaming::readiness(data) == Ok::<Option<LoadInfo>, ErrorView>(Some(info)),
        info.wf(),
        info.prefix_len() <= data.len(),
    ensures
        ({
            let (after, done) = SignerView::fresh(written, options).buffered(data);
            match sign::signed_thin(data, options) {
                Ok(out) => {
                    &&& done is Ok
                    &&& after.finished() == Ok::<Seq<u8>, ErrorView>(written + out)
                },
                Err(_) => done is Err || after.finished() is Err,
            }
        }),
{
    let signer = SignerView::fresh(written, options);
    let n = info.prefix_len();
    let front = data.take(n);
    let rest = data.skip(n);
    assert(front + rest =~= data);
    let entitlements = sign::resolved(data, options.entitlements);
    assert(signer.entitlements == entitlements);
    lemma_prepare_front(
        front,
        rest,
        info,
        options.identifier,
        options.hardened_runtime,
        options.linker_signed,
        entitlements,
    );
    if let Ok(prepared) = sign::prepared(
        front,
        info,
        options.identifier,
        options.hardened_runtime,
        options.linker_signed,
        entitlements,
    ) {
        let start = SignerView {
            entitlements: None,
            state: StateView::Streaming {
                layout: prepared.layout,
                min_input: prepared.min_input,
                code: Seq::empty(),
            },
            ..signer
        };
        let whole = PreparedView { prefix: prepared.prefix + rest, ..prepared };
        lemma_fed_twice(start, prepared.prefix, rest);
        let after = start.fed(whole.prefix);
        let code = streaming::passed(whole.prefix, 0, whole.layout.code_limit as int);
        assert(Seq::<u8>::empty() + code =~= code);
        lemma_completed(after, written, whole);
    }
}

/// A thin binary that is written to a fresh streaming signer, in whatever
/// chunks, and finished, is signed exactly as in memory: the one succeeds
/// where the other does, with the same output.
pub proof fn law_streaming_is_signing(
    chunks: Seq<Seq<u8>>,
    options: OptionsView,
    written: Seq<u8>,
)
    requires
        !(options.entitlements is Preserve),
        macho::kind_of(chunks.flatten()) matches Some(kind) && kind.thin(),
    ensures
        ({
            let (after, done) = written_in(SignerView::fresh(written, options), chunks);
            match sign::signed(chunks.flatten(), options) {
                Ok(out) => {
                    &&& done is Ok
                    &&& after.finished() == Ok::<Seq<u8>, ErrorView>(written + out)
                },
                Err(_) => done is Err || after.finished() is Err,
            }
        }),
{
    let signer = SignerView::fresh(written, options);
    assert(settled(signer));
    lemma_chunks(signer, chunks);
    lemma_at_once(chunks.flatten(), options, written);
}

/// What is not a thin Mach-O binary is never signed by a streaming signer: an
/// error comes while it is written or when the signer is finished. A fat
/// binary is told apart as soon as its first four bytes are there.
pub proof fn law_streaming_takes_thin_binaries_only(
    chunks: Seq<Seq<u8>>,
    options: OptionsView,
    written: Seq<u8>,
)
    requires
        !(macho::kind_of(chunks.flatten()) matches Some(kind) && kind.thin()),
    ensures
        ({
            let signer = SignerView::fresh(written, options);
            let (after, done) = written_in(signer, chunks);
            &&& done is Err || after.finished() is Err
            &&& macho::kind_of(chunks.flatten()) == Some(macho::MachOKind::Fat) ==> signer.step(
                chunks.flatten(),
            ).1 == Err::<(), ErrorView>(ErrorView::FatBinaryNotStreamable)
        }),
{
    let signer = SignerView::fresh(written, options);
    let data = chunks.flatten();
    assert(settled(signer));
    lemma_chunks(signer, chunks);
    assert(Seq::<u8>::empty() + data =~= data);
}

/// Code that comes in is forwarded at once, up to the place of the signature.
pub proof fn law_code_is_forwarded(signer: SignerView, chunk: Seq<u8>)
    requires
        signer.valid(),
        signer.state is Streaming,
    ensures
        ({
            let limit = signer.state->layout.code_limit as int;
            let code = signer.state->code;
            let count = if chunk.len() <= limit - code.len() {
                chunk.len() as int
            } else {
                limit - code.len()
            };
            let (after, done) = signer.step(chunk);
            &&& done is Ok
            &&& after.written == signer.written + chunk.take(count)
            &&& after.state matches StateView::Streaming { layout, min_input, code: grown }
            &&& layout == signer.state->layout
            &&& min_input == signer.state->min_input
            &&& grown == code + chunk.take(count)
        }),
{
    assert(chunk.take(chunk.len() as int) =~= chunk);
}

/// While the header and the load commands are incomplete, a signer waits; as
/// soon as they are there, with the room for another command where there is
/// none for the signature, it writes all the code that has come.
pub proof fn law_signing_starts_as_soon_as_it_can(signer: SignerView, data: Seq<u8>)
    requires
        signer.state is Buffering,
        signer.step(data).1 is Ok,
    ensures
        ({
            let buf = signer.state->buf + data;
            let (after, _) = signer.step(data);
            match after.state {
                StateView::Buffering { buf: waiting } => {
                    &&& waiting == buf
                    &&& after.written == signer.written
                    &&& macho::load_info(buf) matches Ok(info) ==> buf.len() < info.header_size
                        + info.sizeofcmds + 16 && info.codesig is None
                },
                StateView::Streaming { layout, code, .. } => {
                    &&& code.len() == buf.len() || code.len() == layout.code_limit <= buf.len()
                    &&& after.written == signer.written + code
                },
            }
        }),
{
    let buf = signer.state->buf + data;
    if let Ok(info) = macho::load_info(buf) {
        macho::lemma_load_info(buf, info);
        lemma_header_of_record(buf, info);
        if info.prefix_len() <= buf.len() {
            let front = buf.take(info.prefix_len());
            let rest = buf.skip(info.prefix_len());
            let (identifier, hardened) = (signer.identifier, signer.hardened_runtime);
            let (linker, entitlements) = (signer.linker_signed, signer.entitlements);
            lemma_prepare_front(
                front,
                Seq::empty(),
                info,
                identifier,
                hardened,
                linker,
                entitlements,
            );
            if let Ok(p) = sign::prepared(
                front,
                info,
                identifier,
                hardened,
                linker,
                entitlements,
            ) {
                let start = SignerView {
                    entitlements: None,
                    state: StateView::Streaming {
                        layout: p.layout,
                        min_input: p.min_input,
                        code: Seq::empty(),
                    },
                    ..signer
                };
                lemma_fed_twice(start, p.prefix, rest);
                let code = streaming::passed(p.prefix + rest, 0, p.layout.code_limit as int);
                assert(Seq::<u8>::empty() + code =~= code);
            }
        }
    }
}

/// Input that ends too early was missing the rest of its header, or else of
/// the load commands that the header declares, or else the room for another
/// command, or the rest of its code.
pub proof fn law_truncation_names_what_is_missing(
    signer: SignerView,
    expected: u64,
    got: u64,
    is_64bit: bool,
    le: bool,
)
    requires
        settled(signer),
        signer.finished() == Err::<Seq<u8>, ErrorView>(
            ErrorView::TruncatedInput { expected, got },
        ),
        signer.state matches StateView::Buffering { buf } ==> commands::has_magic(
            buf,
            is_64bit,
            le,
        ),
    ensures
        match signer.state {
            StateView::Buffering { buf } => {
                let header = commands::header_len(is_64bit);
                let commands = bytes::u32_at(buf, 20, le);
                if buf.len() < header {
                    expected == header
                } else if buf.len() < header + commands {
                    expected == header + commands
                } else {
                    expected == header + commands + 16
                }
            },
            StateView::Streaming { min_input, .. } => expected == min_input,
        },
{
    if let StateView::Buffering { buf } = signer.state {
        commands::law_kind_shows_in_four_bytes(buf);
        if let Ok(info) = macho::load_info(buf) {
            macho::lemma_load_info(buf, info);
        }
    }
}

/// What a streaming signer cannot sign it refuses as soon as the first four
/// bytes are there: fat binaries, and what is no binary. Input that ends
/// before that is no binary either.
pub proof fn law_magic_is_checked_at_once(signer: SignerView, data: Seq<u8>)
    requires
        signer.state is Buffering,
    ensures
        ({
            let buf = signer.state->buf + data;
            let (after, done) = signer.step(data);
            let thin = exists|is_64bit: bool, le: bool| #[trigger]
                commands::has_magic(buf, is_64bit, le);
            &&& buf.len() < 4 ==> done is Ok && after.finished() == Err::<Seq<u8>, ErrorView>(
                ErrorView::NotMachO,
            )
            &&& buf.len() >= 4 && !thin ==> done == Err::<(), ErrorView>(
                if commands::starts_with(buf, 0xca, 0xfe, 0xba, 0xbe) {
                    ErrorView::FatBinaryNotStreamable
                } else if commands::starts_with(buf, 0xca, 0xfe, 0xba, 0xbf) {
                    ErrorView::Fat64Unsupported
                } else {
                    ErrorView::NotMachO
                },
            )
        }),
{
    let buf = signer.state->buf + data;
    commands::law_kind_shows_in_four_bytes(buf);
    if macho::kind_of(buf) matches Some(kind) && kind.thin() {
        let kind = macho::kind_of(buf)->0;
        assert(commands::has_magic(buf, kind is Thin64, kind.is_le()));
    }
}

/// A binary that has all of its load commands, with the room for another one
/// where there is none for the signature, is refused by a streaming signer for
/// the reason for which it is refused in memory.
pub proof fn law_streaming_refuses_for_the_same_reason(
    data: Seq<u8>,
    options: OptionsView,
    written: Seq<u8>,
    info: LoadInfo,
    error: ErrorView,
)
    requires
        !(options.entitlements is Preserve),
        macho::load_info(data) == Ok::<LoadInfo, ErrorView>(info),
        info.prefix_len() <= data.len(),
        sign::signed_thin(data, options) == Err::<Seq<u8>, ErrorView>(error),
    ensures
        ({
            let (after, done) = SignerView::fresh(written, options).step(data);
            ||| done == Err::<(), ErrorView>(error)
            ||| done is Ok && after.finished() == Err::<Seq<u8>, ErrorView>(error)
        }),
{
    let signer = SignerView::fresh(written, options);
    let front = data.take(info.prefix_len());
    let rest = data.skip(info.prefix_len());
    let entitlements = signer.entitlements;
    assert(Seq::<u8>::empty() + data =~= data);
    assert(front + rest =~= data);
    macho::lemma_load_info(data, info);
    lemma_header_of_record(data, info);
    assert(streaming::readiness(data) == Ok::<Option<LoadInfo>, ErrorView>(Some(info)));
    assert(entitlements == sign::resolved(data, options.entitlements));
    lemma_prepare_front(
        front,
        rest,
        info,
        options.identifier,
        options.hardened_runtime,
        options.linker_signed,
        entitlements,
    );
    if let Ok(p) = sign::prepared(
        front,
        info,
        options.identifier,
        options.hardened_runtime,
        options.linker_signed,
        entitlements,
    ) {
        let start = SignerView {
            entitlements: None,
            state: StateView::Streaming {
                layout: p.layout,
                min_input: p.min_input,
                code: Seq::empty(),
            },
            ..signer
        };
        lemma_fed_twice(start, p.prefix, rest);
        let code = streaming::passed(p.prefix + rest, 0, p.layout.code_limit as int);
        assert(Seq::<u8>::empty() + code =~= code);
        assert(data.len() < p.min_input);
        assert(code =~= p.prefix + rest);
    }
}

} // verus!
