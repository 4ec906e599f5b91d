//! The streaming signer: bytes in, signed bytes out, in a single pass.

use crate::bytes;
use crate::constants::CS_PAGE_SIZE;
use crate::digest;
use crate::error;
use crate::error::ErrorView;
use crate::error::SignError;
use crate::layout;
use crate::layout::Layout;
use crate::layout::LayoutView;
use crate::macho;
use crate::macho::MachOKind;
use crate::options::AdhocSignOptions;
use crate::options::Entitlements;
use crate::options::EntitlementsView;
use crate::options::OptionsView;
use crate::sign;
use vstd::prelude::*;
use vstd::slice::{slice_subrange, slice_to_vec};

verus! {

/// A binary whose header has been patched and written, with its code pages
/// hashed as they stream through.
struct Stream {
    layout: Layout,
    min_input: u64,
    hasher: sha2::Sha256,
    page_hashes: Vec<u8>,
    position: u64,
    /// The code that has streamed through.
    code: Ghost<Seq<u8>>,
}

/// The number of pages whose hash is complete once `len` bytes of code have
/// streamed through: the last page is complete where the code ends.
spec fn complete_pages(len: int, limit: int) -> int {
    if len == limit {
        bytes::pieces(limit, CS_PAGE_SIZE as int)
    } else {
        len / CS_PAGE_SIZE as int
    }
}

impl Stream {
    /// The hashes are those of the code so far.
    spec fn wf(self) -> bool {
        let code = self.code@;
        let limit = self.layout.code_limit as int;
        let complete = complete_pages(self.position as int, limit);
        &&& self.layout@.wf()
        &&& self.position == code.len()
        &&& self.position <= limit
        &&& self.page_hashes@ == digest::page_digests(code, CS_PAGE_SIZE as int, complete as nat)
        &&& digest::absorbed(self.hasher) == (if self.position == limit {
            Seq::empty()
        } else {
            code.skip(complete * CS_PAGE_SIZE)
        })
    }

    /// Hash and forward bytes, respecting 4 KiB page boundaries. Bytes at or
    /// beyond the code limit (the old signature) are discarded.
    fn feed(&mut self, chunk: &[u8], out: &mut Vec<u8>)
        requires
            old(self).wf(),
        ensures
            final(self).wf(),
            final(self).layout == old(self).layout,
            final(self).min_input == old(self).min_input,
            ({
                let taken = passed(
                    chunk@,
                    old(self).code@.len() as int,
                    old(self).layout.code_limit as int,
                );
                &&& final(self).code@ == old(self).code@ + taken
                &&& final(out)@ == old(out)@ + taken
            }),
    {
        let limit = self.layout.code_limit;
        let page_size = CS_PAGE_SIZE as u64;
        let mut at: usize = 0;
        assert(self.code@ + chunk@.take(0) =~= self.code@);
        assert(out@ + chunk@.take(0) =~= out@);
        while at < chunk.len() && self.position < limit
            invariant
                self.wf(),
                self.layout == old(self).layout,
                self.min_input == old(self).min_input,
                limit == self.layout.code_limit,
                limit <= u32::MAX,
                page_size == CS_PAGE_SIZE,
                at <= chunk@.len(),
                self.code@ == old(self).code@ + chunk@.take(at as int),
                out@ == old(out)@ + chunk@.take(at as int),
            decreases chunk@.len() - at,
        {
            let next_page: u64 = self.position + page_size - self.position % page_size;
            let page_end: u64 = if next_page < limit {
                next_page
            } else {
                limit
            };
            let left: usize = chunk.len() - at;
            let take: usize = if page_end - self.position < left as u64 {
                (page_end - self.position) as usize
            } else {
                left
            };
            let piece = slice_subrange(chunk, at, at + take);
            let ghost before = self.code@;
            let ghost after = before + piece@;
            let ghost complete = complete_pages(before.len() as int, limit as int);
            proof {
                assert(chunk@.take(at as int) + piece@ =~= chunk@.take(at + take));
                assert(old(self).code@ + chunk@.take(at + take) =~= after);
                assert(old(out)@ + chunk@.take(at + take) =~= out@ + piece@);
                assert(after.take(before.len() as int) =~= before);
                digest::lemma_page_digests_of_prefix(
                    before,
                    after,
                    CS_PAGE_SIZE as int,
                    complete as nat,
                );
                assert(before.skip(complete * CS_PAGE_SIZE) + piece@ =~= after.skip(
                    complete * CS_PAGE_SIZE,
                ));
            }
            digest::absorb(&mut self.hasher, piece);
            out.extend_from_slice(piece);
            self.position = self.position + take as u64;
            self.code = Ghost(after);
            if self.position == page_end {
                let page_hash = digest::finalize_reset(&mut self.hasher);
                self.page_hashes.extend_from_slice(&page_hash);
                proof {
                    assert(digest::page(after, CS_PAGE_SIZE as int, complete) =~= after.skip(
                        complete * CS_PAGE_SIZE,
                    ));
                    assert(complete_pages(after.len() as int, limit as int) == complete + 1);
                    assert(self.page_hashes@ == digest::page_digests(
                        after,
                        CS_PAGE_SIZE as int,
                        (complete + 1) as nat,
                    ));
                    if page_end < limit {
                        assert(after.skip((complete + 1) * CS_PAGE_SIZE) =~= Seq::empty());
                    }
                    assert(self.wf());
                }
            } else {
                assert(complete_pages(after.len() as int, limit as int) == complete);
                assert(self.wf());
            }
            at += take;
        }
        proof {
            assert(chunk@.take(at as int) =~= passed(
                chunk@,
                old(self).code@.len() as int,
                limit as int,
            ));
        }
    }
}

/// What of `chunk` lies before the code limit, after `len` bytes of code.
pub open spec fn passed(chunk: Seq<u8>, len: int, limit: int) -> Seq<u8> {
    if chunk.len() <= limit - len {
        chunk
    } else {
        chunk.take(limit - len)
    }
}

/// What has come in so far.
pub ghost enum StateView {
    /// Accumulating the header and load commands.
    Buffering { buf: Seq<u8> },
    /// Header patched and written; the code so far has streamed through.
    Streaming { layout: LayoutView, min_input: u64, code: Seq<u8> },
}

/// The mathematical value of a [`StreamingSigner`].
pub ghost struct SignerView {
    /// What has been written to the inner buffer.
    pub written: Seq<u8>,
    pub identifier: Seq<char>,
    pub hardened_runtime: bool,
    pub linker_signed: bool,
    pub entitlements: Option<Seq<u8>>,
    pub state: StateView,
}

/// Whether signing can start: `None` while the header and load commands are
/// still incomplete, then what they say.
pub open spec fn readiness(buf: Seq<u8>) -> Result<Option<macho::LoadInfo>, ErrorView> {
    if buf.len() < 4 {
        Ok(None)
    } else {
        match macho::kind_of(buf) {
            None => Err(ErrorView::NotMachO),
            Some(MachOKind::Fat) => Err(ErrorView::FatBinaryNotStreamable),
            Some(MachOKind::Fat64) => Err(ErrorView::Fat64Unsupported),
            Some(kind) => if buf.len() < kind.header_len() {
                Ok(None)
            } else {
                match macho::header(buf) {
                    Err(error) => Err(error),
                    Ok((_, sizeofcmds)) => if buf.len() < kind.header_len() + sizeofcmds {
                        Ok(None)
                    } else {
                        match macho::load_info(buf) {
                            Err(error) => Err(error),
                            Ok(info) => if buf.len() < info.prefix_len() {
                                Ok(None)
                            } else {
                                Ok(Some(info))
                            },
                        }
                    },
                }
            },
        }
    }
}

/// How many bytes a binary of the given kind that starts with `buf` has to
/// have before signing can start: the header, as long as that is incomplete,
/// then the load commands that it declares, then also the room for another
/// command where there is none for the signature.
pub open spec fn needed(buf: Seq<u8>, kind: MachOKind) -> int {
    match macho::load_info(buf) {
        Ok(info) => info.prefix_len(),
        Err(_) => if !kind.thin() || buf.len() < kind.header_len() {
            kind.header_len()
        } else {
            kind.header_len() + bytes::u32_at(buf, 20, kind.is_le())
        },
    }
}

impl SignerView {
    /// No more than the code has streamed through.
    pub open spec fn valid(self) -> bool {
        self.state matches StateView::Streaming { layout, code, .. } ==> code.len()
            <= layout.code_limit
    }

    /// A signer into which nothing has been written.
    pub open spec fn fresh(written: Seq<u8>, options: OptionsView) -> SignerView {
        SignerView {
            written,
            identifier: options.identifier,
            hardened_runtime: options.hardened_runtime,
            linker_signed: options.linker_signed,
            entitlements: match options.entitlements {
                EntitlementsView::Custom(custom) => Some(custom),
                _ => None,
            },
            state: StateView::Buffering { buf: Seq::empty() },
        }
    }

    /// Some code streams through: it is forwarded as far as the code limit.
    pub open spec fn fed(self, chunk: Seq<u8>) -> SignerView {
        match self.state {
            StateView::Buffering { .. } => self,
            StateView::Streaming { layout, min_input, code } => {
                let taken = passed(chunk, code.len() as int, layout.code_limit as int);
                SignerView {
                    written: self.written + taken,
                    state: StateView::Streaming { layout, min_input, code: code + taken },
                    ..self
                }
            },
        }
    }

    /// The buffered bytes are `buf`: signing starts where they suffice.
    pub open spec fn buffered(self, buf: Seq<u8>) -> (SignerView, Result<(), ErrorView>) {
        let waiting = SignerView { state: StateView::Buffering { buf }, ..self };
        match readiness(buf) {
            Err(error) => (waiting, Err(error)),
            Ok(None) => (waiting, Ok(())),
            Ok(Some(info)) => match sign::prepared(
                buf.take(info.prefix_len()),
                info,
                self.identifier,
                self.hardened_runtime,
                self.linker_signed,
                self.entitlements,
            ) {
                // The buffer and the entitlements have been used up.
                Err(error) => (
                    SignerView {
                        entitlements: None,
                        state: StateView::Buffering { buf: Seq::empty() },
                        ..self
                    },
                    Err(error),
                ),
                Ok(prepared) => (
                    (SignerView {
                        entitlements: None,
                        state: StateView::Streaming {
                            layout: prepared.layout,
                            min_input: prepared.min_input,
                            code: Seq::empty(),
                        },
                        ..self
                    }).fed(prepared.prefix).fed(buf.skip(info.prefix_len())),
                    Ok(()),
                ),
            },
        }
    }

    /// What writing `data` leads to.
    pub open spec fn step(self, data: Seq<u8>) -> (SignerView, Result<(), ErrorView>) {
        match self.state {
            StateView::Buffering { buf } => self.buffered(buf + data),
            StateView::Streaming { .. } => (self.fed(data), Ok(())),
        }
    }

    /// What finishing gives: everything that was written, zeros up to the
    /// code limit, and the signature.
    pub open spec fn finished(self) -> Result<Seq<u8>, ErrorView> {
        match self.state {
            StateView::Buffering { buf } => match macho::kind_of(buf) {
                None => Err(ErrorView::NotMachO),
                Some(kind) => Err(
                    ErrorView::TruncatedInput {
                        expected: needed(buf, kind) as u64,
                        got: buf.len() as u64,
                    },
                ),
            },
            StateView::Streaming { layout, min_input, code } => if code.len() < min_input {
                Err(ErrorView::TruncatedInput { expected: min_input, got: code.len() as u64 })
            } else {
                let padding = bytes::zeros((layout.code_limit - code.len()) as nat);
                Ok(
                    self.written + padding + layout.region(
                        digest::all_page_digests(code + padding),
                    ),
                )
            },
        }
    }
}

/// Count the bytes that a binary has to have before signing can start.
fn bytes_needed(buf: &[u8], kind: MachOKind) -> (expected: u64)
    requires
        macho::kind_of(buf@) == Some(kind),
    ensures
        expected == needed(buf@, kind),
{
    match macho::parse_load_info(buf) {
        Ok(info) => info.required_prefix_len() as u64,
        Err(_) => if !kind.is_thin() || buf.len() < kind.header_size() {
            kind.header_size() as u64
        } else {
            kind.header_size() as u64 + bytes::get_u32(buf, 20, kind.little_endian()) as u64
        },
    }
}

/// Decide whether signing can start.
fn ready(buf: &[u8]) -> (ready: Result<Option<macho::LoadInfo>, SignError>)
    ensures
        error::agrees(ready, readiness(buf@)),
        ready matches Ok(Some(info)) ==> info.wf() && info.prefix_len() <= buf.len(),
{
    if buf.len() < 4 {
        return Ok(None);
    }
    let kind = match macho::macho_kind(buf) {
        None => return Err(SignError::NotMachO),
        Some(kind) => kind,
    };
    match kind {
        MachOKind::Fat => return Err(SignError::FatBinaryNotStreamable),
        MachOKind::Fat64 => return Err(SignError::Fat64Unsupported),
        _ => {},
    }
    if buf.len() < kind.header_size() {
        return Ok(None);
    }
    let (_, sizeofcmds) = macho::parse_header(buf)?;
    if buf.len() < kind.header_size() + sizeofcmds {
        return Ok(None);
    }
    let info = macho::parse_load_info(buf)?;
    if buf.len() < info.required_prefix_len() {
        return Ok(None);
    }
    Ok(Some(info))
}

enum State {
    /// Accumulating the header and load commands.
    Buffering { buf: Vec<u8> },
    /// Header patched and written; hashing code pages as they stream through.
    Streaming(Stream),
}

/// A writer that ad-hoc signs a thin Mach-O binary in a single streaming
/// pass.
///
/// Bytes written to the signer are forwarded to the inner buffer with the
/// header and load commands patched for the new signature, and every 4 KiB
/// code page is hashed on the fly. Calling [`finish`](Self::finish) appends
/// the signature blob and returns the inner buffer. Its content can be taken
/// out at any time with [`take_output`](Self::take_output).
///
/// This allows combining "copy/transform a binary" and "re-sign it" into a
/// single read and a single write of the file, instead of the
/// write-then-rewrite that `codesign` requires.
///
/// Any bytes of an *existing* signature at the end of the input are consumed
/// and discarded (the new signature replaces them).
///
/// # Limitations
///
/// * Fat (universal) binaries are rejected with
///   [`SignError::FatBinaryNotStreamable`]; use [`crate::adhoc_sign`] for
///   those.
/// * [`Entitlements::Preserve`] is rejected with
///   [`SignError::CannotPreserveWhenStreaming`] because the existing
///   entitlements live at the end of the input. Extract them up front with
///   [`extract_entitlements`](crate::extract_entitlements) and pass them as
///   [`Entitlements::Custom`].
///
/// # Example
///
/// ```no_run
/// use arwen_codesign::{AdhocSignOptions, StreamingSigner};
///
/// let options = AdhocSignOptions::new("libfoo.dylib");
/// let mut signer = StreamingSigner::new(Vec::new(), &options)?;
/// signer.write_all(&std::fs::read("libfoo.dylib")?)?;
/// std::fs::write("signed/libfoo.dylib", signer.finish()?)?;
/// # Ok::<(), arwen_codesign::SignError>(())
/// ```
pub struct StreamingSigner {
    inner: Vec<u8>,
    identifier: String,
    hardened_runtime: bool,
    linker_signed: bool,
    entitlements: Option<Vec<u8>>,
    state: State,
}

impl View for StreamingSigner {
    type V = SignerView;

    closed spec fn view(&self) -> SignerView {
        SignerView {
            written: self.inner@,
            identifier: self.identifier@,
            hardened_runtime: self.hardened_runtime,
            linker_signed: self.linker_signed,
            entitlements: layout::optional_bytes(self.entitlements),
            state: match self.state {
                State::Buffering { buf } => StateView::Buffering { buf: buf@ },
                State::Streaming(stream) => StateView::Streaming {
                    layout: stream.layout@,
                    min_input: stream.min_input,
                    code: stream.code@,
                },
            },
        }
    }
}

impl StreamingSigner {
    /// The hashes are those of the code that has streamed through.
    pub closed spec fn wf(&self) -> bool {
        self.state matches State::Streaming(stream) ==> stream.wf()
    }

    /// A signer's value is valid.
    pub proof fn lemma_valid(&self)
        requires
            self.wf(),
        ensures
            self@.valid(),
    {
    }

    /// Create a new streaming signer that writes the signed binary to
    /// `inner`.
    pub fn new(inner: Vec<u8>, options: &AdhocSignOptions<'_>) -> (signer: Result<Self, SignError>)
        ensures
            match signer {
                Ok(signer) => {
                    &&& !(options@.entitlements is Preserve)
                    &&& signer.wf()
                    &&& signer@ == SignerView::fresh(inner@, options@)
                },
                Err(error) => {
                    &&& options@.entitlements is Preserve
                    &&& error@ == ErrorView::CannotPreserveWhenStreaming
                },
            },
    {
        let entitlements = match &options.entitlements {
            Entitlements::Omit => None,
            Entitlements::Custom(data) => Some(slice_to_vec(data)),
            Entitlements::Preserve => return Err(SignError::CannotPreserveWhenStreaming),
        };
        let buf: Vec<u8> = Vec::new();
        Ok(
            StreamingSigner {
                inner,
                identifier: options.identifier.to_owned(),
                hardened_runtime: options.hardened_runtime,
                linker_signed: options.linker_signed,
                entitlements,
                state: State::Buffering { buf },
            },
        )
    }

    /// Hash and forward bytes once the header has been patched.
    fn feed(&mut self, chunk: &[u8])
        requires
            old(self).wf(),
        ensures
            final(self).wf(),
            final(self)@ == old(self)@.fed(chunk@),
    {
        match &mut self.state {
            State::Buffering { .. } => {},
            State::Streaming(stream) => stream.feed(chunk, &mut self.inner),
        }
    }

    /// Attempt to transition from buffering to streaming. Stays in the
    /// buffering state (without error) while the header and load commands
    /// are still incomplete.
    fn try_start(&mut self) -> (done: Result<(), SignError>)
        requires
            old(self).wf(),
        ensures
            final(self).wf(),
            match old(self)@.state {
                StateView::Buffering { buf } => {
                    let (after, expected) = old(self)@.buffered(buf);
                    &&& final(self)@ == after
                    &&& error::agrees(done, expected)
                },
                StateView::Streaming { .. } => done is Ok && final(self)@ == old(self)@,
            },
    {
        let info = match &self.state {
            State::Buffering { buf } => match ready(buf.as_slice())? {
                None => return Ok(()),
                Some(info) => info,
            },
            State::Streaming(_) => return Ok(()),
        };

        // Everything needed to patch the header is available.
        let buf: Vec<u8> = Vec::new();
        let mut state = State::Buffering { buf };
        std::mem::swap(&mut self.state, &mut state);
        let mut prefix = match state {
            State::Buffering { buf } => buf,
            State::Streaming(_) => return Ok(()),
        };
        let ghost whole = prefix@;
        let rest = prefix.split_off(info.required_prefix_len());
        assert(prefix@ =~= whole.take(info.prefix_len()));
        assert(rest@ =~= whole.skip(info.prefix_len()));
        let entitlements = self.entitlements.take();
        let prepared = sign::prepare(
            &mut prefix,
            &info,
            self.identifier.as_str(),
            self.hardened_runtime,
            self.linker_signed,
            entitlements,
        )?;
        let page_hashes: Vec<u8> = Vec::new();
        let stream = Stream {
            layout: prepared.layout,
            min_input: prepared.min_input,
            hasher: digest::new_hasher(),
            page_hashes,
            position: 0,
            code: Ghost(Seq::empty()),
        };
        proof {
            let empty = Seq::<u8>::empty();
            assert(empty.skip(0) =~= empty);
            assert(stream.wf());
        }
        self.state = State::Streaming(stream);
        self.feed(prefix.as_slice());
        self.feed(rest.as_slice());
        Ok(())
    }

    /// Write bytes of the binary through the signer, as
    /// [`write`](Self::write) does, with the signer's own error.
    pub fn process(&mut self, data: &[u8]) -> (done: Result<(), SignError>)
        requires
            old(self).wf(),
        ensures
            final(self).wf(),
            ({
                let (after, expected) = old(self)@.step(data@);
                &&& final(self)@ == after
                &&& error::agrees(done, expected)
            }),
    {
        match &mut self.state {
            State::Buffering { buf } => {
                buf.extend_from_slice(data);
                proof {
                    let buf = old(self)@.state->buf;
                    assert(self@.state->buf =~= buf + data@);
                    assert(self@ == SignerView {
                        state: StateView::Buffering { buf: buf + data@ },
                        ..old(self)@
                    });
                }
                self.try_start()
            },
            State::Streaming(_) => {
                self.feed(data);
                Ok(())
            },
        }
    }
}

impl StreamingSigner {
    /// Write bytes of the binary through the signer. All of them are taken
    /// unless an error is returned.
    pub fn write(&mut self, data: &[u8]) -> (count: Result<usize, std::io::Error>)
        requires
            old(self).wf(),
        ensures
            final(self).wf(),
            ({
                let (after, expected) = old(self)@.step(data@);
                &&& final(self)@ == after
                &&& match expected {
                    Ok(_) => count == Ok::<usize, std::io::Error>(data.len()),
                    Err(error) => count == Err::<usize, std::io::Error>(
                        error::invalid_data_error(error.message()),
                    ),
                }
            }),
    {
        match self.process(data) {
            Ok(_) => Ok(data.len()),
            Err(error) => Err(error.into_io_error()),
        }
    }

    /// Write bytes of the binary through the signer until all of them are
    /// taken: nothing is written where there are none.
    pub fn write_all(&mut self, data: &[u8]) -> (done: Result<(), std::io::Error>)
        requires
            old(self).wf(),
        ensures
            final(self).wf(),
            if data@.len() == 0 {
                done is Ok && final(self)@ == old(self)@
            } else {
                let (after, expected) = old(self)@.step(data@);
                &&& final(self)@ == after
                &&& match expected {
                    Ok(_) => done is Ok,
                    Err(error) => done == Err::<(), std::io::Error>(
                        error::invalid_data_error(error.message()),
                    ),
                }
            },
    {
        if data.len() == 0 {
            return Ok(());
        }
        match self.write(data) {
            Ok(_) => Ok(()),
            Err(error) => Err(error),
        }
    }

    /// Take out what has been written to the inner buffer so far.
    pub fn take_output(&mut self) -> (output: Vec<u8>)
        requires
            old(self).wf(),
        ensures
            final(self).wf(),
            output@ == old(self)@.written,
            final(self)@ == (SignerView { written: Seq::empty(), ..old(self)@ }),
    {
        let mut output: Vec<u8> = Vec::new();
        std::mem::swap(&mut self.inner, &mut output);
        assert(self@.written =~= Seq::empty());
        output
    }

    /// Finish signing: zero-pad up to the code limit if necessary, append
    /// the signature blob, and return the inner buffer.
    pub fn finish(self) -> (signed: Result<Vec<u8>, SignError>)
        requires
            self.wf(),
        ensures
            sign::is_signed(signed, self@.finished()),
    {
        let ghost before = self@;
        let StreamingSigner { mut inner, state, .. } = self;
        let mut stream = match state {
            // If the input ended while we were still buffering the header,
            // give a precise error.
            State::Buffering { buf } => {
                let kind = match macho::macho_kind(buf.as_slice()) {
                    None => return Err(SignError::NotMachO),
                    Some(kind) => kind,
                };
                let expected = bytes_needed(buf.as_slice(), kind);
                return Err(SignError::TruncatedInput { expected, got: buf.len() as u64 });
            },
            State::Streaming(stream) => stream,
        };
        if stream.position < stream.min_input {
            return Err(
                SignError::TruncatedInput { expected: stream.min_input, got: stream.position },
            );
        }

        // Zero-pad up to the (16-byte aligned) code limit. This only happens
        // for fresh signatures on binaries whose size is not 16-byte aligned.
        let zeros: [u8; 16] = [0; 16];
        let ghost code = stream.code@;
        let ghost written = inner@;
        let ghost mut padded: nat = 0;
        let limit = stream.layout.code_limit;
        assert(code + bytes::zeros(0) =~= code);
        assert(written + bytes::zeros(0) =~= written);
        while stream.position < limit
            invariant
                stream.wf(),
                stream.layout.code_limit == limit,
                stream.layout@ == before.state->layout,
                zeros@ == bytes::zeros(16),
                stream.code@ == code + bytes::zeros(padded),
                inner@ == written + bytes::zeros(padded),
            decreases limit - stream.position,
        {
            let ghost taken = passed(zeros@, stream.code@.len() as int, limit as int);
            stream.feed(&zeros, &mut inner);
            proof {
                assert(bytes::zeros(padded) + taken =~= bytes::zeros(padded + taken.len()));
                assert(stream.code@ =~= code + bytes::zeros(padded + taken.len()));
                assert(inner@ =~= written + bytes::zeros(padded + taken.len()));
                padded = padded + taken.len();
            }
        }
        proof {
            digest::lemma_page_digests_len(
                stream.code@,
                CS_PAGE_SIZE as int,
                stream.layout.n_code_slots as nat,
            );
        }
        assert(stream.layout@.built(stream.page_hashes@) is Ok);
        let blob = stream.layout.build_blob(stream.page_hashes.as_slice())?;
        inner.extend_from_slice(blob.as_slice());
        proof {
            assert(padded == limit - code.len());
            assert(stream.page_hashes@ == digest::all_page_digests(stream.code@));
            assert(inner@ == written + bytes::zeros(padded) + blob@);
        }
        Ok(inner)
    }

    /// Consume the signer and return the inner buffer without completing the
    /// signature. The output written so far is not a valid binary.
    pub fn into_inner(self) -> (inner: Vec<u8>)
        ensures
            inner@ == self@.written,
    {
        self.inner
    }
}

} // verus!
