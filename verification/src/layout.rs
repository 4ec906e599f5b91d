//! Computation of the code signature layout and serialization of the
//! signature SuperBlob.
//!
//! The layout is fully determined by the signing options and the code limit
//! (the file offset at which the signature starts). This is what makes
//! single-pass streaming possible: all load command patches and the total
//! output size are known before a single code page has been hashed.

use crate::bytes;
use crate::constants::{
    CSMAGIC_BLOBWRAPPER, CSMAGIC_CODEDIRECTORY, CSMAGIC_EMBEDDED_ENTITLEMENTS,
    CSMAGIC_EMBEDDED_SIGNATURE, CSMAGIC_REQUIREMENTS, CSSLOT_CODEDIRECTORY, CSSLOT_ENTITLEMENTS,
    CSSLOT_REQUIREMENTS, CSSLOT_SIGNATURESLOT, CS_ADHOC, CS_EXECSEG_MAIN_BINARY,
    CS_HASHTYPE_SHA256, CS_LINKER_SIGNED, CS_PAGE_SIZE, CS_PAGE_SIZE_LOG2, CS_RUNTIME, CS_VERSION,
};
use crate::digest;
use crate::digest::HASH_SIZE;
use crate::error;
use crate::error::ErrorView;
use crate::error::SignError;
use crate::macho::LoadInfo;
use crate::text;
use vstd::prelude::*;
use vstd::slice::slice_to_vec;
use vstd::utf8::*;

verus! {

/// Size of the CodeDirectory header for version `0x20400`.
pub const CODEDIRECTORY_SIZE: usize = 88;

/// Size of an empty Requirements blob (magic + length + count).
pub const REQUIREMENTS_BLOB_SIZE: usize = 12;

/// Size of an empty CMS signature blob wrapper (magic + length).
pub const CMS_BLOB_SIZE: usize = 8;

/// Extra space reserved beyond the actual signature content. Apple's
/// `codesign` reserves generous slack as well (between ~1 KiB and ~18 KiB
/// depending on the version); the slack allows the signature to be replaced
/// in-place without rewriting the whole file.
pub const ALLOCATION_SLACK: usize = 1024;

/// `__LINKEDIT` vmsize is rounded up to 16 KiB pages, matching Apple's
/// `codesign` (and the maximum page size across x86_64/arm64).
pub const SEGMENT_PAGE_SIZE: u64 = 0x4000;

/// A fully computed code signature layout.
#[derive(Debug)]
pub struct Layout {
    /// File offset where the signature is placed; all bytes before it are
    /// covered by the page hashes.
    pub code_limit: u64,
    /// Number of 4 KiB code pages that will be hashed.
    pub n_code_slots: usize,
    /// Number of special (negative-index) hash slots.
    pub n_special_slots: u32,
    /// CodeDirectory flags (`CS_ADHOC`, ...).
    pub flags: u32,
    pub exec_seg_base: u64,
    pub exec_seg_limit: u64,
    pub exec_seg_flags: u64,
    /// Signature identifier (without NUL terminator).
    pub identifier: Vec<u8>,
    /// Entitlements plist data, if any.
    pub entitlements: Option<Vec<u8>>,
    /// Size of the actual SuperBlob content.
    pub blob_size: usize,
    /// Allocated size of the signature region (`>= blob_size`, 16-byte
    /// aligned); this is what `LC_CODE_SIGNATURE.datasize` is set to.
    pub allocated_size: usize,
}

/// The mathematical value of a [`Layout`].
#[verifier::ext_equal]
pub ghost struct LayoutView {
    pub code_limit: u64,
    pub n_code_slots: usize,
    pub n_special_slots: u32,
    pub flags: u32,
    pub exec_seg_base: u64,
    pub exec_seg_limit: u64,
    pub exec_seg_flags: u64,
    pub identifier: Seq<u8>,
    pub entitlements: Option<Seq<u8>>,
    pub blob_size: usize,
    pub allocated_size: usize,
}

/// The bytes of a vector that may be missing.
pub open spec fn optional_bytes(bytes: Option<Vec<u8>>) -> Option<Seq<u8>> {
    match bytes {
        Some(bytes) => Some(bytes@),
        None => None,
    }
}

impl View for Layout {
    type V = LayoutView;

    open spec fn view(&self) -> LayoutView {
        LayoutView {
            code_limit: self.code_limit,
            n_code_slots: self.n_code_slots,
            n_special_slots: self.n_special_slots,
            flags: self.flags,
            exec_seg_base: self.exec_seg_base,
            exec_seg_limit: self.exec_seg_limit,
            exec_seg_flags: self.exec_seg_flags,
            identifier: self.identifier@,
            entitlements: optional_bytes(self.entitlements),
            blob_size: self.blob_size,
            allocated_size: self.allocated_size,
        }
    }
}

impl LayoutView {
    /// Number of blobs in the SuperBlob.
    pub open spec fn blob_count(self) -> int {
        if self.entitlements is Some {
            4
        } else {
            3
        }
    }

    /// SuperBlob header plus blob index entries.
    pub open spec fn superblob_header_size(self) -> int {
        12 + self.blob_count() * 8
    }

    /// Where the code page hashes stand in the CodeDirectory blob.
    pub open spec fn hash_offset(self) -> int {
        CODEDIRECTORY_SIZE + self.identifier.len() + 1 + self.n_special_slots * HASH_SIZE
    }

    /// Total size of the CodeDirectory blob.
    pub open spec fn codedirectory_size(self) -> int {
        self.hash_offset() + self.n_code_slots * HASH_SIZE
    }

    pub open spec fn entitlements_blob_size(self) -> int {
        match self.entitlements {
            Some(entitlements) => 8 + entitlements.len() as int,
            None => 0,
        }
    }

    /// Where the Requirements blob stands in the SuperBlob.
    pub open spec fn requirements_offset(self) -> int {
        self.superblob_header_size() + self.codedirectory_size()
    }

    /// Where the entitlements blob stands in the SuperBlob, if there is one.
    pub open spec fn entitlements_offset(self) -> int {
        self.requirements_offset() + REQUIREMENTS_BLOB_SIZE
    }

    /// Where the CMS signature wrapper stands in the SuperBlob.
    pub open spec fn cms_offset(self) -> int {
        self.entitlements_offset() + self.entitlements_blob_size()
    }

    /// Size of the SuperBlob.
    pub open spec fn content_size(self) -> int {
        self.cms_offset() + CMS_BLOB_SIZE
    }

    /// New file size of the signed binary.
    pub open spec fn file_size(self) -> int {
        self.code_limit + self.allocated_size
    }

    /// The sizes fit together, and the signed binary ends within 4 GiB.
    pub open spec fn wf(self) -> bool {
        &&& self.n_code_slots == bytes::pieces(self.code_limit as int, CS_PAGE_SIZE as int)
        &&& self.n_special_slots == (if self.entitlements is Some {
            CSSLOT_ENTITLEMENTS
        } else {
            CSSLOT_REQUIREMENTS
        })
        &&& self.blob_size == self.content_size()
        &&& self.allocated_size == bytes::round_up(self.blob_size + ALLOCATION_SLACK, 16)
        &&& self.file_size() <= u32::MAX
    }
}

/// The CodeDirectory flags of a signature.
pub open spec fn signing_flags(hardened_runtime: bool, linker_signed: bool) -> u32 {
    let adhoc = CS_ADHOC;
    let runtime = if hardened_runtime {
        adhoc | CS_RUNTIME
    } else {
        adhoc
    };
    if linker_signed {
        runtime | CS_LINKER_SIGNED
    } else {
        runtime
    }
}

/// The layout of the signature of a binary, its sizes not filled in yet.
pub open spec fn draft(
    info: LoadInfo,
    code_limit: u64,
    identifier: Seq<char>,
    hardened_runtime: bool,
    linker_signed: bool,
    entitlements: Option<Seq<u8>>,
) -> LayoutView {
    LayoutView {
        code_limit,
        n_code_slots: bytes::pieces(code_limit as int, CS_PAGE_SIZE as int) as usize,
        n_special_slots: if entitlements is Some {
            CSSLOT_ENTITLEMENTS
        } else {
            CSSLOT_REQUIREMENTS
        },
        flags: signing_flags(hardened_runtime, linker_signed),
        exec_seg_base: info.text_fileoff,
        exec_seg_limit: info.text_filesize,
        exec_seg_flags: if info.is_executable {
            CS_EXECSEG_MAIN_BINARY
        } else {
            0
        },
        identifier: encode_utf8(identifier),
        entitlements,
        blob_size: 0,
        allocated_size: 0,
    }
}

/// The layout of the signature of a binary, or why it cannot have one.
#[verifier::opaque]
pub open spec fn layout_of(
    info: LoadInfo,
    code_limit: u64,
    identifier: Seq<char>,
    hardened_runtime: bool,
    linker_signed: bool,
    entitlements: Option<Seq<u8>>,
) -> Result<LayoutView, ErrorView> {
    let draft = draft(info, code_limit, identifier, hardened_runtime, linker_signed, entitlements);
    let blob_size = draft.content_size();
    let allocated_size = bytes::round_up(blob_size + ALLOCATION_SLACK, 16);
    if code_limit > u32::MAX {
        Err(
            ErrorView::TooLarge(
                "code signature would start at offset "@ + text::decimal(code_limit as nat)
                    + ", beyond the 4 GiB limit"@,
            ),
        )
    } else if code_limit + allocated_size > u32::MAX {
        Err(
            ErrorView::TooLarge(
                "signature blob does not fit within the first 4 GiB of the file"@,
            ),
        )
    } else {
        Ok(
            LayoutView {
                blob_size: blob_size as usize,
                allocated_size: allocated_size as usize,
                ..draft
            },
        )
    }
}

/// A layout that was computed is well-formed.
pub proof fn lemma_layout_wf(
    info: LoadInfo,
    code_limit: u64,
    identifier: Seq<char>,
    hardened_runtime: bool,
    linker_signed: bool,
    entitlements: Option<Seq<u8>>,
)
    ensures
        layout_of(
            info,
            code_limit,
            identifier,
            hardened_runtime,
            linker_signed,
            entitlements,
        ) matches Ok(layout) ==> layout.wf(),
{
    reveal(layout_of);
}

/// The sizes of `__LINKEDIT`, which holds the signature at its end: in the
/// file and in memory.
pub open spec fn linkedit_sizes_of(layout: LayoutView, linkedit_fileoff: u64) -> Result<
    (u64, u64),
    ErrorView,
> {
    let filesize = layout.file_size() - linkedit_fileoff;
    if filesize < 0 {
        Err(ErrorView::Malformed("__LINKEDIT segment starts after the code signature"@))
    } else {
        Ok((filesize as u64, bytes::round_up(filesize, SEGMENT_PAGE_SIZE as int) as u64))
    }
}

impl Layout {
    /// Compute the signature layout for a binary.
    pub fn compute(
        info: &LoadInfo,
        code_limit: u64,
        identifier: &str,
        hardened_runtime: bool,
        linker_signed: bool,
        entitlements: Option<Vec<u8>>,
    ) -> (layout: Result<Layout, SignError>)
        ensures
            match layout {
                Ok(layout) => layout@.wf() && layout_of(
                    *info,
                    code_limit,
                    identifier@,
                    hardened_runtime,
                    linker_signed,
                    optional_bytes(entitlements),
                ) == Ok::<LayoutView, ErrorView>(layout@),
                Err(error) => !(error is Io) && layout_of(
                    *info,
                    code_limit,
                    identifier@,
                    hardened_runtime,
                    linker_signed,
                    optional_bytes(entitlements),
                ) == Err::<LayoutView, ErrorView>(error@),
            },
    {
        proof {
            reveal(layout_of);
        }
        if code_limit > u32::MAX as u64 {
            return Err(
                SignError::TooLarge(
                    text::with_decimal(
                        "code signature would start at offset ",
                        code_limit,
                        ", beyond the 4 GiB limit",
                    ),
                ),
            );
        }
        let mut flags = CS_ADHOC;
        if hardened_runtime {
            flags = flags | CS_RUNTIME;
        }
        if linker_signed {
            flags = flags | CS_LINKER_SIGNED;
        }
        let n_code_slots = ((code_limit + (CS_PAGE_SIZE as u64 - 1)) / CS_PAGE_SIZE as u64) as usize;
        let n_special_slots = if entitlements.is_some() {
            CSSLOT_ENTITLEMENTS
        } else {
            CSSLOT_REQUIREMENTS
        };
        let identifier = slice_to_vec(identifier.as_bytes());
        let mut layout = Layout {
            code_limit,
            n_code_slots,
            n_special_slots,
            flags,
            exec_seg_base: info.text_fileoff,
            exec_seg_limit: info.text_filesize,
            exec_seg_flags: if info.is_executable {
                CS_EXECSEG_MAIN_BINARY
            } else {
                0
            },
            identifier,
            entitlements,
            blob_size: 0,
            allocated_size: 0,
        };
        // Lengths that are too large on their own are sorted out first, so
        // that the sum of all sizes cannot overflow.
        let entitlements_len: usize = match &layout.entitlements {
            Some(entitlements) => entitlements.len(),
            None => 0,
        };
        if layout.identifier.len() as u64 > u32::MAX as u64 || entitlements_len as u64
            > u32::MAX as u64 {
            return Err(
                error::too_large("signature blob does not fit within the first 4 GiB of the file"),
            );
        }
        let blob_size = layout.superblob_header_size() + layout.codedirectory_size()
            + REQUIREMENTS_BLOB_SIZE as u64 + layout.entitlements_blob_size()
            + CMS_BLOB_SIZE as u64;
        let allocated_size = (blob_size + ALLOCATION_SLACK as u64 + 15) / 16 * 16;
        if code_limit + allocated_size > u32::MAX as u64 {
            return Err(
                error::too_large("signature blob does not fit within the first 4 GiB of the file"),
            );
        }
        layout.blob_size = blob_size as usize;
        layout.allocated_size = allocated_size as usize;
        Ok(layout)
    }

    /// Lengths that can be added up.
    pub open spec fn bounded(&self) -> bool {
        &&& self.n_special_slots <= CSSLOT_ENTITLEMENTS
        &&& self.n_code_slots <= 0x10_0000
        &&& self.identifier@.len() <= u32::MAX
        &&& self.entitlements matches Some(entitlements) ==> entitlements@.len() <= u32::MAX
    }

    /// Number of blobs in the SuperBlob.
    fn blob_count(&self) -> (count: u64)
        ensures
            count == self@.blob_count(),
    {
        if self.entitlements.is_some() {
            4
        } else {
            3
        }
    }

    /// SuperBlob header plus blob index entries.
    fn superblob_header_size(&self) -> (size: u64)
        ensures
            size == self@.superblob_header_size(),
    {
        12 + self.blob_count() * 8
    }

    /// Total size of the CodeDirectory blob.
    fn codedirectory_size(&self) -> (size: u64)
        requires
            self.bounded(),
        ensures
            size == self@.codedirectory_size(),
    {
        let slots: u64 = self.n_special_slots as u64 + self.n_code_slots as u64;
        assert(slots * HASH_SIZE == slots * 32);
        CODEDIRECTORY_SIZE as u64 + self.identifier.len() as u64 + 1 + slots * HASH_SIZE as u64
    }

    fn entitlements_blob_size(&self) -> (size: u64)
        requires
            self.bounded(),
        ensures
            size == self@.entitlements_blob_size(),
    {
        match &self.entitlements {
            Some(entitlements) => 8 + entitlements.len() as u64,
            None => 0,
        }
    }

    /// New file size of the signed binary (`code_limit + allocated_size`).
    pub fn signed_file_size(&self) -> (size: u64)
        requires
            self@.wf(),
        ensures
            size == self@.file_size(),
    {
        self.code_limit + self.allocated_size as u64
    }

    /// New `__LINKEDIT` `filesize`/`vmsize` values.
    pub fn linkedit_sizes(&self, linkedit_fileoff: u64) -> (sizes: Result<(u64, u64), SignError>)
        requires
            self@.wf(),
        ensures
            error::agrees(sizes, linkedit_sizes_of(self@, linkedit_fileoff)),
    {
        let end = self.signed_file_size();
        if end < linkedit_fileoff {
            return Err(error::malformed("__LINKEDIT segment starts after the code signature"));
        }
        let filesize: u64 = end - linkedit_fileoff;
        let vmsize: u64 = (filesize + (SEGMENT_PAGE_SIZE - 1)) / SEGMENT_PAGE_SIZE
            * SEGMENT_PAGE_SIZE;
        Ok((filesize, vmsize))
    }
}

/// The four bytes of `value`, most significant first.
pub open spec fn be(value: int) -> Seq<u8> {
    bytes::u32_bytes(value as u32, false)
}

/// The eight bytes of `value`, most significant first.
pub open spec fn be64(value: u64) -> Seq<u8> {
    bytes::u64_bytes(value, false)
}

/// The empty Requirements blob: magic, length and a count of zero.
pub open spec fn requirements_blob() -> Seq<u8> {
    be(CSMAGIC_REQUIREMENTS as int) + be(REQUIREMENTS_BLOB_SIZE as int) + be(0)
}

/// The blob that holds an entitlements plist: magic, length and the plist.
pub open spec fn entitlements_blob(entitlements: Seq<u8>) -> Seq<u8> {
    be(CSMAGIC_EMBEDDED_ENTITLEMENTS as int) + be(
        8 + entitlements.len() as int,
    ) + entitlements
}

/// The empty CMS signature wrapper: magic and length.
pub open spec fn cms_blob() -> Seq<u8> {
    be(CSMAGIC_BLOBWRAPPER as int) + be(CMS_BLOB_SIZE as int)
}

impl LayoutView {
    /// The SuperBlob header and the index of the blobs: the slot of each and
    /// where it stands.
    #[verifier::opaque]
    pub open spec fn superblob_header(self) -> Seq<u8> {
        let start = be(CSMAGIC_EMBEDDED_SIGNATURE as int) + be(self.blob_size as int) + be(
            self.blob_count(),
        ) + be(CSSLOT_CODEDIRECTORY as int) + be(self.superblob_header_size()) + be(
            CSSLOT_REQUIREMENTS as int,
        ) + be(self.requirements_offset());
        let middle = if self.entitlements is Some {
            start + be(CSSLOT_ENTITLEMENTS as int) + be(self.entitlements_offset())
        } else {
            start
        };
        middle + be(CSSLOT_SIGNATURESLOT as int) + be(self.cms_offset())
    }

    /// The integers at the start of the CodeDirectory (version 0x20400).
    #[verifier::opaque]
    pub open spec fn codedirectory_words(self) -> Seq<u8> {
        be(CSMAGIC_CODEDIRECTORY as int) + be(self.codedirectory_size()) + be(CS_VERSION as int)
            + be(self.flags as int) + be(self.hash_offset()) + be(CODEDIRECTORY_SIZE as int) + be(
            self.n_special_slots as int,
        ) + be(self.n_code_slots as int) + be(self.code_limit as int)
    }

    /// The end of the fixed part of the CodeDirectory: `spare2`,
    /// `scatterOffset`, `teamOffset`, `spare3`, `codeLimit64` and the
    /// executable segment.
    #[verifier::opaque]
    pub open spec fn codedirectory_tail(self) -> Seq<u8> {
        be(0) + be(0) + be(0) + be(0) + be64(0) + be64(self.exec_seg_base) + be64(
            self.exec_seg_limit,
        ) + be64(self.exec_seg_flags)
    }

    /// The fixed part of the CodeDirectory; `hashSize`, `hashType`,
    /// `platform` and `pageSize` (log2) are a byte each.
    pub open spec fn codedirectory_header(self) -> Seq<u8> {
        self.codedirectory_words() + seq![
            HASH_SIZE as u8,
            CS_HASHTYPE_SHA256,
            0u8,
            CS_PAGE_SIZE_LOG2,
        ] + self.codedirectory_tail()
    }

    /// The hash in a special slot: of the blob that belongs there, or zeros.
    pub open spec fn special_hash(self, slot: u32) -> Seq<u8> {
        match self.entitlements {
            Some(entitlements) if slot == CSSLOT_ENTITLEMENTS => digest::sha256(
                entitlements_blob(entitlements),
            )@,
            _ => if slot == CSSLOT_REQUIREMENTS {
                digest::sha256(requirements_blob())@
            } else {
                bytes::zeros(HASH_SIZE as nat)
            },
        }
    }

    /// The hashes in the special slots from `slot` down to the first.
    pub open spec fn special_hashes(self, slot: u32) -> Seq<u8>
        decreases slot,
    {
        if slot == 0 {
            Seq::empty()
        } else {
            self.special_hash(slot) + self.special_hashes((slot - 1) as u32)
        }
    }

    /// The CodeDirectory blob.
    #[verifier::opaque]
    pub open spec fn codedirectory(self, page_hashes: Seq<u8>) -> Seq<u8> {
        self.codedirectory_header() + self.identifier + seq![0u8] + self.special_hashes(
            self.n_special_slots,
        ) + page_hashes
    }

    /// The SuperBlob.
    #[verifier::opaque]
    pub open spec fn content(self, page_hashes: Seq<u8>) -> Seq<u8> {
        let start = self.superblob_header() + self.codedirectory(page_hashes)
            + requirements_blob();
        let middle = match self.entitlements {
            Some(entitlements) => start + entitlements_blob(entitlements),
            None => start,
        };
        middle + cms_blob()
    }

    /// The signature region: the SuperBlob followed by zero padding.
    pub open spec fn region(self, page_hashes: Seq<u8>) -> Seq<u8> {
        bytes::resized(self.content(page_hashes), self.allocated_size as nat)
    }

    /// What serializing the signature gives.
    pub open spec fn built(self, page_hashes: Seq<u8>) -> Result<Seq<u8>, ErrorView> {
        if page_hashes.len() != self.n_code_slots * HASH_SIZE {
            Err(
                ErrorView::Malformed(
                    "internal error: expected "@ + text::decimal(self.n_code_slots as nat)
                        + " page hashes, got "@ + text::decimal(page_hashes.len() / HASH_SIZE as nat),
                ),
            )
        } else {
            Ok(self.region(page_hashes))
        }
    }

    pub proof fn lemma_special_hashes_len(self, slot: u32)
        ensures
            self.special_hashes(slot).len() == slot * HASH_SIZE,
        decreases slot,
    {
        if slot > 0 {
            self.lemma_special_hashes_len((slot - 1) as u32);
        }
    }

    /// Every blob has the size that the layout gives it.
    pub proof fn lemma_lengths(self, page_hashes: Seq<u8>)
        requires
            page_hashes.len() == self.n_code_slots * HASH_SIZE,
        ensures
            self.superblob_header().len() == self.superblob_header_size(),
            self.codedirectory_header().len() == CODEDIRECTORY_SIZE,
            self.codedirectory(page_hashes).len() == self.codedirectory_size(),
            requirements_blob().len() == REQUIREMENTS_BLOB_SIZE,
            self.entitlements matches Some(entitlements) ==> entitlements_blob(entitlements).len()
                == self.entitlements_blob_size(),
            cms_blob().len() == CMS_BLOB_SIZE,
            self.content(page_hashes).len() == self.content_size(),
    {
        reveal(LayoutView::superblob_header);
        reveal(LayoutView::codedirectory_words);
        reveal(LayoutView::codedirectory_tail);
        reveal(LayoutView::codedirectory);
        reveal(LayoutView::content);
        self.lemma_special_hashes_len(self.n_special_slots);
    }
}

/// Big-endian writer that appends to a buffer.
struct BeWriter {
    buf: Vec<u8>,
}

impl BeWriter {
    fn new() -> (writer: Self)
        ensures
            writer.buf@ == Seq::<u8>::empty(),
    {
        BeWriter { buf: Vec::new() }
    }

    fn put_u8(&mut self, value: u8)
        ensures
            final(self).buf@ == old(self).buf@ + seq![value],
    {
        self.buf.push(value);
        assert(self.buf@ =~= old(self).buf@ + seq![value]);
    }

    fn put_u32(&mut self, value: u32)
        ensures
            final(self).buf@ == old(self).buf@ + be(value as int),
    {
        self.buf.extend_from_slice(&bytes::bytes_of_u32(value, false));
    }

    fn put_u64(&mut self, value: u64)
        ensures
            final(self).buf@ == old(self).buf@ + be64(value),
    {
        self.put_u32((value / 0x1_0000_0000) as u32);
        self.put_u32((value % 0x1_0000_0000) as u32);
        assert(self.buf@ =~= old(self).buf@ + be64(value));
    }

    fn put_bytes(&mut self, bytes: &[u8])
        ensures
            final(self).buf@ == old(self).buf@ + bytes@,
    {
        self.buf.extend_from_slice(bytes);
    }

    fn skip(&mut self, n: usize)
        requires
            old(self).buf.len() + n <= usize::MAX,
        ensures
            final(self).buf@ == old(self).buf@ + bytes::zeros(n as nat),
    {
        let len: usize = self.buf.len() + n;
        self.buf.resize(len, 0);
        assert(self.buf@ =~= old(self).buf@ + bytes::zeros(n as nat));
    }
}

fn empty_requirements_blob() -> (blob: Vec<u8>)
    ensures
        blob@ == requirements_blob(),
{
    let mut w = BeWriter::new();
    w.put_u32(CSMAGIC_REQUIREMENTS);
    w.put_u32(REQUIREMENTS_BLOB_SIZE as u32);
    w.put_u32(0);
    assert(w.buf@ =~= requirements_blob());
    w.buf
}

fn empty_requirements_hash() -> (hash: [u8; 32])
    ensures
        hash@ == digest::sha256(requirements_blob())@,
{
    digest::sha256_digest(empty_requirements_blob().as_slice())
}

fn entitlements_blob_hash(entitlements: &[u8]) -> (hash: [u8; 32])
    requires
        8 + entitlements@.len() <= u32::MAX,
    ensures
        hash@ == digest::sha256(entitlements_blob(entitlements@))@,
{
    let mut hasher = digest::new_hasher();
    digest::absorb(&mut hasher, &bytes::bytes_of_u32(CSMAGIC_EMBEDDED_ENTITLEMENTS, false));
    digest::absorb(&mut hasher, &bytes::bytes_of_u32(8 + entitlements.len() as u32, false));
    digest::absorb(&mut hasher, entitlements);
    assert(digest::absorbed(hasher) =~= entitlements_blob(entitlements@));
    digest::finalize_reset(&mut hasher)
}

impl Layout {
    /// The SuperBlob header and the blob index.
    fn superblob_header(&self) -> (header: Vec<u8>)
        requires
            self@.wf(),
        ensures
            header@ == self@.superblob_header(),
    {
        let codedir_offset = self.superblob_header_size();
        let requirements_offset = codedir_offset + self.codedirectory_size();
        let entitlements_offset = requirements_offset + REQUIREMENTS_BLOB_SIZE as u64;
        let cms_offset = entitlements_offset + self.entitlements_blob_size();

        let mut w = BeWriter::new();
        w.put_u32(CSMAGIC_EMBEDDED_SIGNATURE);
        assert(w.buf@ =~= be(CSMAGIC_EMBEDDED_SIGNATURE as int));
        w.put_u32(self.blob_size as u32);
        w.put_u32(self.blob_count() as u32);

        // Blob index.
        w.put_u32(CSSLOT_CODEDIRECTORY);
        w.put_u32(codedir_offset as u32);
        w.put_u32(CSSLOT_REQUIREMENTS);
        w.put_u32(requirements_offset as u32);
        if self.entitlements.is_some() {
            w.put_u32(CSSLOT_ENTITLEMENTS);
            w.put_u32(entitlements_offset as u32);
        }
        w.put_u32(CSSLOT_SIGNATURESLOT);
        w.put_u32(cms_offset as u32);
        proof {
            reveal(LayoutView::superblob_header);
        }
        w.buf
    }

    /// The fixed part of the CodeDirectory (version 0x20400).
    fn codedirectory_header(&self) -> (header: Vec<u8>)
        requires
            self@.wf(),
        ensures
            header@ == self@.codedirectory_header(),
    {
        let ident_offset = CODEDIRECTORY_SIZE;
        let hash_offset = CODEDIRECTORY_SIZE as u64 + self.identifier.len() as u64 + 1
            + self.n_special_slots as u64 * HASH_SIZE as u64;

        let mut w = BeWriter::new();
        w.put_u32(CSMAGIC_CODEDIRECTORY);
        assert(w.buf@ =~= be(CSMAGIC_CODEDIRECTORY as int));
        w.put_u32(self.codedirectory_size() as u32);
        w.put_u32(CS_VERSION);
        w.put_u32(self.flags);
        w.put_u32(hash_offset as u32);
        w.put_u32(ident_offset as u32);
        w.put_u32(self.n_special_slots);
        w.put_u32(self.n_code_slots as u32);
        w.put_u32(self.code_limit as u32);
        assert(w.buf@ == self@.codedirectory_words()) by {
            reveal(LayoutView::codedirectory_words);
        }
        let ghost words = w.buf@;
        w.put_u8(HASH_SIZE as u8);  // hashSize
        w.put_u8(CS_HASHTYPE_SHA256);  // hashType
        w.put_u8(0);  // platform
        w.put_u8(CS_PAGE_SIZE_LOG2);  // pageSize (log2)
        assert(w.buf@ =~= words + seq![
            HASH_SIZE as u8,
            CS_HASHTYPE_SHA256,
            0u8,
            CS_PAGE_SIZE_LOG2,
        ]);

        let mut tail = BeWriter::new();
        tail.put_u32(0);  // spare2
        assert(tail.buf@ =~= be(0));
        tail.put_u32(0);  // scatterOffset
        tail.put_u32(0);  // teamOffset
        tail.put_u32(0);  // spare3
        tail.put_u64(0);  // codeLimit64
        tail.put_u64(self.exec_seg_base);
        tail.put_u64(self.exec_seg_limit);
        tail.put_u64(self.exec_seg_flags);
        assert(tail.buf@ == self@.codedirectory_tail()) by {
            reveal(LayoutView::codedirectory_tail);
        }
        w.put_bytes(tail.buf.as_slice());
        w.buf
    }

    /// The CodeDirectory blob.
    fn codedirectory(&self, page_hashes: &[u8]) -> (codedirectory: Vec<u8>)
        requires
            self@.wf(),
            page_hashes@.len() == self.n_code_slots * HASH_SIZE,
        ensures
            codedirectory@ == self@.codedirectory(page_hashes@),
    {
        let header = self.codedirectory_header();
        let mut w = BeWriter { buf: header };

        // Identifier (NUL-terminated).
        w.put_bytes(self.identifier.as_slice());
        w.put_u8(0);

        // Special slot hashes, stored in reverse order (slot -N first).
        let ghost before = w.buf@;
        let mut slot: u32 = self.n_special_slots;
        proof {
            self@.lemma_lengths(page_hashes@);
            assert(w.buf@ + self@.special_hashes(slot) =~= before + self@.special_hashes(
                self.n_special_slots,
            ));
        }
        while slot > 0
            invariant
                self@.wf(),
                slot <= self.n_special_slots <= 5,
                w.buf@ + self@.special_hashes(slot) == before + self@.special_hashes(
                    self.n_special_slots,
                ),
                w.buf@.len() <= before.len() + (self.n_special_slots - slot) * HASH_SIZE,
                before.len() + self.n_special_slots * HASH_SIZE <= u32::MAX,
            decreases slot,
        {
            let ghost start = w.buf@;
            let ghost rest = self@.special_hashes((slot - 1) as u32);
            match &self.entitlements {
                Some(entitlements) if slot == CSSLOT_ENTITLEMENTS => {
                    w.put_bytes(&entitlements_blob_hash(entitlements.as_slice()));
                },
                _ => if slot == CSSLOT_REQUIREMENTS {
                    w.put_bytes(&empty_requirements_hash());
                } else {
                    w.skip(HASH_SIZE);
                },
            }
            assert(w.buf@ == start + self@.special_hash(slot));
            assert(w.buf@ + rest =~= start + self@.special_hashes(slot));
            slot -= 1;
        }
        assert(w.buf@ + self@.special_hashes(0) =~= w.buf@);

        // Code page hashes.
        w.put_bytes(page_hashes);
        proof {
            reveal(LayoutView::codedirectory);
        }
        w.buf
    }

    /// Serialize the signature SuperBlob.
    ///
    /// `page_hashes` must contain exactly `n_code_slots` SHA-256 digests.
    /// The returned buffer has length `allocated_size` (content followed by
    /// zero padding).
    #[verifier::spinoff_prover]
    #[verifier::rlimit(50)]
    pub fn build_blob(&self, page_hashes: &[u8]) -> (blob: Result<Vec<u8>, SignError>)
        requires
            self@.wf(),
        ensures
            match blob {
                Ok(blob) => self@.built(page_hashes@) == Ok::<Seq<u8>, ErrorView>(blob@),
                Err(error) => !(error is Io) && self@.built(page_hashes@) == Err::<
                    Seq<u8>,
                    ErrorView,
                >(error@),
            },
    {
        assert(self.n_code_slots * HASH_SIZE == self.n_code_slots * 32);
        if page_hashes.len() != self.n_code_slots * HASH_SIZE {
            let mut message = text::with_decimal(
                "internal error: expected ",
                self.n_code_slots as u64,
                " page hashes, got ",
            );
            text::push_decimal(&mut message, (page_hashes.len() / HASH_SIZE) as u64);
            return Err(SignError::Malformed(message));
        }
        let header = self.superblob_header();
        let mut w = BeWriter { buf: header };
        let codedirectory = self.codedirectory(page_hashes);
        w.put_bytes(codedirectory.as_slice());

        // Empty Requirements blob.
        w.put_bytes(empty_requirements_blob().as_slice());

        // Entitlements blob.
        match &self.entitlements {
            Some(entitlements) => {
                let ghost before = w.buf@;
                w.put_u32(CSMAGIC_EMBEDDED_ENTITLEMENTS);
                w.put_u32(8 + entitlements.len() as u32);
                w.put_bytes(entitlements.as_slice());
                assert(w.buf@ =~= before + entitlements_blob(entitlements@));
            },
            None => {},
        }

        // Empty CMS signature wrapper.
        let ghost before = w.buf@;
        w.put_u32(CSMAGIC_BLOBWRAPPER);
        w.put_u32(CMS_BLOB_SIZE as u32);
        assert(w.buf@ =~= before + cms_blob());
        assert(w.buf@ == self@.content(page_hashes@)) by {
            reveal(LayoutView::content);
        }
        proof {
            self@.lemma_lengths(page_hashes@);
        }
        let mut blob = w.buf;
        blob.resize(self.allocated_size, 0);
        assert(blob@ =~= self@.region(page_hashes@));
        Ok(blob)
    }
}

} // verus!
