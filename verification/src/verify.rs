//! Verification of embedded ad-hoc code signatures.
//!
//! [`verify`] re-parses a signed binary, recomputes every code page hash and
//! the special slot hashes, and checks all structural invariants the kernel
//! relies on. It is primarily meant for tests and tooling that want to check
//! a signature without a macOS machine, but it is also useful as a
//! post-signing sanity check in production pipelines.

use crate::blob;
use crate::blob::BlobEntry;
use crate::bytes;
use crate::constants::{
    CSMAGIC_CODEDIRECTORY, CSSLOT_CODEDIRECTORY, CSSLOT_ENTITLEMENTS, CSSLOT_REQUIREMENTS,
    CS_HASHTYPE_SHA256,
};
use crate::digest;
use crate::digest::HASH_SIZE;
use crate::error;
use crate::error::ErrorView;
use crate::error::SignError;
use crate::macho;
use crate::macho::MachOKind;
use crate::text;
use vstd::arithmetic::power2;
use vstd::prelude::*;
use vstd::slice::slice_subrange;
use vstd::string::StringExecFns;

verus! {

/// Information about a verified code signature.
#[derive(Debug)]
pub struct SignatureInfo {
    /// The signature identifier.
    pub identifier: String,
    /// CodeDirectory flags (`CS_ADHOC`, `CS_RUNTIME`, `CS_LINKER_SIGNED`, ...).
    pub flags: u32,
    /// The number of bytes covered by the code page hashes.
    pub code_limit: u64,
    /// The number of hashed code pages.
    pub n_code_slots: u32,
    /// The number of special (negative index) hash slots.
    pub n_special_slots: u32,
    /// The SHA-256 hash of the CodeDirectory blob (the "cdhash").
    pub cd_hash: [u8; 32],
    /// Whether the signature embeds entitlements.
    pub has_entitlements: bool,
}

/// The mathematical value of a [`SignatureInfo`].
pub ghost struct SignatureInfoView {
    pub identifier: Seq<char>,
    pub flags: u32,
    pub code_limit: u64,
    pub n_code_slots: u32,
    pub n_special_slots: u32,
    pub cd_hash: Seq<u8>,
    pub has_entitlements: bool,
}

impl View for SignatureInfo {
    type V = SignatureInfoView;

    open spec fn view(&self) -> SignatureInfoView {
        SignatureInfoView {
            identifier: self.identifier@,
            flags: self.flags,
            code_limit: self.code_limit,
            n_code_slots: self.n_code_slots,
            n_special_slots: self.n_special_slots,
            cd_hash: self.cd_hash@,
            has_entitlements: self.has_entitlements,
        }
    }
}

impl Clone for SignatureInfo {
    fn clone(&self) -> (copy: Self)
        ensures
            copy@ == self@,
    {
        SignatureInfo {
            identifier: self.identifier.clone(),
            flags: self.flags,
            code_limit: self.code_limit,
            n_code_slots: self.n_code_slots,
            n_special_slots: self.n_special_slots,
            cd_hash: self.cd_hash,
            has_entitlements: self.has_entitlements,
        }
    }
}

fn fail(message: &str) -> (error: SignError)
    ensures
        error@ == ErrorView::VerificationFailed(message@),
        !(error is Io),
{
    SignError::VerificationFailed(message.to_owned())
}

/// The error with `before`, a number and `after` for its text.
pub open spec fn numbered_failure(before: Seq<char>, n: int, after: Seq<char>) -> ErrorView {
    ErrorView::VerificationFailed(before + text::decimal(n as nat) + after)
}

fn fail_with(before: &str, n: u64, after: &str) -> (error: SignError)
    ensures
        error@ == numbered_failure(before@, n as int, after@),
        !(error is Io),
{
    SignError::VerificationFailed(text::with_decimal(before, n, after))
}

/// The error with two numbers in its text.
pub open spec fn twice_numbered_failure(
    before: Seq<char>,
    first: int,
    between: Seq<char>,
    second: int,
    after: Seq<char>,
) -> ErrorView {
    ErrorView::VerificationFailed(
        before + text::decimal(first as nat) + between + text::decimal(second as nat) + after,
    )
}

fn fail_with_two(before: &str, first: u64, between: &str, second: u64, after: &str) -> (error:
    SignError)
    ensures
        error@ == twice_numbered_failure(
            before@,
            first as int,
            between@,
            second as int,
            after@,
        ),
        !(error is Io),
{
    let mut message = text::with_decimal(before, first, between);
    text::push_decimal(&mut message, second);
    message.append(after);
    SignError::VerificationFailed(message)
}

/// Where the signature of a thin binary starts: the signature has to end the
/// file, and `__LINKEDIT`, which has to contain it, ends there too.
pub open spec fn signature_start(data: Seq<u8>) -> Result<u32, ErrorView> {
    match macho::load_info(data) {
        Err(error) => Err(error),
        Ok(info) => match info.codesig {
            None => Err(
                ErrorView::VerificationFailed(
                    "binary has no LC_CODE_SIGNATURE load command"@,
                ),
            ),
            Some(codesig) => match info.linkedit {
                None => Err(ErrorView::MissingLinkedit),
                Some(linkedit) => {
                    let end = codesig.data_offset + codesig.data_size;
                    if end != data.len() {
                        Err(
                            twice_numbered_failure(
                                "signature region ends at "@,
                                end,
                                " but the file is "@,
                                data.len() as int,
                                " bytes"@,
                            ),
                        )
                    } else if linkedit.fileoff + linkedit.filesize != data.len() {
                        Err(
                            ErrorView::VerificationFailed(
                                "__LINKEDIT segment does not end at the end of the file"@,
                            ),
                        )
                    } else if linkedit.fileoff > codesig.data_offset {
                        Err(
                            ErrorView::VerificationFailed(
                                "signature region starts before the __LINKEDIT segment"@,
                            ),
                        )
                    } else {
                        Ok(codesig.data_offset)
                    }
                },
            },
        },
    }
}

/// The CodeDirectory blob of a signature.
pub open spec fn codedirectory_of(sig: Seq<u8>) -> Result<Seq<u8>, ErrorView> {
    if sig.len() < 8 {
        Err(macho::oob_error("SuperBlob length"@))
    } else if bytes::u32_at(sig, 4, false) > sig.len() {
        Err(
            ErrorView::VerificationFailed(
                "SuperBlob length exceeds the allocated signature region"@,
            ),
        )
    } else {
        match blob::blob_for(sig, CSSLOT_CODEDIRECTORY) {
            None => Err(
                ErrorView::VerificationFailed("signature has no CodeDirectory blob"@),
            ),
            Some((magic, cd)) => if magic != CSMAGIC_CODEDIRECTORY {
                Err(ErrorView::VerificationFailed("CodeDirectory blob has the wrong magic"@))
            } else {
                Ok(cd)
            },
        }
    }
}

/// What the fixed part of a CodeDirectory says.
#[derive(Debug, Clone, Copy)]
pub struct CodeDirectory {
    pub flags: u32,
    pub hash_offset: u32,
    pub ident_offset: u32,
    pub n_special_slots: u32,
    pub n_code_slots: u32,
    pub code_limit: u32,
    pub page_size_log2: u8,
}

impl CodeDirectory {
    /// The size of the pages that are hashed one by one.
    pub open spec fn page_size(self) -> int {
        power2::pow2(self.page_size_log2 as nat) as int
    }
}

/// The fields of a CodeDirectory, or why its hashes cannot be recomputed.
pub open spec fn directory_fields(cd: Seq<u8>) -> Result<CodeDirectory, ErrorView> {
    let version = bytes::u32_at(cd, 8, false);
    if cd.len() < 12 {
        Err(macho::oob_error("CodeDirectory version"@))
    } else if version < 0x20100 {
        Err(
            ErrorView::VerificationFailed(
                "unsupported CodeDirectory version 0x"@ + text::hexadecimal(version as nat),
            ),
        )
    } else if cd.len() < 16 {
        Err(macho::oob_error("flags"@))
    } else if cd.len() < 20 {
        Err(macho::oob_error("hashOffset"@))
    } else if cd.len() < 24 {
        Err(macho::oob_error("identOffset"@))
    } else if cd.len() < 28 {
        Err(macho::oob_error("nSpecialSlots"@))
    } else if cd.len() < 32 {
        Err(macho::oob_error("nCodeSlots"@))
    } else if cd.len() < 36 {
        Err(macho::oob_error("codeLimit"@))
    } else if cd.len() < 40 {
        Err(ErrorView::VerificationFailed("CodeDirectory too small"@))
    } else if cd[37] != CS_HASHTYPE_SHA256 {
        Err(
            numbered_failure(
                "only SHA-256 signatures can be verified (hash type "@,
                cd[37] as int,
                ")"@,
            ),
        )
    } else if cd[36] != HASH_SIZE {
        Err(numbered_failure("unexpected hash size "@, cd[36] as int, ""@))
    } else if cd[39] == 0 || cd[39] > 31 {
        Err(numbered_failure("invalid page size 2^"@, cd[39] as int, ""@))
    } else {
        Ok(
            CodeDirectory {
                flags: bytes::u32_at(cd, 12, false),
                hash_offset: bytes::u32_at(cd, 16, false),
                ident_offset: bytes::u32_at(cd, 20, false),
                n_special_slots: bytes::u32_at(cd, 24, false),
                n_code_slots: bytes::u32_at(cd, 28, false),
                code_limit: bytes::u32_at(cd, 32, false),
                page_size_log2: cd[39],
            },
        )
    }
}

/// The identifier of a CodeDirectory: the bytes from `ident_offset` up to the
/// first zero byte.
pub open spec fn identifier_of(cd: Seq<u8>, ident_offset: u32) -> Result<Seq<char>, ErrorView> {
    if ident_offset > cd.len() {
        Err(ErrorView::VerificationFailed("identifier offset out of bounds"@))
    } else {
        match cd.skip(ident_offset as int).index_of_first(0u8) {
            None => Err(ErrorView::VerificationFailed("identifier is not NUL-terminated"@)),
            Some(end) => Ok(
                text::lossy_text(cd.subrange(ident_offset as int, ident_offset + end)),
            ),
        }
    }
}

/// Whether a CodeDirectory covers the file up to the signature, with its
/// hashes within bounds.
pub open spec fn covers(cd: Seq<u8>, fields: CodeDirectory, sig_start: u32) -> Result<
    Seq<char>,
    ErrorView,
> {
    let required = bytes::pieces(fields.code_limit as int, fields.page_size());
    if fields.code_limit != sig_start {
        Err(
            twice_numbered_failure(
                "codeLimit ("@,
                fields.code_limit as int,
                ") does not match the signature offset ("@,
                sig_start as int,
                ")"@,
            ),
        )
    } else if fields.n_code_slots != required {
        Err(
            twice_numbered_failure(
                "nCodeSlots is "@,
                fields.n_code_slots as int,
                " but "@,
                required,
                " pages are required"@,
            ),
        )
    } else {
        match identifier_of(cd, fields.ident_offset) {
            Err(error) => Err(error),
            Ok(identifier) => if fields.hash_offset < fields.n_special_slots * HASH_SIZE {
                Err(
                    ErrorView::VerificationFailed(
                        "special slot hashes extend before the CodeDirectory"@,
                    ),
                )
            } else if fields.hash_offset + fields.n_code_slots * HASH_SIZE > cd.len() {
                Err(ErrorView::VerificationFailed("code hash table out of bounds"@))
            } else {
                Ok(identifier)
            },
        }
    }
}

/// The stored hash of the code page with the given index.
pub open spec fn stored_page_hash(cd: Seq<u8>, fields: CodeDirectory, index: int) -> Seq<u8> {
    let start = fields.hash_offset + index * HASH_SIZE;
    cd.subrange(start, start + HASH_SIZE)
}

/// Whether the stored hashes of the code pages from `index` on match.
pub open spec fn pages_match(code: Seq<u8>, cd: Seq<u8>, fields: CodeDirectory, index: nat) -> Result<
    (),
    ErrorView,
>
    decreases fields.n_code_slots - index,
{
    if index >= fields.n_code_slots {
        Ok(())
    } else if digest::sha256(digest::page(code, fields.page_size(), index as int))@
        != stored_page_hash(cd, fields, index as int) {
        Err(numbered_failure("code page "@, index as int, " hash mismatch"@))
    } else {
        pages_match(code, cd, fields, index + 1)
    }
}

/// The stored hash of the blob in a special slot.
pub open spec fn stored_special_hash(cd: Seq<u8>, fields: CodeDirectory, slot: u32) -> Seq<u8> {
    let start = fields.hash_offset - slot * HASH_SIZE;
    cd.subrange(start, start + HASH_SIZE)
}

/// Whether the blobs from the index entry `i` on match the stored hashes of
/// the special slots that they occupy. Requirements and entitlements have to
/// occupy theirs.
pub open spec fn specials_match(
    sig: Seq<u8>,
    entries: Seq<BlobEntry>,
    cd: Seq<u8>,
    fields: CodeDirectory,
    i: nat,
) -> Result<(), ErrorView>
    decreases entries.len() - i,
{
    if i >= entries.len() {
        Ok(())
    } else {
        let slot = entries[i as int].slot;
        if slot > fields.n_special_slots && (slot == CSSLOT_REQUIREMENTS || slot
            == CSSLOT_ENTITLEMENTS) {
            Err(numbered_failure("blob for slot "@, slot as int, " has no special slot hash"@))
        } else if slot == 0 || slot > fields.n_special_slots {
            specials_match(sig, entries, cd, fields, i + 1)
        } else {
            match blob::blob_for(sig, slot) {
                None => Err(numbered_failure("blob for slot "@, slot as int, " out of bounds"@)),
                Some((_, content)) => if digest::sha256(content)@ != stored_special_hash(
                    cd,
                    fields,
                    slot,
                ) {
                    Err(numbered_failure("special slot "@, slot as int, " hash mismatch"@))
                } else {
                    specials_match(sig, entries, cd, fields, i + 1)
                },
            }
        }
    }
}

/// What verifying the signature `sig` of the code before it gives.
pub open spec fn verified_signature(code: Seq<u8>, sig: Seq<u8>) -> Result<
    SignatureInfoView,
    ErrorView,
> {
    match codedirectory_of(sig) {
        Err(error) => Err(error),
        Ok(cd) => match directory_fields(cd) {
            Err(error) => Err(error),
            Ok(fields) => match covers(cd, fields, code.len() as u32) {
                Err(error) => Err(error),
                Ok(identifier) => match pages_match(code, cd, fields, 0) {
                    Err(error) => Err(error),
                    Ok(_) => match specials_match(sig, blob::superblob(sig)->0, cd, fields, 0) {
                        Err(error) => Err(error),
                        Ok(_) => Ok(
                            SignatureInfoView {
                                identifier,
                                flags: fields.flags,
                                code_limit: fields.code_limit as u64,
                                n_code_slots: fields.n_code_slots,
                                n_special_slots: fields.n_special_slots,
                                cd_hash: digest::sha256(cd)@,
                                has_entitlements: blob::entitlements_in(sig) is Some,
                            },
                        ),
                    },
                },
            },
        },
    }
}

/// What verifying a thin binary gives.
pub open spec fn verified_thin(data: Seq<u8>) -> Result<SignatureInfoView, ErrorView> {
    match signature_start(data) {
        Err(error) => Err(error),
        Ok(start) => verified_signature(data.take(start as int), data.skip(start as int)),
    }
}

/// Find where the signature of a thin binary starts.
fn find_signature_start(data: &[u8]) -> (start: Result<u32, SignError>)
    ensures
        error::agrees(start, signature_start(data@)),
        start matches Ok(start) ==> start <= data.len(),
{
    let info = macho::parse_load_info(data)?;
    let codesig = match info.codesig {
        None => return Err(fail("binary has no LC_CODE_SIGNATURE load command")),
        Some(codesig) => codesig,
    };
    let linkedit = match info.linkedit {
        None => return Err(SignError::MissingLinkedit),
        Some(linkedit) => linkedit,
    };
    let sig_end: u64 = codesig.data_offset as u64 + codesig.data_size as u64;
    let len = data.len() as u64;
    if sig_end != len {
        return Err(
            fail_with_two(
                "signature region ends at ",
                sig_end,
                " but the file is ",
                len,
                " bytes",
            ),
        );
    }
    if linkedit.fileoff > len || linkedit.filesize != len - linkedit.fileoff {
        return Err(fail("__LINKEDIT segment does not end at the end of the file"));
    }
    if linkedit.fileoff > codesig.data_offset as u64 {
        return Err(fail("signature region starts before the __LINKEDIT segment"));
    }
    Ok(codesig.data_offset)
}

/// Find the CodeDirectory blob of a signature.
fn find_codedirectory(sig: &[u8]) -> (found: Result<&[u8], SignError>)
    ensures
        match found {
            Ok(cd) => {
                &&& codedirectory_of(sig@) == Ok::<Seq<u8>, ErrorView>(cd@)
                &&& cd@.len() <= u32::MAX
                &&& blob::superblob(sig@) is Some
            },
            Err(error) => codedirectory_of(sig@) == Err::<Seq<u8>, ErrorView>(error@) && !(
            error is Io),
        },
{
    let superblob_len = macho::read_u32(sig, 4, false, "SuperBlob length")?;
    if superblob_len as u64 > sig.len() as u64 {
        return Err(fail("SuperBlob length exceeds the allocated signature region"));
    }
    match blob::find_blob(sig, CSSLOT_CODEDIRECTORY) {
        None => Err(fail("signature has no CodeDirectory blob")),
        Some((magic, cd)) => {
            if magic != CSMAGIC_CODEDIRECTORY {
                return Err(fail("CodeDirectory blob has the wrong magic"));
            }
            Ok(cd)
        },
    }
}

/// Read the fixed part of a CodeDirectory.
fn read_directory(cd: &[u8]) -> (fields: Result<CodeDirectory, SignError>)
    ensures
        error::agrees(fields, directory_fields(cd@)),
        fields matches Ok(fields) ==> 0 < fields.page_size_log2 < 32,
{
    let version = macho::read_u32(cd, 8, false, "CodeDirectory version")?;
    if version < 0x20100 {
        let mut message = String::from_str("unsupported CodeDirectory version 0x");
        text::push_hexadecimal(&mut message, version as u64);
        return Err(SignError::VerificationFailed(message));
    }
    let flags = macho::read_u32(cd, 12, false, "flags")?;
    let hash_offset = macho::read_u32(cd, 16, false, "hashOffset")?;
    let ident_offset = macho::read_u32(cd, 20, false, "identOffset")?;
    let n_special_slots = macho::read_u32(cd, 24, false, "nSpecialSlots")?;
    let n_code_slots = macho::read_u32(cd, 28, false, "nCodeSlots")?;
    let code_limit = macho::read_u32(cd, 32, false, "codeLimit")?;
    if cd.len() < 40 {
        return Err(fail("CodeDirectory too small"));
    }
    let hash_size = cd[36];
    let hash_type = cd[37];
    let page_size_log2 = cd[39];
    if hash_type != CS_HASHTYPE_SHA256 {
        return Err(
            fail_with(
                "only SHA-256 signatures can be verified (hash type ",
                hash_type as u64,
                ")",
            ),
        );
    }
    if hash_size as usize != HASH_SIZE {
        return Err(fail_with("unexpected hash size ", hash_size as u64, ""));
    }
    if page_size_log2 == 0 || page_size_log2 > 31 {
        return Err(fail_with("invalid page size 2^", page_size_log2 as u64, ""));
    }
    Ok(
        CodeDirectory {
            flags,
            hash_offset,
            ident_offset,
            n_special_slots,
            n_code_slots,
            code_limit,
            page_size_log2,
        },
    )
}

/// Read the identifier of a CodeDirectory.
fn read_identifier(cd: &[u8], ident_offset: u32) -> (identifier: Result<String, SignError>)
    ensures
        match identifier {
            Ok(identifier) => identifier_of(cd@, ident_offset) == Ok::<Seq<char>, ErrorView>(
                identifier@,
            ),
            Err(error) => identifier_of(cd@, ident_offset) == Err::<Seq<char>, ErrorView>(error@)
                && !(error is Io),
        },
{
    let start = ident_offset as usize;
    if start > cd.len() {
        return Err(fail("identifier offset out of bounds"));
    }
    let ghost rest = cd@.skip(start as int);
    proof {
        rest.index_of_first_ensures(0u8);
    }
    let mut end: usize = start;
    while end < cd.len() && cd[end] != 0
        invariant
            start <= end <= cd@.len(),
            rest == cd@.skip(start as int),
            forall|k: int| 0 <= k < end - start ==> rest[k] != 0,
        decreases cd@.len() - end,
    {
        assert(rest[end - start] == cd@[end as int]);
        end += 1;
    }
    if end == cd.len() {
        return Err(fail("identifier is not NUL-terminated"));
    }
    proof {
        assert(rest[end - start] == 0);
        assert(rest.contains(0u8));
        assert(rest.index_of_first(0u8) == Some(end - start));
    }
    Ok(text::string_from_utf8_lossy(slice_subrange(cd, start, end)))
}

/// Check that a CodeDirectory covers the file up to the signature, and return
/// its identifier.
fn check_coverage(cd: &[u8], fields: &CodeDirectory, sig_start: u32) -> (identifier: Result<
    String,
    SignError,
>)
    requires
        0 < fields.page_size_log2 < 32,
    ensures
        match identifier {
            Ok(identifier) => {
                &&& covers(cd@, *fields, sig_start) == Ok::<Seq<char>, ErrorView>(identifier@)
                &&& fields.n_special_slots * HASH_SIZE <= fields.hash_offset
                &&& fields.hash_offset + fields.n_code_slots * HASH_SIZE <= cd.len()
            },
            Err(error) => covers(cd@, *fields, sig_start) == Err::<Seq<char>, ErrorView>(error@)
                && !(error is Io),
        },
{
    if fields.code_limit != sig_start {
        return Err(
            fail_with_two(
                "codeLimit (",
                fields.code_limit as u64,
                ") does not match the signature offset (",
                sig_start as u64,
                ")",
            ),
        );
    }
    let page_size = bytes::power_of_two(fields.page_size_log2 as u32);
    let expected_slots: u64 = (fields.code_limit as u64 + (page_size - 1)) / page_size;
    if fields.n_code_slots as u64 != expected_slots {
        return Err(
            fail_with_two(
                "nCodeSlots is ",
                fields.n_code_slots as u64,
                " but ",
                expected_slots,
                " pages are required",
            ),
        );
    }
    let identifier = read_identifier(cd, fields.ident_offset)?;

    // Hash table bounds.
    let special_size: u64 = fields.n_special_slots as u64 * 32;
    if (fields.hash_offset as u64) < special_size {
        return Err(fail("special slot hashes extend before the CodeDirectory"));
    }
    let table_size: u64 = fields.n_code_slots as u64 * 32;
    if fields.hash_offset as u64 + table_size > cd.len() as u64 {
        return Err(fail("code hash table out of bounds"));
    }
    Ok(identifier)
}

/// Recompute and compare every code page hash.
fn check_pages(code: &[u8], cd: &[u8], fields: &CodeDirectory) -> (checked: Result<(), SignError>)
    requires
        0 < fields.page_size_log2 < 32,
        fields.code_limit == code@.len(),
        fields.n_code_slots == bytes::pieces(fields.code_limit as int, fields.page_size()),
        fields.hash_offset + fields.n_code_slots * HASH_SIZE <= cd.len(),
    ensures
        error::agrees(checked, pages_match(code@, cd@, *fields, 0)),
{
    let page_size = bytes::power_of_two(fields.page_size_log2 as u32);
    let len: u64 = code.len() as u64;
    let mut start: u64 = 0;
    let mut stored: usize = fields.hash_offset as usize;
    let mut index: u32 = 0;
    while index < fields.n_code_slots
        invariant
            index <= fields.n_code_slots,
            page_size == fields.page_size(),
            0 < page_size <= 0x8000_0000,
            len == code@.len() == fields.code_limit,
            fields.n_code_slots == bytes::pieces(len as int, page_size as int),
            fields.hash_offset + fields.n_code_slots * HASH_SIZE <= cd.len(),
            start == index * page_size,
            stored == fields.hash_offset + index * HASH_SIZE,
            pages_match(code@, cd@, *fields, 0) == pages_match(code@, cd@, *fields, index as nat),
        decreases fields.n_code_slots - index,
    {
        proof {
            bytes::lemma_pieces(len as int, page_size as int, index as int);
            assert((index + 1) * page_size == index * page_size + page_size) by (nonlinear_arith);
        }
        let end: u64 = if len - start < page_size {
            len
        } else {
            start + page_size
        };
        let page_digest = digest::sha256_digest(
            slice_subrange(code, start as usize, end as usize),
        );
        if !bytes::same_bytes(&page_digest, slice_subrange(cd, stored, stored + HASH_SIZE)) {
            return Err(fail_with("code page ", index as u64, " hash mismatch"));
        }
        start = start + page_size;
        stored = stored + HASH_SIZE;
        index += 1;
    }
    Ok(())
}

/// Verify the special slot hashes for every blob that occupies one.
fn check_specials(sig: &[u8], cd: &[u8], fields: &CodeDirectory) -> (checked: Result<
    (),
    SignError,
>)
    requires
        blob::superblob(sig@) is Some,
        fields.n_special_slots * HASH_SIZE <= fields.hash_offset,
        fields.hash_offset <= cd.len(),
    ensures
        error::agrees(
            checked,
            specials_match(sig@, blob::superblob(sig@)->0, cd@, *fields, 0),
        ),
{
    let entries = match blob::iter_superblob(sig) {
        None => return Err(fail("invalid SuperBlob")),
        Some(entries) => entries,
    };
    let mut i: usize = 0;
    while i < entries.len()
        invariant
            i <= entries@.len(),
            blob::superblob(sig@) == Some(entries@),
            fields.n_special_slots * HASH_SIZE <= fields.hash_offset,
            fields.hash_offset <= cd.len(),
            specials_match(sig@, entries@, cd@, *fields, 0) == specials_match(
                sig@,
                entries@,
                cd@,
                *fields,
                i as nat,
            ),
        decreases entries@.len() - i,
    {
        let slot = entries[i].slot;
        i += 1;
        if slot > fields.n_special_slots {
            if slot == CSSLOT_REQUIREMENTS || slot == CSSLOT_ENTITLEMENTS {
                return Err(
                    fail_with("blob for slot ", slot as u64, " has no special slot hash"),
                );
            }
        } else if slot != 0 {
            let content = match blob::find_blob(sig, slot) {
                None => return Err(fail_with("blob for slot ", slot as u64, " out of bounds")),
                Some((_, content)) => content,
            };
            let blob_digest = digest::sha256_digest(content);
            let stored = (fields.hash_offset as u64 - slot as u64 * 32) as usize;
            if !bytes::same_bytes(&blob_digest, slice_subrange(cd, stored, stored + HASH_SIZE)) {
                return Err(fail_with("special slot ", slot as u64, " hash mismatch"));
            }
        }
    }
    Ok(())
}

/// Whether a record or an error is what is expected.
pub open spec fn is_verified(
    result: Result<SignatureInfo, SignError>,
    expected: Result<SignatureInfoView, ErrorView>,
) -> bool {
    match result {
        Ok(info) => expected == Ok::<SignatureInfoView, ErrorView>(info@),
        Err(error) => expected == Err::<SignatureInfoView, ErrorView>(error@) && !(error is Io),
    }
}

/// Verify the embedded code signature of a thin Mach-O binary.
pub fn verify_thin(data: &[u8]) -> (info: Result<SignatureInfo, SignError>)
    ensures
        is_verified(info, verified_thin(data@)),
{
    let sig_start = find_signature_start(data)?;
    let code = slice_subrange(data, 0, sig_start as usize);
    let sig = slice_subrange(data, sig_start as usize, data.len());
    assert(code@ =~= data@.take(sig_start as int));
    assert(sig@ =~= data@.skip(sig_start as int));

    let cd = find_codedirectory(sig)?;
    let fields = read_directory(cd)?;
    let identifier = check_coverage(cd, &fields, sig_start)?;
    check_pages(code, cd, &fields)?;
    check_specials(sig, cd, &fields)?;
    Ok(
        SignatureInfo {
            identifier,
            flags: fields.flags,
            code_limit: fields.code_limit as u64,
            n_code_slots: fields.n_code_slots,
            n_special_slots: fields.n_special_slots,
            cd_hash: digest::sha256_digest(cd),
            has_entitlements: blob::entitlements_from_superblob(sig).is_some(),
        },
    )
}

/// What verifying the slice with the given number of a fat binary gives.
pub open spec fn verified_slice(data: Seq<u8>, i: int) -> Result<SignatureInfoView, ErrorView> {
    let base = 8 + i * 20;
    let offset = bytes::u32_at(data, base + 8, false);
    let size = bytes::u32_at(data, base + 12, false);
    if base + 12 > data.len() {
        Err(macho::oob_error("fat slice offset"@))
    } else if base + 16 > data.len() {
        Err(macho::oob_error("fat slice size"@))
    } else if offset + size > data.len() {
        Err(numbered_failure("fat slice "@, i, " extends past the end of the file"@))
    } else {
        match verified_thin(data.subrange(offset as int, offset + size)) {
            Ok(info) => Ok(info),
            Err(error) => Err(numbered_failure("fat slice "@, i, ": "@ + error.message())),
        }
    }
}

/// `before` followed by what verifying the slices from `i` to `count` gives.
pub open spec fn verified_slices(
    data: Seq<u8>,
    i: nat,
    count: nat,
    before: Seq<SignatureInfoView>,
) -> Result<Seq<SignatureInfoView>, ErrorView>
    decreases count - i,
{
    if i >= count {
        Ok(before)
    } else {
        match verified_slice(data, i as int) {
            Err(error) => Err(error),
            Ok(info) => verified_slices(data, i + 1, count, before.push(info)),
        }
    }
}

/// What verifying a binary gives: one record for a thin binary, and one for
/// each slice of a fat binary.
pub open spec fn verified(data: Seq<u8>) -> Result<Seq<SignatureInfoView>, ErrorView> {
    match macho::kind_of(data) {
        None => Err(ErrorView::NotMachO),
        Some(MachOKind::Fat64) => Err(ErrorView::Fat64Unsupported),
        Some(MachOKind::Fat) => if data.len() < 8 {
            Err(macho::oob_error("fat arch count"@))
        } else {
            verified_slices(data, 0, bytes::u32_at(data, 4, false) as nat, Seq::empty())
        },
        Some(_) => match verified_thin(data) {
            Err(error) => Err(error),
            Ok(info) => Ok(seq![info]),
        },
    }
}

/// The mathematical values of records.
pub open spec fn all_infos(infos: Seq<SignatureInfo>) -> Seq<SignatureInfoView> {
    Seq::new(infos.len(), |i: int| infos[i]@)
}

/// Verify the slice with the given number of a fat binary.
fn verify_slice(data: &[u8], i: u32) -> (info: Result<SignatureInfo, SignError>)
    ensures
        is_verified(info, verified_slice(data@, i as int)),
{
    let base: u64 = 8 + i as u64 * 20;
    if base + 12 > data.len() as u64 {
        return Err(macho::oob("fat slice offset"));
    }
    let base = base as usize;
    let offset = macho::read_u32(data, base + 8, false, "fat slice offset")? as u64;
    if data.len() - base < 16 {
        return Err(macho::oob("fat slice size"));
    }
    let size = macho::read_u32(data, base + 12, false, "fat slice size")? as u64;
    if offset + size > data.len() as u64 {
        return Err(fail_with("fat slice ", i as u64, " extends past the end of the file"));
    }
    match verify_thin(slice_subrange(data, offset as usize, (offset + size) as usize)) {
        Ok(info) => Ok(info),
        Err(error) => {
            let after = String::from_str(": ").concat(error.message().as_str());
            Err(fail_with("fat slice ", i as u64, after.as_str()))
        },
    }
}

/// Verify the embedded code signature(s) of a Mach-O binary.
///
/// For thin binaries the returned vector contains a single entry; for fat
/// (universal) binaries it contains one entry per architecture slice.
///
/// This checks that:
/// * the signature is located at the end of `__LINKEDIT`, which ends exactly
///   at the end of the file;
/// * the CodeDirectory covers the whole file up to the signature;
/// * every SHA-256 code page hash matches the file contents;
/// * the special slot hashes match the Requirements/Entitlements blobs.
pub fn verify(data: &[u8]) -> (result: Result<Vec<SignatureInfo>, SignError>)
    ensures
        match result {
            Ok(infos) => verified(data@) == Ok::<Seq<SignatureInfoView>, ErrorView>(
                all_infos(infos@),
            ),
            Err(error) => verified(data@) == Err::<Seq<SignatureInfoView>, ErrorView>(error@) && !(
            error is Io),
        },
{
    match macho::macho_kind(data) {
        None => Err(SignError::NotMachO),
        Some(MachOKind::Fat64) => Err(SignError::Fat64Unsupported),
        Some(MachOKind::Fat) => {
            let n_arches = macho::read_u32(data, 4, false, "fat arch count")?;
            let mut infos: Vec<SignatureInfo> = Vec::new();
            assert(all_infos(infos@) =~= Seq::empty());
            let mut i: u32 = 0;
            while i < n_arches
                invariant
                    i <= n_arches,
                    verified(data@) == verified_slices(
                        data@,
                        i as nat,
                        n_arches as nat,
                        all_infos(infos@),
                    ),
                decreases n_arches - i,
            {
                let ghost before = all_infos(infos@);
                let info = verify_slice(data, i)?;
                infos.push(info);
                assert(all_infos(infos@) =~= before.push(info@));
                i += 1;
            }
            Ok(infos)
        },
        Some(_) => {
            let info = verify_thin(data)?;
            let mut infos: Vec<SignatureInfo> = Vec::new();
            infos.push(info);
            assert(all_infos(infos@) =~= seq![info@]);
            Ok(infos)
        },
    }
}

} // verus!
