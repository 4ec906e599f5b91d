//! Error type for ad-hoc signing and verification.

use crate::text;
use crate::text::push_decimal;
use vstd::prelude::*;
use vstd::string::StringExecFns;

verus! {

/// `std::io::Error`, carried through as an opaque value.
#[verifier::external_type_specification]
#[verifier::external_body]
pub struct ExIoError(std::io::Error);

/// Errors that can occur during ad-hoc signing or signature verification.
#[derive(Debug)]
#[non_exhaustive]
pub enum SignError {
    /// An I/O error occurred while reading or writing.
    Io(std::io::Error),
    /// The input does not start with a Mach-O (or fat/universal) magic number.
    NotMachO,
    /// The Mach-O binary could not be parsed.
    Malformed(String),
    /// Fat (universal) binaries cannot be signed in a single streaming pass
    /// because the size of each signed slice must be known up front. Use
    /// [`crate::adhoc_sign`], which handles fat binaries by signing each
    /// architecture slice in memory.
    FatBinaryNotStreamable,
    /// Fat binaries with 64-bit fat headers (`FAT_MAGIC_64`) are exceedingly
    /// rare and not supported.
    Fat64Unsupported,
    /// [`crate::Entitlements::Preserve`] requires random access to the
    /// existing signature which a streaming signer does not have. Extract the
    /// entitlements up front with [`crate::extract_entitlements`] and pass
    /// them as [`crate::Entitlements::Custom`].
    CannotPreserveWhenStreaming,
    /// The binary has no `__LINKEDIT` segment, which is required to hold the
    /// code signature.
    MissingLinkedit,
    /// The binary has no `LC_CODE_SIGNATURE` load command and there is not
    /// enough zero padding after the load commands to insert one.
    InsufficientHeaderPadding,
    /// The input ended before all code pages could be hashed.
    TruncatedInput {
        /// The minimum number of bytes that were expected.
        expected: u64,
        /// The number of bytes that were actually provided.
        got: u64,
    },
    /// An offset or size does not fit in the fields of the Mach-O structures
    /// (code signatures must start within the first 4 GiB of the file).
    TooLarge(String),
    /// Signature verification failed.
    VerificationFailed(String),
}

impl From<std::io::Error> for SignError {
    fn from(err: std::io::Error) -> (error: SignError) {
        SignError::Io(err)
    }
}

impl vstd::std_specs::convert::FromSpecImpl<std::io::Error> for SignError {
    open spec fn obeys_from_spec() -> bool {
        true
    }

    open spec fn from_spec(err: std::io::Error) -> SignError {
        SignError::Io(err)
    }
}

/// What a [`SignError`] says, with its text as a sequence of characters.
pub enum ErrorView {
    Io(std::io::Error),
    NotMachO,
    Malformed(Seq<char>),
    FatBinaryNotStreamable,
    Fat64Unsupported,
    CannotPreserveWhenStreaming,
    MissingLinkedit,
    InsufficientHeaderPadding,
    TruncatedInput { expected: u64, got: u64 },
    TooLarge(Seq<char>),
    VerificationFailed(Seq<char>),
}

impl View for SignError {
    type V = ErrorView;

    open spec fn view(&self) -> ErrorView {
        match self {
            SignError::Io(err) => ErrorView::Io(*err),
            SignError::NotMachO => ErrorView::NotMachO,
            SignError::Malformed(text) => ErrorView::Malformed(text@),
            SignError::FatBinaryNotStreamable => ErrorView::FatBinaryNotStreamable,
            SignError::Fat64Unsupported => ErrorView::Fat64Unsupported,
            SignError::CannotPreserveWhenStreaming => ErrorView::CannotPreserveWhenStreaming,
            SignError::MissingLinkedit => ErrorView::MissingLinkedit,
            SignError::InsufficientHeaderPadding => ErrorView::InsufficientHeaderPadding,
            SignError::TruncatedInput { expected, got } => ErrorView::TruncatedInput {
                expected: *expected,
                got: *got,
            },
            SignError::TooLarge(text) => ErrorView::TooLarge(text@),
            SignError::VerificationFailed(text) => ErrorView::VerificationFailed(text@),
        }
    }
}

/// `result` is what `expected` says: the same value, or an error of the
/// library's own (never an I/O error) with the same content.
pub open spec fn agrees<T>(result: Result<T, SignError>, expected: Result<T, ErrorView>) -> bool {
    match result {
        Ok(value) => expected == Ok::<T, ErrorView>(value),
        Err(error) => expected == Err::<T, ErrorView>(error@) && !(error is Io),
    }
}

impl ErrorView {
    /// The text of an error that is not an I/O error.
    pub open spec fn message(self) -> Seq<char>
        recommends
            !(self is Io),
    {
        match self {
            ErrorView::Io(_) => Seq::empty(),
            ErrorView::NotMachO => "not a Mach-O binary"@,
            ErrorView::Malformed(text) => "malformed Mach-O binary: "@ + text,
            ErrorView::FatBinaryNotStreamable =>
                "fat (universal) Mach-O binaries cannot be signed in a single streaming pass; use `adhoc_sign` or `adhoc_sign_file` instead"@,
            ErrorView::Fat64Unsupported =>
                "fat (universal) Mach-O binaries with 64-bit fat headers are not supported"@,
            ErrorView::CannotPreserveWhenStreaming =>
                "`Entitlements::Preserve` is not supported by the streaming signer; extract the entitlements up front with `extract_entitlements` and pass `Entitlements::Custom`"@,
            ErrorView::MissingLinkedit => "binary has no __LINKEDIT segment"@,
            ErrorView::InsufficientHeaderPadding =>
                "not enough header padding to insert an LC_CODE_SIGNATURE load command; relink the binary with `-Wl,-headerpad,0x100`"@,
            ErrorView::TruncatedInput { expected, got } =>
                "input ended prematurely: expected at least "@ + text::decimal(expected as nat)
                    + " bytes, got "@ + text::decimal(got as nat),
            ErrorView::TooLarge(text) => "binary too large to sign: "@ + text,
            ErrorView::VerificationFailed(text) => "signature verification failed: "@ + text,
        }
    }
}

/// The I/O error of kind `InvalidData` whose text is `text`.
pub uninterp spec fn invalid_data_error(text: Seq<char>) -> std::io::Error;

/// Calls `std::io::Error::new` with the kind `InvalidData` and `text` as the
/// payload. The contract claims that the error is the one made from that kind
/// and that text, and nothing further about it.
#[verifier::external_body]
fn new_invalid_data_error(text: String) -> (error: std::io::Error)
    ensures
        error == invalid_data_error(text@),
{
    std::io::Error::new(std::io::ErrorKind::InvalidData, text)
}

/// Calls `to_string` on a `std::io::Error`. The text of an I/O error comes
/// from the operating system and its locale, so nothing is claimed of it.
#[verifier::external_body]
fn io_error_text(error: &std::io::Error) -> (text: String)
{
    error.to_string()
}

impl SignError {
    /// The text of the error.
    pub fn message(&self) -> (text: String)
        ensures
            !(self is Io) ==> text@ == self@.message(),
    {
        match self {
            SignError::Io(err) => io_error_text(err),
            SignError::NotMachO => String::from_str("not a Mach-O binary"),
            SignError::Malformed(text) => String::from_str("malformed Mach-O binary: ").concat(text.as_str()),
            SignError::FatBinaryNotStreamable => String::from_str(
                "fat (universal) Mach-O binaries cannot be signed in a single streaming pass; use `adhoc_sign` or `adhoc_sign_file` instead",
            ),
            SignError::Fat64Unsupported => String::from_str(
                "fat (universal) Mach-O binaries with 64-bit fat headers are not supported",
            ),
            SignError::CannotPreserveWhenStreaming => String::from_str(
                "`Entitlements::Preserve` is not supported by the streaming signer; extract the entitlements up front with `extract_entitlements` and pass `Entitlements::Custom`",
            ),
            SignError::MissingLinkedit => String::from_str("binary has no __LINKEDIT segment"),
            SignError::InsufficientHeaderPadding => String::from_str(
                "not enough header padding to insert an LC_CODE_SIGNATURE load command; relink the binary with `-Wl,-headerpad,0x100`",
            ),
            SignError::TruncatedInput { expected, got } => {
                let mut text = String::from_str("input ended prematurely: expected at least ");
                push_decimal(&mut text, *expected);
                text.append(" bytes, got ");
                push_decimal(&mut text, *got);
                text
            },
            SignError::TooLarge(text) => String::from_str("binary too large to sign: ").concat(text.as_str()),
            SignError::VerificationFailed(text) => String::from_str("signature verification failed: ").concat(
                text.as_str(),
            ),
        }
    }

    /// Convert into an [`std::io::Error`], unwrapping I/O errors. Any other
    /// error becomes one of kind `InvalidData` with the same text; this type
    /// is no [`std::error::Error`], so the text is all that it carries.
    pub fn into_io_error(self) -> (error: std::io::Error)
        ensures
            self matches SignError::Io(err) ==> error == err,
            !(self is Io) ==> error == invalid_data_error(self@.message()),
    {
        match self {
            SignError::Io(err) => err,
            other => new_invalid_data_error(other.message()),
        }
    }
}

/// A parse error with a fixed text.
pub(crate) fn malformed(text: &str) -> (error: SignError)
    ensures
        error@ == ErrorView::Malformed(text@),
        !(error is Io),
{
    SignError::Malformed(String::from_str(text))
}

/// A size error with a fixed text.
pub(crate) fn too_large(text: &str) -> (error: SignError)
    ensures
        error@ == ErrorView::TooLarge(text@),
        !(error is Io),
{
    SignError::TooLarge(String::from_str(text))
}

} // verus!
