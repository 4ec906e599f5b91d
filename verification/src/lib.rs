//! Fast ad-hoc code signing for Mach-O binaries.
//!
//! This crate implements ad-hoc code signing (the equivalent of
//! `codesign --force --sign -`) as a pure-Rust library whose behaviour is
//! stated in contracts and proved. It works on any host platform (no Apple
//! tooling required) and is designed for high-throughput use cases such as
//! package installers that need to re-sign thousands of binaries after
//! patching them.
//!
//! # APIs
//!
//! * [`adhoc_sign`]: sign a binary held in memory. Supports thin and fat
//!   (universal) binaries.
//! * [`StreamingSigner`]: a writer that signs a thin binary while it is being
//!   written, enabling single-pass "transform + sign" pipelines: bytes in,
//!   signed bytes out, no second pass over the file.
//! * [`file`]: the decisions of signing a file in place; thin binaries are
//!   processed in a single streaming pass.
//! * [`verify`](verify()): re-check all hashes and structural invariants of a
//!   signed binary, on any host platform.
//! * [`extract_entitlements`] / [`is_linker_signed`] / [`macho_kind`]:
//!   helpers for inspecting existing binaries.
//!
//! None of these functions panics, whatever bytes it is given.
//!
//! # Example
//!
//! ```no_run
//! use arwen_codesign::{adhoc_sign, AdhocSignOptions, Entitlements};
//!
//! // Equivalent to `codesign --force --sign - --preserve-metadata=entitlements`:
//! let options = AdhocSignOptions::new("libfoo.dylib")
//!     .with_entitlements(Entitlements::Preserve);
//! let signed = adhoc_sign(std::fs::read("libfoo.dylib")?, &options)?;
//! # Ok::<(), arwen_codesign::SignError>(())
//! ```
//!
//! # Compatibility notes
//!
//! The produced signatures match what Apple's `codesign --sign -` generates
//! for flat (non-bundle) files: a version `0x20400` CodeDirectory with
//! SHA-256 page hashes, an empty Requirements blob and an empty CMS
//! signature wrapper. Known limitations:
//!
//! * Entitlements are embedded in plist form only (special slot 5); the
//!   DER-encoded entitlements slot (slot 7) that `codesign` additionally
//!   emits on macOS 12+ is not generated. This does not affect binaries
//!   without entitlements, the common case for ad-hoc signing.
//! * Hardened runtime signing emits a version `0x20400` CodeDirectory with
//!   the `CS_RUNTIME` flag, without the "runtime version" field of version
//!   `0x20500` directories.
//!
//! # Proofs
//!
//! What a function returns is stated by a spec function over mathematical
//! values, which its contract names: [`sign`] for signing, [`verify`] for
//! verification, and so on. What holds across functions, such as that every
//! signed binary verifies or that streaming gives what signing in memory
//! gives, stands in [`laws`]. SHA-256 itself comes from the `sha2` crate; its
//! digests have a name in [`digest`] and nothing more is assumed of them.

pub mod blob;
pub mod bytes;
pub mod cli;
pub mod constants;
pub mod digest;
pub mod error;
pub mod file;
pub mod laws;
pub mod layout;
pub mod macho;
pub mod options;
pub mod sign;
pub mod streaming;
pub mod text;
pub mod verify;

pub use crate::blob::{extract_entitlements, is_linker_signed};
pub use crate::error::SignError;
pub use crate::macho::{macho_kind, MachOKind};
pub use crate::options::{AdhocSignOptions, Entitlements};
pub use crate::sign::adhoc_sign;
pub use crate::streaming::StreamingSigner;
pub use crate::verify::{verify, SignatureInfo};
