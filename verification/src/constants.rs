//! Code signature magic numbers and constants.

use vstd::prelude::*;

verus! {

/// Magic number for embedded signature SuperBlob
pub const CSMAGIC_EMBEDDED_SIGNATURE: u32 = 0xfade0cc0;

/// Magic number for CodeDirectory blob
pub const CSMAGIC_CODEDIRECTORY: u32 = 0xfade0c02;

/// Magic number for Requirements blob
pub const CSMAGIC_REQUIREMENTS: u32 = 0xfade0c01;

/// Magic number for BlobWrapper (used for CMS signature)
pub const CSMAGIC_BLOBWRAPPER: u32 = 0xfade0b01;

/// Magic number for embedded entitlements (plist format)
pub const CSMAGIC_EMBEDDED_ENTITLEMENTS: u32 = 0xfade7171;

/// Magic number for embedded entitlements (DER format)
pub const CSMAGIC_EMBEDDED_ENTITLEMENTS_DER: u32 = 0xfade7172;

/// Slot index for CodeDirectory
pub const CSSLOT_CODEDIRECTORY: u32 = 0;

/// Slot index for Info.plist (special slot -1)
pub const CSSLOT_INFOSLOT: u32 = 1;

/// Slot index for Requirements (special slot -2)
pub const CSSLOT_REQUIREMENTS: u32 = 2;

/// Slot index for entitlements (special slot -5)
pub const CSSLOT_ENTITLEMENTS: u32 = 5;

/// Slot index for DER entitlements (special slot -7)
pub const CSSLOT_ENTITLEMENTS_DER: u32 = 7;

/// Slot index for CMS Signature
pub const CSSLOT_SIGNATURESLOT: u32 = 0x10000;

/// SHA-256 hash type
pub const CS_HASHTYPE_SHA256: u8 = 2;

/// Ad-hoc signature flag
pub const CS_ADHOC: u32 = 0x0002;

/// Hardened runtime flag (`codesign --options runtime`)
pub const CS_RUNTIME: u32 = 0x10000;

/// Linker-signed flag
pub const CS_LINKER_SIGNED: u32 = 0x20000;

/// Main binary exec segment flag
pub const CS_EXECSEG_MAIN_BINARY: u64 = 0x1;

/// Code signature page size (4 KiB)
pub const CS_PAGE_SIZE: usize = 4096;

/// Code signature page size as log2
pub const CS_PAGE_SIZE_LOG2: u8 = 12;

/// CodeDirectory version
pub const CS_VERSION: u32 = 0x20400;

} // verus!
