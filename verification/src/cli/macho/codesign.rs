//! The command that signs a Mach-O binary.

use crate::options::AdhocSignOptions;
use crate::options::Entitlements;
use crate::options::EntitlementsView;
use crate::options::OptionsView;
use vstd::prelude::*;

verus! {

/// The arguments of the command; `P` is the path of the file.
#[derive(Debug)]
pub struct Args<P> {
    /// Identifier for the signature (e.g., com.example.myapp)
    pub identifier: String,
    /// Path to the binary file to sign
    pub file: P,
    /// Enable hardened runtime (equivalent to codesign --options runtime)
    pub hardened_runtime: bool,
    /// Preserve existing entitlements from the binary's current signature
    pub preserve_entitlements: bool,
    /// Set linker-signed flag (use when re-signing linker-signed binaries)
    pub linker_signed: bool,
}

/// The options to sign the file with.
pub fn execute<P>(args: &Args<P>) -> (options: AdhocSignOptions<'_>)
    ensures
        options@ == (OptionsView {
            identifier: args.identifier@,
            hardened_runtime: args.hardened_runtime,
            entitlements: if args.preserve_entitlements {
                EntitlementsView::Preserve
            } else {
                EntitlementsView::Omit
            },
            linker_signed: args.linker_signed,
        }),
{
    // Build signing options
    let mut options = AdhocSignOptions::new(args.identifier.as_str());
    if args.hardened_runtime {
        options = options.with_hardened_runtime();
    }
    if args.linker_signed {
        options = options.with_linker_signed();
    }
    if args.preserve_entitlements {
        options = options.with_entitlements(Entitlements::Preserve);
    }
    options
}

} // verus!
