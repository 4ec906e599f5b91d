//! What to put into a signature.

use vstd::prelude::*;

verus! {

/// How to handle entitlements during ad-hoc signing.
#[derive(Debug)]
pub enum Entitlements<'a> {
    /// No entitlements.
    Omit,
    /// Preserve existing entitlements from the binary's current signature
    /// (the equivalent of `codesign --preserve-metadata=entitlements`).
    ///
    /// Not supported by [`crate::StreamingSigner`]; extract the entitlements
    /// up front with [`crate::extract_entitlements`] and pass
    /// [`Entitlements::Custom`] instead.
    Preserve,
    /// Use custom entitlements plist data.
    Custom(&'a [u8]),
}

/// The mathematical value of [`Entitlements`].
pub ghost enum EntitlementsView {
    Omit,
    Preserve,
    Custom(Seq<u8>),
}

impl View for Entitlements<'_> {
    type V = EntitlementsView;

    open spec fn view(&self) -> EntitlementsView {
        match self {
            Entitlements::Omit => EntitlementsView::Omit,
            Entitlements::Preserve => EntitlementsView::Preserve,
            Entitlements::Custom(data) => EntitlementsView::Custom(data@),
        }
    }
}

impl Clone for Entitlements<'_> {
    fn clone(&self) -> (copy: Self)
        ensures
            copy == *self,
    {
        match self {
            Entitlements::Omit => Entitlements::Omit,
            Entitlements::Preserve => Entitlements::Preserve,
            Entitlements::Custom(data) => Entitlements::Custom(data),
        }
    }
}

impl Default for Entitlements<'_> {
    fn default() -> (entitlements: Self)
        ensures
            entitlements@ == EntitlementsView::Omit,
    {
        Entitlements::Omit
    }
}

/// Options for ad-hoc code signing.
///
/// # Example
///
/// ```
/// use arwen_codesign::{AdhocSignOptions, Entitlements};
///
/// let options = AdhocSignOptions::new("com.example.myapp")
///     .with_hardened_runtime()
///     .with_entitlements(Entitlements::Preserve);
/// ```
#[derive(Debug)]
pub struct AdhocSignOptions<'a> {
    /// The identifier to embed in the signature. Apple's `codesign` derives
    /// this from the file name when signing with `-`; passing the file name
    /// is a good default.
    pub identifier: &'a str,
    /// Enable hardened runtime (equivalent to `codesign --options runtime`).
    pub hardened_runtime: bool,
    /// How to handle entitlements.
    pub entitlements: Entitlements<'a>,
    /// Set the linker-signed flag (`CS_LINKER_SIGNED`). Use this when
    /// emulating a linker signature; plain `codesign --sign -` does not set
    /// it, even when re-signing a linker-signed binary.
    pub linker_signed: bool,
}

impl Clone for AdhocSignOptions<'_> {
    fn clone(&self) -> (copy: Self)
        ensures
            copy == *self,
    {
        Self {
            identifier: self.identifier,
            hardened_runtime: self.hardened_runtime,
            entitlements: self.entitlements.clone(),
            linker_signed: self.linker_signed,
        }
    }
}

/// The mathematical value of [`AdhocSignOptions`].
pub ghost struct OptionsView {
    pub identifier: Seq<char>,
    pub hardened_runtime: bool,
    pub entitlements: EntitlementsView,
    pub linker_signed: bool,
}

impl View for AdhocSignOptions<'_> {
    type V = OptionsView;

    open spec fn view(&self) -> OptionsView {
        OptionsView {
            identifier: self.identifier@,
            hardened_runtime: self.hardened_runtime,
            entitlements: self.entitlements@,
            linker_signed: self.linker_signed,
        }
    }
}

impl<'a> AdhocSignOptions<'a> {
    /// Create new options with just an identifier (no hardened runtime, no
    /// entitlements).
    pub fn new(identifier: &'a str) -> (options: Self)
        ensures
            options@ == (OptionsView {
                identifier: identifier@,
                hardened_runtime: false,
                entitlements: EntitlementsView::Omit,
                linker_signed: false,
            }),
    {
        Self {
            identifier,
            hardened_runtime: false,
            entitlements: Entitlements::Omit,
            linker_signed: false,
        }
    }

    /// Enable hardened runtime.
    pub fn with_hardened_runtime(self) -> (options: Self)
        ensures
            options@ == (OptionsView { hardened_runtime: true, ..self@ }),
    {
        Self {
            identifier: self.identifier,
            hardened_runtime: true,
            entitlements: self.entitlements,
            linker_signed: self.linker_signed,
        }
    }

    /// Set entitlements handling.
    pub fn with_entitlements(self, entitlements: Entitlements<'a>) -> (options: Self)
        ensures
            options@ == (OptionsView { entitlements: entitlements@, ..self@ }),
    {
        Self {
            identifier: self.identifier,
            hardened_runtime: self.hardened_runtime,
            entitlements,
            linker_signed: self.linker_signed,
        }
    }

    /// Set the linker-signed flag.
    pub fn with_linker_signed(self) -> (options: Self)
        ensures
            options@ == (OptionsView { linker_signed: true, ..self@ }),
    {
        Self {
            identifier: self.identifier,
            hardened_runtime: self.hardened_runtime,
            entitlements: self.entitlements,
            linker_signed: true,
        }
    }
}

} // verus!
