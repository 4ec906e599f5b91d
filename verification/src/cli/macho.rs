//! The Mach-O commands.

pub mod codesign;

use crate::cli::MachoCommand;
use vstd::prelude::*;

verus! {

/// A change to a Mach-O file, with its arguments.
#[derive(Debug)]
pub enum Patch<A> {
    DeleteRpath(A),
    ChangeRpath(A),
    AddRpath(A),
    ChangeInstallName(A),
    ChangeInstallId(A),
}

/// The change that a command makes to a Mach-O file.
///
/// Code signing has its own error type and is dispatched directly in
/// [`crate::cli::execute`].
pub fn execute<A, P>(macho: MachoCommand<A, P>) -> (patch: Patch<A>)
    requires
        !(macho is AdhocSign),
    ensures
        match macho {
            MachoCommand::DeleteRpath(args) => patch == Patch::DeleteRpath(args),
            MachoCommand::ChangeRpath(args) => patch == Patch::ChangeRpath(args),
            MachoCommand::AddRpath(args) => patch == Patch::AddRpath(args),
            MachoCommand::ChangeInstallName(args) => patch == Patch::ChangeInstallName(args),
            MachoCommand::ChangeInstallId(args) => patch == Patch::ChangeInstallId(args),
            MachoCommand::AdhocSign(_) => true,
        },
{
    match macho {
        MachoCommand::DeleteRpath(args) => Patch::DeleteRpath(args),
        MachoCommand::ChangeRpath(args) => Patch::ChangeRpath(args),
        MachoCommand::AddRpath(args) => Patch::AddRpath(args),
        MachoCommand::ChangeInstallName(args) => Patch::ChangeInstallName(args),
        MachoCommand::ChangeInstallId(args) => Patch::ChangeInstallId(args),
        MachoCommand::AdhocSign(_) => vstd::pervasive::unreached(),
    }
}

} // verus!
