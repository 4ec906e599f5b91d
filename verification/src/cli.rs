//! The commands of the `arwen` program and where they are dispatched to.

pub mod macho;

use self::macho::codesign::Args;
use vstd::prelude::*;

verus! {

/// The `arwen` commands. `A` stands for the arguments of the commands that
/// patch a file, `P` for the path of a file to sign.
#[derive(Debug)]
pub enum Command<A, P> {
    /// Mach-O commands
    Macho(MachoCommand<A, P>),
    /// ELF commands
    Elf(ElfCommand<A>),
}

#[derive(Debug)]
pub enum MachoCommand<A, P> {
    DeleteRpath(A),
    ChangeRpath(A),
    AddRpath(A),
    ChangeInstallName(A),
    ChangeInstallId(A),
    AdhocSign(Args<P>),
}

#[derive(Debug)]
pub enum ElfCommand<A> {
    AddRpath(A),
    RemoveRpath(A),
    SetRpath(A),
    PrintRpath(A),
    ForceRpath(A),
    SetInterpreter(A),
    PrintInterpreter(A),
    SetOsAbi(A),
    PrintOsAbi(A),
    SetSoname(A),
    PrintSoname(A),
    ShrinkRpath(A),
    AddNeeded(A),
    RemoveNeeded(A),
    ReplaceNeeded(A),
    PrintNeeded(A),
    NoDefaultLib(A),
    ClearSymbolVersion(A),
    RenameDynamicSymbols(A),
    AddDebugTag(A),
    ClearExecStack(A),
    SetExecStack(A),
    PrintExecStack(A),
    SetPageSize(A),
}

/// Which part of the program handles a command.
#[derive(Debug)]
pub enum Dispatch<A, P> {
    /// Code signing, which has its own error type.
    Codesign(Args<P>),
    /// The patching of Mach-O files.
    Macho(MachoCommand<A, P>),
    /// The patching of ELF files.
    Elf(ElfCommand<A>),
}

/// Dispatch a command. Signing never goes to the patching of Mach-O files.
pub fn execute<A, P>(command: Command<A, P>) -> (dispatch: Dispatch<A, P>)
    ensures
        dispatch == (match command {
            Command::Macho(MachoCommand::AdhocSign(args)) => Dispatch::Codesign(args),
            Command::Macho(args) => Dispatch::Macho(args),
            Command::Elf(args) => Dispatch::Elf(args),
        }),
        dispatch matches Dispatch::Macho(args) ==> !(args is AdhocSign),
{
    match command {
        Command::Macho(MachoCommand::AdhocSign(args)) => Dispatch::Codesign(args),
        Command::Macho(args) => Dispatch::Macho(args),
        Command::Elf(args) => Dispatch::Elf(args),
    }
}

} // verus!
