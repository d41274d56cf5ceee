//! Core of a small x86_64 kernel: the POGO on-disk filesystem, the ATA PIO
//! command protocol, and the clock and interrupt bookkeeping around them.
//!
//! Everything here is plain computation over values. Port I/O, descriptor
//! tables and the console live with the caller, which feeds this crate the
//! bytes it read and carries out the register writes this crate plans.

use vstd::prelude::*;

pub mod ata;
pub mod bits;
pub mod boot;
pub mod conhost;
pub mod fs;
pub mod input;
pub mod interrupts;
pub mod text;
pub mod time;
pub mod vga;

verus! {

/// Status code a shell command or filesystem operation finishes with.
#[derive(Clone, Copy, Debug, PartialEq, Eq, Structural)]
pub enum ExitCode {
    Success,
    Error,
    ParseError,
    NotFoundError,
    NotMountedError,
    NotEmptyError,
    InvalidCommandError,
}

impl ExitCode {
    /// The sentence shown to the user for this code.
    pub open spec fn message(self) -> Seq<char> {
        match self {
            ExitCode::Success => "process exited successfully"@,
            ExitCode::Error => "an unknown error occurred"@,
            ExitCode::ParseError => "an error was encountered parsing the command"@,
            ExitCode::NotFoundError => "the requested file or directory was not found"@,
            ExitCode::NotEmptyError => "the directory is not empty"@,
            ExitCode::InvalidCommandError => "command not found"@,
            ExitCode::NotMountedError => "no filesystem is mounted so file operations are unavailable"@,
        }
    }

    /// Renders the code as its descriptive sentence.
    pub fn to_string(&self) -> (s: String)
        ensures
            s@ == self.message(),
    {
        match self {
            ExitCode::Success => "process exited successfully".to_owned(),
            ExitCode::Error => "an unknown error occurred".to_owned(),
            ExitCode::ParseError => "an error was encountered parsing the command".to_owned(),
            ExitCode::NotFoundError => "the requested file or directory was not found".to_owned(),
            ExitCode::NotEmptyError => "the directory is not empty".to_owned(),
            ExitCode::InvalidCommandError => "command not found".to_owned(),
            ExitCode::NotMountedError => "no filesystem is mounted so file operations are unavailable".to_owned(),
        }
    }
}

} // verus!
