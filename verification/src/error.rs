//! What can go wrong in a scan, and what the process reports for it.

use vstd::prelude::*;

verus! {

/// What the process says of `error`.
pub open spec fn message_of(error: ScanError) -> Seq<char> {
    match error {
        ScanError::InvalidInput => "invalid arguments"@,
        ScanError::IoFailure => "Error: the scan failed while reading the tree"@,
        ScanError::WriteFailure => "Failed to write log"@,
    }
}

impl ScanError {
    /// The line that the process prints for the error.
    pub fn message(&self) -> (text: String)
        ensures
            text@ == message_of(*self),
    {
        match self {
            ScanError::InvalidInput => "invalid arguments".to_owned(),
            ScanError::IoFailure => "Error: the scan failed while reading the tree".to_owned(),
            ScanError::WriteFailure => "Failed to write log".to_owned(),
        }
    }
}

/// The ways in which a scan fails.
#[derive(Debug, Clone, Copy, PartialEq, Eq, Structural)]
pub enum ScanError {
    /// A root is missing, is not a directory, or no root was given.
    InvalidInput,
    /// A directory could not be listed or a file could not be read.
    IoFailure,
    /// The log could not be created or written.
    WriteFailure,
}

/// The exit code that stands for `outcome`.
pub open spec fn exit_code_of(outcome: Result<(), ScanError>) -> i32 {
    match outcome {
        Ok(()) => 0,
        Err(ScanError::InvalidInput) => 1,
        Err(ScanError::IoFailure) => 2,
        Err(ScanError::WriteFailure) => 0,
    }
}

/// The exit code of the process: zero once a scan has completed, also where
/// its log could not be written, and non-zero where the input was refused or
/// the walk failed.
pub fn exit_code(outcome: Result<(), ScanError>) -> (code: i32)
    ensures
        code == exit_code_of(outcome),
        code != 0 <==> outcome == Err::<(), ScanError>(ScanError::InvalidInput) || outcome == Err::<
            (),
            ScanError,
        >(ScanError::IoFailure),
{
    match outcome {
        Ok(()) => 0,
        Err(ScanError::InvalidInput) => 1,
        Err(ScanError::IoFailure) => 2,
        Err(ScanError::WriteFailure) => 0,
    }
}

} // verus!
