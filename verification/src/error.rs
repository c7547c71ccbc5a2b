//! What a listing reports on the way, and the exit code that follows.
use crate::attrs::ErrorKind;
use crate::meta::IoFailure;
use vstd::prelude::*;

verus! {

/// A problem that a listing met.
#[derive(Debug)]
pub enum LsError {
    InvalidLineWidth(String),
    IOError(IoFailure),
    WriteError(IoFailure),
    /// A failure at a path, and whether the path stood on the command line.
    IOErrorContext(Vec<u8>, IoFailure, bool),
    BlockSizeParseError(String),
    InvalidTabSize(String),
    DiredAndZeroAreIncompatible,
    AlreadyListedError(Vec<u8>),
    TimeStyleParseError(String),
}

impl LsError {
    /// The exit code: 1 for minor trouble, 2 for serious trouble.
    pub fn code(&self) -> (r: i32)
        ensures
            r == (if self is IOError || self is WriteError || (*self matches LsError::IOErrorContext(
                _,
                _,
                command_line,
            ) && !command_line) {
                1i32
            } else {
                2i32
            }),
    {
        match self {
            LsError::IOError(_) | LsError::WriteError(_) => 1,
            LsError::IOErrorContext(_, _, command_line) => {
                if *command_line {
                    2
                } else {
                    1
                }
            },
            _ => 2,
        }
    }
}

/// How a failure at a path is worded.
#[derive(Clone, Copy, Debug, PartialEq, Eq, Structural)]
pub enum ContextMessage {
    NotDirectory,
    NoSuchFile,
    OperationNotPermitted,
    DirectoryPermissionDenied,
    FilePermissionDenied,
    BadDescriptor,
    UnknownIoError,
}

/// The number of the failure, where the system gave one; 1 where it gave none.
pub open spec fn errno_of(failure: IoFailure) -> i32 {
    match failure.raw_os_error {
        Some(n) => n,
        None => 1,
    }
}

pub fn errno(failure: IoFailure) -> (r: i32)
    ensures
        r == errno_of(failure),
{
    match failure.raw_os_error {
        Some(n) => n,
        None => 1,
    }
}

/// The wording for a failure at a path; `is_dir` tells whether the path is a
/// directory.
pub fn context_message(failure: IoFailure, is_dir: bool) -> (r: ContextMessage)
    ensures
        r == (match failure.kind {
            ErrorKind::NotADirectory => ContextMessage::NotDirectory,
            ErrorKind::NotFound => ContextMessage::NoSuchFile,
            ErrorKind::PermissionDenied => if errno_of(failure) == 1 {
                ContextMessage::OperationNotPermitted
            } else if is_dir {
                ContextMessage::DirectoryPermissionDenied
            } else {
                ContextMessage::FilePermissionDenied
            },
            _ => if errno_of(failure) == 9 {
                ContextMessage::BadDescriptor
            } else {
                ContextMessage::UnknownIoError
            },
        }),
{
    match failure.kind {
        ErrorKind::NotADirectory => ContextMessage::NotDirectory,
        ErrorKind::NotFound => ContextMessage::NoSuchFile,
        ErrorKind::PermissionDenied => {
            if errno(failure) == 1 {
                ContextMessage::OperationNotPermitted
            } else if is_dir {
                ContextMessage::DirectoryPermissionDenied
            } else {
                ContextMessage::FilePermissionDenied
            }
        },
        _ => {
            if errno(failure) == 9 {
                ContextMessage::BadDescriptor
            } else {
                ContextMessage::UnknownIoError
            }
        },
    }
}

} // verus!
