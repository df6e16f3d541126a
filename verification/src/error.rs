//! What can go wrong, and why a compilation bypasses the cache.

use crate::path::FilePath;
use vstd::prelude::*;

verus! {

/// The kinds of input and output failures that callers tell apart.
#[derive(Debug, Clone, Copy, PartialEq, Eq, Structural)]
pub enum IoErrorKind {
    NotFound,
    WouldBlock,
    InvalidInput,
    InvalidData,
    Other,
}

/// A failed read, or a file that could not be observed.
#[derive(Debug, Clone, PartialEq, Eq)]
pub struct IoError {
    /// The kind of failure.
    pub kind: IoErrorKind,
    /// The operating system's error number, where the failure came from there.
    pub code: Option<i32>,
    /// What the failure says of itself.
    pub message: String,
}

/// What an [`IoError`] says.
pub struct IoErrorModel {
    pub kind: IoErrorKind,
    pub code: Option<i32>,
    pub message: Seq<char>,
}

impl View for IoError {
    type V = IoErrorModel;

    open spec fn view(&self) -> IoErrorModel {
        IoErrorModel { kind: self.kind, code: self.code, message: self.message@ }
    }
}

impl IoError {
    /// A copy of the failure.
    pub fn duplicate(&self) -> (copy: IoError)
        ensures
            copy@ == self@,
    {
        IoError { kind: self.kind, code: self.code, message: self.message.clone() }
    }
}

/// A failure of this library's own making.
pub open spec fn own_error(kind: IoErrorKind, message: Seq<char>) -> IoErrorModel {
    IoErrorModel { kind, code: None, message }
}

/// A failure of this library's own making.
pub(crate) fn own_io_error(kind: IoErrorKind, message: &str) -> (error: IoError)
    ensures
        error@ == own_error(kind, message@),
{
    IoError { kind, code: None, message: message.to_owned() }
}

/// Why a compilation is not cached.
#[derive(Debug, Clone, PartialEq, Eq)]
pub enum CcBypassReason {
    /// The dependency list could not be read.
    DepfileRead { path: FilePath, message: String },
    /// The dependency list is not one that this library reads.
    MalformedDepfile(String),
    /// An input could not be read.
    InputRead { path: FilePath, message: String },
    /// The compiler's working directory is not absolute.
    RelativeWorkingDirectory(FilePath),
    /// There is more input than a prediction may hold.
    TooManyInputs,
    /// An input holds a time-dependent preprocessor macro.
    EmbeddedTimestampMacro(FilePath),
    /// An input may have changed while the compiler ran.
    InputModifiedDuringCompilation(FilePath),
    /// An input's bytes have changed.
    InputChanged(FilePath),
    /// The inputs were discovered under another working directory.
    DiscoveryWorkingDirectory,
    /// A directory holds a name that is not UTF-8.
    NonUtf8Path(FilePath),
}

/// Why an input that could not be read is not cached.
pub fn input_unreadable(path: &FilePath, error: IoError) -> (reason: CcBypassReason)
    ensures
        reason@ == (BypassModel::InputRead { path: path@, message: error@.message }),
{
    CcBypassReason::InputRead { path: path.duplicate(), message: error.message }
}

/// What a [`CcBypassReason`] says.
pub enum BypassModel {
    DepfileRead { path: Seq<u8>, message: Seq<char> },
    MalformedDepfile(Seq<char>),
    InputRead { path: Seq<u8>, message: Seq<char> },
    RelativeWorkingDirectory(Seq<u8>),
    TooManyInputs,
    EmbeddedTimestampMacro(Seq<u8>),
    InputModifiedDuringCompilation(Seq<u8>),
    InputChanged(Seq<u8>),
    DiscoveryWorkingDirectory,
    NonUtf8Path(Seq<u8>),
}

impl View for CcBypassReason {
    type V = BypassModel;

    open spec fn view(&self) -> BypassModel {
        match self {
            CcBypassReason::DepfileRead { path, message } => BypassModel::DepfileRead {
                path: path@,
                message: message@,
            },
            CcBypassReason::MalformedDepfile(message) => BypassModel::MalformedDepfile(message@),
            CcBypassReason::InputRead { path, message } => BypassModel::InputRead {
                path: path@,
                message: message@,
            },
            CcBypassReason::RelativeWorkingDirectory(path) => {
                BypassModel::RelativeWorkingDirectory(path@)
            },
            CcBypassReason::TooManyInputs => BypassModel::TooManyInputs,
            CcBypassReason::EmbeddedTimestampMacro(path) => BypassModel::EmbeddedTimestampMacro(
                path@,
            ),
            CcBypassReason::InputModifiedDuringCompilation(path) => {
                BypassModel::InputModifiedDuringCompilation(path@)
            },
            CcBypassReason::InputChanged(path) => BypassModel::InputChanged(path@),
            CcBypassReason::DiscoveryWorkingDirectory => BypassModel::DiscoveryWorkingDirectory,
            CcBypassReason::NonUtf8Path(path) => BypassModel::NonUtf8Path(path@),
        }
    }
}

} // verus!
