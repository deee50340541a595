//! The library's errors.

use crate::path::AbsPath;
use vstd::prelude::*;

verus! {

/// The classes of input/output failures that the library tells apart.
#[derive(Debug, Clone, Copy, PartialEq, Eq, Structural)]
pub enum IoErrorKind {
    /// The path does not exist.
    NotFound,
    /// The path may not be read.
    PermissionDenied,
    /// A directory stands where a file was expected.
    IsADirectory,
    /// Any other failure.
    Other,
}

impl IoErrorKind {
    /// Whether a failure of this kind means that the path can no longer be
    /// observed, as opposed to a fault that has to be reported.
    pub open spec fn spec_is_gone(self) -> bool {
        self == IoErrorKind::NotFound || self == IoErrorKind::PermissionDenied
    }

    #[verifier::when_used_as_spec(spec_is_gone)]
    pub fn is_gone(self) -> (gone: bool)
        ensures
            gone == self.spec_is_gone(),
    {
        match self {
            IoErrorKind::NotFound => true,
            IoErrorKind::PermissionDenied => true,
            _ => false,
        }
    }
}

/// An input/output failure: its class and a description.
#[derive(Debug, PartialEq, Eq)]
pub struct IoFailure {
    pub kind: IoErrorKind,
    pub message: String,
}

/// What an `IoFailure` says.
pub struct IoFailureView {
    pub kind: IoErrorKind,
    pub message: Seq<char>,
}

impl View for IoFailure {
    type V = IoFailureView;

    open spec fn view(&self) -> IoFailureView {
        IoFailureView { kind: self.kind, message: self.message@ }
    }
}

impl Clone for IoFailure {
    fn clone(&self) -> (copy: Self)
        ensures
            copy@ == self@,
    {
        IoFailure { kind: self.kind, message: self.message.clone() }
    }
}

/// The platform errors that the library tells apart.
#[derive(Debug, Clone, Copy, PartialEq, Eq, Structural)]
pub enum PlatformError {
    /// No such file or directory.
    NotFound,
    /// Permission denied.
    PermissionDenied,
    /// Any other platform error, by its number.
    Other(i32),
}

impl PlatformError {
    /// The number of a platform error that has to be reported. An error
    /// that means that the path can no longer be observed, because it is
    /// missing or may not be read, has none.
    pub open spec fn spec_fault(self) -> Option<i32> {
        match self {
            PlatformError::Other(code) => Some(code),
            _ => None,
        }
    }

    /// The number of a platform error that has to be reported.
    #[verifier::when_used_as_spec(spec_fault)]
    pub fn fault(self) -> (code: Option<i32>)
        ensures
            code == self.spec_fault(),
    {
        match self {
            PlatformError::Other(code) => Some(code),
            _ => None,
        }
    }

    /// Whether the error means that the path can no longer be observed.
    pub open spec fn spec_is_gone(self) -> bool {
        self.spec_fault() is None
    }

    /// Whether the error means that the path can no longer be observed.
    #[verifier::when_used_as_spec(spec_is_gone)]
    pub fn is_gone(self) -> (gone: bool)
        ensures
            gone == self.spec_is_gone(),
    {
        self.fault().is_none()
    }
}

/// Everything that can go wrong.
#[derive(Debug, PartialEq, Eq)]
pub enum TuxDriveError {
    /// A directory was to be watched, and the path is none.
    NotDirectory(AbsPath),
    /// There is no home directory to look for the configuration in.
    HomeDirNotFound,
    /// There is no configuration directory to look for the configuration in.
    ConfigDirNotFound,
    /// An input/output failure that does not mean a deletion.
    Io(IoFailure),
    /// The configuration could not be parsed.
    DeserializeFailed(String),
    /// No configuration file was found.
    ConfigFileNotFound,
    /// A configured path is not absolute.
    PathNotAbs(String),
    /// A platform error, by its number, that does not mean a deletion.
    NixError(i32),
}

/// What a `TuxDriveError` says.
pub enum ErrorView {
    NotDirectory(Seq<Seq<u8>>),
    HomeDirNotFound,
    ConfigDirNotFound,
    Io(IoFailureView),
    DeserializeFailed(Seq<char>),
    ConfigFileNotFound,
    PathNotAbs(Seq<char>),
    NixError(i32),
}

impl View for TuxDriveError {
    type V = ErrorView;

    open spec fn view(&self) -> ErrorView {
        match self {
            TuxDriveError::NotDirectory(path) => ErrorView::NotDirectory(path@),
            TuxDriveError::HomeDirNotFound => ErrorView::HomeDirNotFound,
            TuxDriveError::ConfigDirNotFound => ErrorView::ConfigDirNotFound,
            TuxDriveError::Io(failure) => ErrorView::Io(failure@),
            TuxDriveError::DeserializeFailed(message) => ErrorView::DeserializeFailed(message@),
            TuxDriveError::ConfigFileNotFound => ErrorView::ConfigFileNotFound,
            TuxDriveError::PathNotAbs(path) => ErrorView::PathNotAbs(path@),
            TuxDriveError::NixError(errno) => ErrorView::NixError(*errno),
        }
    }
}

pub type TuxDriveResult<T> = Result<T, TuxDriveError>;

} // verus!
