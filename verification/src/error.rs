//! The crate's error type.
use vstd::prelude::*;
use vstd::string::*;

verus! {

/// The operating system's error, as the standard library hands it out. It is carried
/// through unread.
#[verifier::external_type_specification]
#[verifier::external_body]
pub struct ExIoError(std::io::Error);

/// A failure of a storage operation.
#[non_exhaustive]
#[derive(Debug)]
pub enum Error {
    /// An operating-system I/O operation failed. It is usually recoverable.
    Io {
        /// What was being attempted.
        context: &'static str,
        /// The underlying error.
        source: std::io::Error,
    },
    /// Stored bytes are not intact. It is fatal for the affected file.
    Corruption {
        /// What was found to be wrong.
        reason: &'static str,
    },
}

/// The result of a fallible operation.
pub type Result<T> = std::result::Result<T, Error>;

/// The context of an I/O error that was converted without one.
pub const DEFAULT_IO_CONTEXT: &'static str = "performing a storage i/o operation";

impl Error {
    /// An I/O error with its context.
    pub fn io(context: &'static str, source: std::io::Error) -> (error: Error)
        ensures
            error == (Error::Io { context, source }),
    {
        Error::Io { context, source }
    }

    /// A corruption error.
    pub fn corruption(reason: &'static str) -> (error: Error)
        ensures
            error == (Error::Corruption { reason }),
    {
        Error::Corruption { reason }
    }

    /// The operating-system error behind an I/O error.
    pub fn source(&self) -> (source: Option<&std::io::Error>)
        ensures
            source == (match self {
                Error::Io { source, .. } => Some(source),
                Error::Corruption { .. } => None,
            }),
    {
        match self {
            Error::Io { source, .. } => Some(source),
            Error::Corruption { .. } => None,
        }
    }

    /// A stable name for the kind of failure.
    pub fn kind(&self) -> (kind: &'static str)
        ensures
            kind@ == (match self {
                Error::Io { .. } => "Io"@,
                Error::Corruption { .. } => "Corruption"@,
            }),
    {
        match self {
            Error::Io { .. } => "Io",
            Error::Corruption { .. } => "Corruption",
        }
    }

    /// A short human-readable caption, the same for every failure.
    pub fn caption(&self) -> (caption: &'static str)
        ensures
            caption@ == "lsm storage engine error"@,
    {
        "lsm storage engine error"
    }

    /// A description of the failure: what was attempted and what the operating system
    /// reported, or what was found to be wrong.
    pub fn message(&self) -> (text: String)
        ensures
            match self {
                Error::Io { context, source } => exists|cause: String| #[trigger]
                    to_string_from_display_ensures(source, cause) && text@
                        == "i/o error while "@ + context@ + ": "@ + cause@,
                Error::Corruption { reason } => text@ == "sorted-run corruption: "@ + reason@,
            },
    {
        match self {
            Error::Io { context, source } => {
                let cause: String = source.to_string();
                let text = String::from_str("i/o error while ").concat(context).concat(
                    ": ",
                ).concat(cause.as_str());
                text
            },
            Error::Corruption { reason } => String::from_str("sorted-run corruption: ").concat(
                reason,
            ),
        }
    }

    /// Whether the failure is fatal: corruption is, an I/O failure is not.
    pub fn is_fatal(&self) -> (fatal: bool)
        ensures
            fatal == (self is Corruption),
    {
        match self {
            Error::Io { .. } => false,
            Error::Corruption { .. } => true,
        }
    }
}

impl From<std::io::Error> for Error {
    fn from(source: std::io::Error) -> (error: Error) {
        Error::Io { context: DEFAULT_IO_CONTEXT, source }
    }
}

impl vstd::std_specs::convert::FromSpecImpl<std::io::Error> for Error {
    open spec fn obeys_from_spec() -> bool {
        true
    }

    open spec fn from_spec(source: std::io::Error) -> Error {
        Error::Io { context: DEFAULT_IO_CONTEXT, source }
    }
}

} // verus!
