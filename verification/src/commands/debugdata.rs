//! The errors of the command that shows the data of a revision, and the
//! messages that the command aborts with.

use crate::bytes::push_bytes;
use crate::commands::{CommandError, decimal_digits, push_decimal};
use vstd::prelude::*;
use vstd::string::StringSliceAdditionalSpecFns;

verus! {

/// Why the data of a revision could not be shown.
#[derive(Debug, PartialEq, Eq)]
pub enum DebugDataError {
    /// Reading failed; the text says how.
    IoError(String),
    /// No revision has this identifier.
    InvalidRevision,
    /// Several revisions begin with this identifier.
    AmbiguousPrefix,
    /// The revision log is of a version that is not read.
    UnsuportedRevlogVersion(u16),
    /// The revision log does not hold together.
    CorruptedRevlog,
    /// The data is kept in a format that is not read.
    UnknowRevlogDataFormat(u8),
}

/// The message that the command aborts with, for the identifier that it was
/// asked about and the error that it met.
pub open spec fn abort_message(rev: Seq<u8>, err: DebugDataError) -> Seq<u8> {
    match err {
        DebugDataError::IoError(text) => "abort: ".spec_bytes() + vstd::utf8::encode_utf8(text@)
            + "\n".spec_bytes(),
        DebugDataError::InvalidRevision => "abort: invalid revision identifier".spec_bytes() + rev
            + "\n".spec_bytes(),
        DebugDataError::AmbiguousPrefix => "abort: ambiguous revision identifier".spec_bytes()
            + rev + "\n".spec_bytes(),
        DebugDataError::UnsuportedRevlogVersion(version) =>
            "abort: unsupported revlog version ".spec_bytes() + decimal_digits(version as nat)
                + "\n".spec_bytes(),
        DebugDataError::CorruptedRevlog => "abort: corrupted revlog\n".spec_bytes(),
        DebugDataError::UnknowRevlogDataFormat(format) =>
            "abort: unknow revlog dataformat ".spec_bytes() + decimal_digits(format as nat)
                + "\n".spec_bytes(),
    }
}

/// The error that the command ends with: it aborts, with a message that
/// names what went wrong.
pub fn to_command_error(rev: &str, err: DebugDataError) -> (r: CommandError)
    ensures
        r matches CommandError::Abort(Some(message)) && message@ == abort_message(
            rev.spec_bytes(),
            err,
        ),
{
    let mut message: Vec<u8> = Vec::new();
    match err {
        DebugDataError::IoError(text) => {
            push_bytes(&mut message, "abort: ".as_bytes());
            push_bytes(&mut message, text.as_str().as_bytes());
            push_bytes(&mut message, "\n".as_bytes());
        },
        DebugDataError::InvalidRevision => {
            push_bytes(&mut message, "abort: invalid revision identifier".as_bytes());
            push_bytes(&mut message, rev.as_bytes());
            push_bytes(&mut message, "\n".as_bytes());
        },
        DebugDataError::AmbiguousPrefix => {
            push_bytes(&mut message, "abort: ambiguous revision identifier".as_bytes());
            push_bytes(&mut message, rev.as_bytes());
            push_bytes(&mut message, "\n".as_bytes());
        },
        DebugDataError::UnsuportedRevlogVersion(version) => {
            push_bytes(&mut message, "abort: unsupported revlog version ".as_bytes());
            push_decimal(&mut message, version as u64);
            push_bytes(&mut message, "\n".as_bytes());
        },
        DebugDataError::CorruptedRevlog => {
            push_bytes(&mut message, "abort: corrupted revlog\n".as_bytes());
        },
        DebugDataError::UnknowRevlogDataFormat(format) => {
            push_bytes(&mut message, "abort: unknow revlog dataformat ".as_bytes());
            push_decimal(&mut message, format as u64);
            push_bytes(&mut message, "\n".as_bytes());
        },
    }
    CommandError::Abort(Some(message))
}

} // verus!
