use hg_core::commands::debugdata::{to_command_error, DebugDataError};
use hg_core::commands::{push_decimal, CommandError};

fn message(rev: &str, err: DebugDataError) -> Vec<u8> {
    match to_command_error(rev, err) {
        CommandError::Abort(Some(message)) => message,
        CommandError::Abort(None) => panic!("a message is owed"),
    }
}

fn decimal(n: u64) -> Vec<u8> {
    let mut out = b"n=".to_vec();
    push_decimal(&mut out, n);
    out
}

#[test]
fn abort_names_the_revision() {
    assert_eq!(
        message("42", DebugDataError::InvalidRevision),
        b"abort: invalid revision identifier42\n".to_vec()
    );
    assert_eq!(
        message("abc", DebugDataError::AmbiguousPrefix),
        b"abort: ambiguous revision identifierabc\n".to_vec()
    );
    assert_eq!(
        message("", DebugDataError::InvalidRevision),
        b"abort: invalid revision identifier\n".to_vec()
    );
}

#[test]
fn abort_names_version_and_format() {
    assert_eq!(
        message("0", DebugDataError::UnsuportedRevlogVersion(2)),
        b"abort: unsupported revlog version 2\n".to_vec()
    );
    assert_eq!(
        message("0", DebugDataError::UnsuportedRevlogVersion(65535)),
        b"abort: unsupported revlog version 65535\n".to_vec()
    );
    assert_eq!(
        message("0", DebugDataError::UnknowRevlogDataFormat(117)),
        b"abort: unknow revlog dataformat 117\n".to_vec()
    );
    assert_eq!(
        message("0", DebugDataError::UnknowRevlogDataFormat(0)),
        b"abort: unknow revlog dataformat 0\n".to_vec()
    );
}

#[test]
fn abort_of_a_corrupted_log_names_no_revision() {
    assert_eq!(
        message("7", DebugDataError::CorruptedRevlog),
        b"abort: corrupted revlog\n".to_vec()
    );
}

#[test]
fn abort_hands_on_what_reading_said() {
    assert_eq!(
        message("7", DebugDataError::IoError("gr\u{fc}n: no such file".to_string())),
        "abort: gr\u{fc}n: no such file\n".as_bytes().to_vec()
    );
}

#[test]
fn decimal_digits_of_numbers() {
    assert_eq!(decimal(0), b"n=0".to_vec());
    assert_eq!(decimal(9), b"n=9".to_vec());
    assert_eq!(decimal(10), b"n=10".to_vec());
    assert_eq!(decimal(1005), b"n=1005".to_vec());
    assert_eq!(decimal(u64::MAX), b"n=18446744073709551615".to_vec());
}
