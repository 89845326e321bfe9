use bf_interpreter::decimal::u64_to_string;
use bf_interpreter::error::{InterpreterError, InterpreterErrorKind};

#[test]
fn test_error_kind_display() {
    let error = InterpreterErrorKind::PointerOutOfBounds(10).to_error();
    assert_eq!(error.message(), "Pointer out of bounds 10");
    assert_eq!(error.code, 11);

    let error = InterpreterErrorKind::ValueOutOfBounds.to_error();
    assert_eq!(error.message(), "Value out of bounds");
    assert_eq!(error.code, 12);

    let error = InterpreterErrorKind::IoError(String::from("test")).to_error();
    assert_eq!(
        error.message(),
        "Failed to read byte from stdin: no bytes available: test"
    );
    assert_eq!(error.code, 13);

    let error = InterpreterErrorKind::UnmatchedBracket.to_error();
    assert_eq!(error.message(), "Unmatched bracket");
    assert_eq!(error.code, 15);

    let error = InterpreterErrorKind::InvalidUtf8.to_error();
    assert_eq!(error.message(), "Invalid utf8");
    assert_eq!(error.code, 16);
}

#[test]
fn test_error_display() {
    let error = InterpreterError::new("test".to_string(), 10);
    assert_eq!(error.message(), "test");
    assert_eq!(error.code, 10);
}

#[test]
fn test_error_debug() {
    let error = InterpreterError::new("test".to_string(), 10);
    assert_eq!(error.describe(), "test, code: 10");
}

#[test]
fn flush_error_message() {
    let error = InterpreterErrorKind::FlushError(String::from("closed")).to_error();
    assert_eq!(error.message(), "Failed to flush stdout: closed");
    assert_eq!(error.code, 14);
}

#[test]
fn step_limit_error() {
    let error = InterpreterErrorKind::StepLimitExceeded.to_error();
    assert_eq!(error.message(), "Step limit exceeded");
    assert_eq!(error.code, 17);
}

#[test]
fn describe_negative_code() {
    let error = InterpreterError::new("boom".to_string(), -5);
    assert_eq!(error.describe(), "boom, code: -5");
}

#[test]
fn decimal_rendering() {
    assert_eq!(u64_to_string(0), "0");
    assert_eq!(u64_to_string(9), "9");
    assert_eq!(u64_to_string(30000), "30000");
    assert_eq!(u64_to_string(18446744073709551615), "18446744073709551615");
}
