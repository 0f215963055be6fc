use ml_dsa::error::Error;

#[test]
fn error_messages() {
    assert_eq!(
        Error::InvalidLength { expected: 1952, got: 10 }.message(),
        "invalid length: expected 1952, got 10"
    );
    assert_eq!(Error::InvalidLength { expected: 0, got: 7 }.message(), "invalid length: expected 0, got 7");
    assert_eq!(Error::MalformedInput.message(), "malformed input");
    assert_eq!(Error::ContextTooLong.message(), "context string exceeds 255 bytes");
    assert_eq!(Error::Reject.message(), "rejected (bottom)");
    assert_eq!(
        Error::FaultDetected.message(),
        "verify-after-sign failed: fault detected, signature withheld"
    );
}
