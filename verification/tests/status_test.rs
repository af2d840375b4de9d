use lsm_core::obj::status_rs::{Status, StatusCode};

#[test]
fn status_test_move_constructor() {
    let status = Status::ok();
    let status2 = status;
    assert!(status2.is_ok());
    let status = Status::not_found("custom NotFound status message", None);
    let status2 = status;
    assert!(status2.is_not_found());
    assert_eq!(
        b"NotFound: custom NotFound status message",
        status2.to_string().as_bytes()
    );
    let _self_moved = Status::io_error("custom IOError status message", None);
}

#[test]
fn status_rs_test_move_constructor() {
    let status = Status::ok();
    let status2 = status;
    assert!(status2.is_ok());
    let status = Status::not_found("custom NotFound status message", None);
    let status2 = status;
    assert!(status2.is_not_found());
    assert_eq!(
        "NotFound: custom NotFound status message",
        status2.to_string()
    );
}

#[test]
fn test_status_codes_and_messages() {
    assert_eq!(Status::ok().to_string(), "OK");
    assert_eq!(Status::ok().code(), StatusCode::Kok);
    let s = Status::corruption("bad block", Some("table 7"));
    assert!(s.is_corruption());
    assert!(!s.is_ok());
    assert_eq!(s.code(), StatusCode::KCorruption);
    assert_eq!(s.to_string(), "Corruption: bad block: table 7");
    assert_eq!(s.clone().to_string(), "Corruption: bad block: table 7");
    assert!(Status::not_supported("x", None).is_not_supported_error());
    assert_eq!(Status::not_supported("x", None).to_string(), "NotSupported: x");
    assert!(Status::invalid_argument("x", None).is_invalid_argument());
    assert_eq!(Status::invalid_argument("x", None).to_string(), "InvalidArgument: x");
    assert!(Status::io_error("x", None).is_io_error());
    assert_eq!(Status::io_error("f", Some("gone")).to_string(), "IOError: f: gone");
}
