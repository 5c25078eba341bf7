use flesh::status::{Status, StatusType};

#[test]
fn status_codes_round_trip() {
    assert_eq!(Status::Announce.as_u8(), 1);
    assert_eq!(Status::Teapot.as_u8(), 255);
    assert!(matches!(Status::from_u8(17), Status::RelayFailure));
    assert!(matches!(Status::from_u8(200), Status::Custom(200)));
    assert!(matches!(Status::from_u8(255), Status::Teapot));
    assert!(matches!(Status::Pong.as_type(), StatusType::Routing));
    assert!(Status::Acknowledge.is_ok());
    assert!(!Status::NotFound.is_ok());
}

#[test]
fn status_bands() {
    assert!(matches!(Status::Teapot.as_type(), StatusType::Teapot));
    assert!(!Status::Teapot.is_ok());
    assert!(matches!(Status::Timeout.as_type(), StatusType::RoutingError));
    assert!(!Status::RelayFailure.is_ok());
    assert!(matches!(Status::Redirect.as_type(), StatusType::Hints));
    assert!(Status::EarlyHints.is_ok());
    assert!(matches!(Status::AlreadyReported.as_type(), StatusType::Oks));
    assert!(matches!(Status::ServerError.as_type(), StatusType::ServerErrors));
    assert!(matches!(Status::Custom(100).as_type(), StatusType::Unknown));
    assert!(!Status::Custom(100).is_ok());
    assert!(matches!(Status::Custom(9).as_type(), StatusType::Routing));
    assert!(matches!(Status::Custom(0).as_type(), StatusType::Unknown));
    assert!(matches!(Status::Custom(60).as_type(), StatusType::ServerErrors));
}
