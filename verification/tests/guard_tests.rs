//! The authentication guard's four outcomes, plus the supporting pieces:
//! error classification values, route tables and the text helpers.

use jwt_auth::authentication;
use jwt_auth::base64url::{b64_decode, b64_encode};
use jwt_auth::controller;
use jwt_auth::errors::{CustomError, CustomResult, ErrorResponse};
use jwt_auth::guard::{authenticate, GuardOutcome, JwtGuard, TokenError};
use jwt_auth::jwt::{Claims, Jwt};
use jwt_auth::numeric::{format_i32, parse_i32};
use jwt_auth::routes::RouteName;

const SECRET: &[u8] = b"test-signing-secret";
const NOW: usize = 2_000_000_000;

#[test]
fn no_header_forwards() {
    match authenticate::<JwtGuard>(None, SECRET, NOW) {
        GuardOutcome::Forward(status) => assert_eq!(status, 401),
        other => panic!("expected Forward, got {:?}", other),
    }
}

#[test]
fn bearer_token_for_subject_42_succeeds() {
    let jwt = Jwt::sign(42, SECRET, NOW).unwrap();
    let header = format!("Bearer {}", jwt.access_token);
    match authenticate::<JwtGuard>(Some(&header), SECRET, NOW) {
        GuardOutcome::Success(identity) => {
            assert_eq!(identity.sub, 42);
            assert_eq!(identity.iat, NOW);
            assert_eq!(identity.exp, NOW + 86_400_000);
        }
        other => panic!("expected Success, got {:?}", other),
    }
}

#[test]
fn non_numeric_subject_is_invalid_key() {
    let claims = Claims {
        sub: "abc".to_string(),
        iat: NOW,
        exp: NOW + 1000,
    };
    let token = Jwt::sign_claims(&claims, SECRET);
    let header = format!("Bearer {}", token);
    match authenticate::<JwtGuard>(Some(&header), SECRET, NOW) {
        GuardOutcome::Error(status, TokenError::InvalidKey) => assert_eq!(status, 401),
        other => panic!("expected Error(InvalidKey), got {:?}", other),
    }
}

#[test]
fn bad_token_is_invalid_key() {
    match authenticate::<JwtGuard>(Some("Bearer junk"), SECRET, NOW) {
        GuardOutcome::Error(status, TokenError::InvalidKey) => assert_eq!(status, 401),
        other => panic!("expected Error(InvalidKey), got {:?}", other),
    }
}

#[test]
fn bearer_is_stripped_anywhere_in_the_header() {
    let jwt = Jwt::sign(8, SECRET, NOW).unwrap();
    let header = format!("Bearer Bearer {}", jwt.access_token);
    match authenticate::<JwtGuard>(Some(&header), SECRET, NOW) {
        GuardOutcome::Success(identity) => assert_eq!(identity.sub, 8),
        other => panic!("expected Success, got {:?}", other),
    }
}

#[test]
fn expired_token_is_invalid_key() {
    let jwt = Jwt::sign(5, SECRET, 1_000).unwrap();
    let header = format!("Bearer {}", jwt.access_token);
    let later = 1_000 + 86_400_000;
    match authenticate::<JwtGuard>(Some(&header), SECRET, later) {
        GuardOutcome::Error(status, TokenError::InvalidKey) => assert_eq!(status, 401),
        other => panic!("expected Error(InvalidKey), got {:?}", other),
    }
}

#[test]
fn http_status_mapping_is_exact() {
    let (s, m) = CustomError::Internal("boom".to_string()).get_http_status();
    assert_eq!((s, m), (500, "boom".to_string()));
    let (s, m) = CustomError::NotFound("gone".to_string()).get_http_status();
    assert_eq!((s, m), (404, "gone".to_string()));
    let (s, m) = CustomError::Unauthorized("no".to_string()).get_http_status();
    assert_eq!((s, m), (401, "no".to_string()));
    let (s, m) = CustomError::BadRequest("ignored".to_string()).get_http_status();
    assert_eq!((s, m), (400, "Unkown error".to_string()));
}

#[test]
fn error_message_matches_status_message() {
    let err = CustomError::Unauthorized("Token is invalid".to_string());
    assert_eq!(err.message(), "Token is invalid".to_string());
}

#[test]
fn response_values_hold_their_fields() {
    let ok = CustomResult { result: "Logout".to_string() };
    assert_eq!(ok.result, "Logout".to_string());
    let err = ErrorResponse { message: "no".to_string(), status: 401 };
    assert_eq!((err.message, err.status), ("no".to_string(), 401));
}

#[test]
fn route_tables_mount_login() {
    assert_eq!(authentication::auth_routes(), vec![RouteName::Login]);
    assert_eq!(controller::authentication::auth_routes(), vec![RouteName::Login]);
    assert_eq!(controller::get_routes(), vec![RouteName::Login]);
}

#[test]
fn decimal_text_round_trips() {
    assert_eq!(format_i32(-123), b"-123".to_vec());
    assert_eq!(format_i32(0), b"0".to_vec());
    assert_eq!(parse_i32(&b"2147483647".to_vec()), Some(i32::MAX));
    assert_eq!(parse_i32(&b"-2147483648".to_vec()), Some(i32::MIN));
    assert_eq!(parse_i32(&b"2147483648".to_vec()), None);
    assert_eq!(parse_i32(&b"abc".to_vec()), None);
    assert_eq!(parse_i32(&b"".to_vec()), None);
}

#[test]
fn base64url_matches_known_vectors() {
    assert_eq!(b64_encode(&b"Man".to_vec()), b"TWFu".to_vec());
    assert_eq!(b64_encode(&b"Ma".to_vec()), b"TWE".to_vec());
    assert_eq!(b64_encode(&b"M".to_vec()), b"TQ".to_vec());
    assert_eq!(b64_encode(&vec![0xfb, 0xff]), b"-_8".to_vec());
    let data = vec![0u8, 1, 2, 250, 251, 252, 253, 254, 255];
    let decoded = b64_decode(&b64_encode(&data)).unwrap();
    assert_eq!(decoded, data);
    assert_eq!(b64_decode(&b"TWF".to_vec()), None);
    assert_eq!(b64_decode(&b"!!!!".to_vec()), None);
}
