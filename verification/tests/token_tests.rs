//! End-to-end behaviour of the token codec and issuer.

use jwt_auth::errors::CustomError;
use jwt_auth::jwt::{Claims, Jwt};

const SECRET: &[u8] = b"test-signing-secret";
const NOW: usize = 2_000_000_000;

#[test]
fn issue_seven_produces_scaled_expiries() {
    let jwt = Jwt::sign(7, SECRET, 1000).unwrap();
    assert_eq!(jwt.id, 7);
    let access = Jwt::decode(jwt.access_token.clone(), SECRET, 1000).unwrap();
    assert_eq!(access.sub, "7".to_string());
    assert_eq!(access.iat, 1000);
    assert_eq!(access.exp, 1000 + 86_400_000);
    let refresh = Jwt::decode(jwt.refresh_token.clone(), SECRET, 1000).unwrap();
    assert_eq!(refresh.sub, "7".to_string());
    assert_eq!(refresh.iat, 1000);
    assert_eq!(refresh.exp, 1000 + 30 * 86_400_000);
}

#[test]
fn issue_then_verify_keeps_subject_text() {
    let jwt = Jwt::sign(-42, SECRET, NOW).unwrap();
    let claims = Jwt::decode(jwt.access_token.clone(), SECRET, NOW).unwrap();
    assert_eq!(claims.sub, "-42".to_string());
}

#[test]
fn sign_verify_round_trip_returns_same_claims() {
    let claims = Claims {
        sub: "alice".to_string(),
        iat: 5,
        exp: 9_999,
    };
    let token = Jwt::sign_claims(&claims, SECRET);
    let back = Jwt::decode(token, SECRET, 9_000).unwrap();
    assert_eq!(back, claims);
}

#[test]
fn verify_twice_yields_identical_claims() {
    let jwt = Jwt::sign(11, SECRET, NOW).unwrap();
    let first = Jwt::decode(jwt.access_token.clone(), SECRET, NOW).unwrap();
    let second = Jwt::decode(jwt.access_token.clone(), SECRET, NOW).unwrap();
    assert_eq!(first, second);
}

#[test]
fn verify_under_other_secret_is_unauthorized() {
    let claims = Claims {
        sub: "7".to_string(),
        iat: NOW,
        exp: NOW + 1000,
    };
    let token = Jwt::sign_claims(&claims, b"one secret");
    match Jwt::decode(token, b"another secret", NOW) {
        Err(CustomError::Unauthorized(msg)) => assert_eq!(msg, "Token is invalid".to_string()),
        other => panic!("expected Unauthorized, got {:?}", other),
    }
}

#[test]
fn corrupted_payload_is_unauthorized_not_internal() {
    let jwt = Jwt::sign(7, SECRET, NOW).unwrap();
    let token = jwt.access_token;
    let first_dot = token.find('.').unwrap();
    let mut bytes = token.into_bytes();
    let target = first_dot + 1;
    bytes[target] = if bytes[target] == b'A' { b'B' } else { b'A' };
    let corrupted = String::from_utf8(bytes).unwrap();
    match Jwt::decode(corrupted, SECRET, NOW) {
        Err(CustomError::Unauthorized(msg)) => assert_eq!(msg, "Token is invalid".to_string()),
        other => panic!("expected Unauthorized, got {:?}", other),
    }
}

#[test]
fn expired_token_is_unauthorized() {
    let claims = Claims {
        sub: "7".to_string(),
        iat: 100,
        exp: 200,
    };
    let token = Jwt::sign_claims(&claims, SECRET);
    match Jwt::decode(token, SECRET, 200) {
        Err(CustomError::Unauthorized(msg)) => assert_eq!(msg, "Token is invalid".to_string()),
        other => panic!("expected Unauthorized, got {:?}", other),
    }
}

#[test]
fn malformed_token_is_unauthorized() {
    match Jwt::decode("not a token".to_string(), SECRET, NOW) {
        Err(CustomError::Unauthorized(msg)) => assert_eq!(msg, "Token is invalid".to_string()),
        other => panic!("expected Unauthorized, got {:?}", other),
    }
}

#[test]
fn signed_garbage_payload_is_internal() {
    let jwt = Jwt::sign(7, SECRET, NOW).unwrap();
    let header_segment = jwt.access_token.split('.').next().unwrap().to_string();
    let message = format!("{}.bm90anNvbg", header_segment);
    let key = jsonwebtoken::EncodingKey::from_secret(SECRET);
    let signature =
        jsonwebtoken::crypto::sign(message.as_bytes(), &key, jsonwebtoken::Algorithm::HS256)
            .unwrap();
    let token = format!("{}.{}", message, signature);
    match Jwt::decode(token, SECRET, NOW) {
        Err(CustomError::Internal(msg)) => {
            assert_eq!(msg, "Some other error occurred".to_string())
        }
        other => panic!("expected Internal, got {:?}", other),
    }
}

#[test]
fn issued_token_verifies_under_real_jsonwebtoken() {
    let jwt = Jwt::sign(7, SECRET, NOW).unwrap();
    let key = jsonwebtoken::DecodingKey::from_secret(SECRET);
    let validation = jsonwebtoken::Validation::new(jsonwebtoken::Algorithm::HS256);
    let data = jsonwebtoken::decode::<serde_json::Value>(&jwt.access_token, &key, &validation)
        .expect("token rejected by jsonwebtoken");
    assert_eq!(data.claims["sub"].as_str().unwrap(), "7");
    assert_eq!(data.claims["iat"].as_u64().unwrap(), NOW as u64);
    assert_eq!(data.claims["exp"].as_u64().unwrap(), (NOW + 86_400_000) as u64);
}

#[test]
fn round_trip_keeps_non_ascii_subject() {
    let claims = Claims {
        sub: "zoë-42".to_string(),
        iat: NOW,
        exp: NOW + 60,
    };
    let token = Jwt::sign_claims(&claims, SECRET);
    let back = Jwt::decode(token, SECRET, NOW).unwrap();
    assert_eq!(back, claims);
}

#[test]
fn claims_from_uses_millisecond_scaled_days() {
    let claims = Claims::from(9, 30, 500);
    assert_eq!(claims.sub, "9".to_string());
    assert_eq!(claims.iat, 500);
    assert_eq!(claims.exp, 500 + 30 * 86_400_000);
}
