//! Bearer-token authentication: claim construction, signing into a compact
//! three-segment token, verification with classified failures, token-pair
//! issuance, and a generic per-request guard that turns an `Authorization`
//! header into a typed identity.

pub mod authentication;
pub mod base64url;
pub mod controller;
pub mod errors;
pub mod guard;
pub mod jwt;
pub mod numeric;
pub mod payload;
pub mod routes;
