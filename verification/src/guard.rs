//! The per-request authentication guard: reads a bearer credential from the
//! `Authorization` header, verifies it, and projects the claims into a
//! caller-chosen identity type.

use vstd::prelude::*;
use vstd::utf8::encode_utf8;
use vstd::string::StrSliceExecFns;
use crate::errors::{CustomError, STATUS_UNAUTHORIZED};
use crate::jwt::{Claims, Jwt, decode_bytes_spec};
use crate::numeric::{parse_i32, parse_i32_spec};
use crate::payload::ClaimsModel;

verus! {

/// Why a guard rejected a request outright.
#[derive(Debug, PartialEq, Eq, Structural)]
pub enum TokenError {
    MissingKey,
    InvalidKey,
}

/// How a guard resolves one request: a typed identity, a hard rejection
/// with a status code, or a forward that lets other handlers try.
#[derive(Debug)]
pub enum GuardOutcome<T> {
    Success(T),
    Error(u16, TokenError),
    Forward(u16),
}

/// An identity shape that the guard can project verified claims into. The
/// projection is pure: `from_claims_spec` says exactly which claims it
/// accepts and what it builds from them.
pub trait FromClaims: Sized {
    spec fn from_claims_spec(m: ClaimsModel) -> Option<Self>;

    fn from_claims(claims: Claims) -> (r: Result<Self, CustomError>)
        ensures
            match r {
                Ok(v) => Self::from_claims_spec(claims.model()) == Some(v),
                Err(_) => Self::from_claims_spec(claims.model()) is None,
            },
    ;
}

/// The identity the routes consume: the subject id parsed back to a
/// number, with the token's timestamps.
#[derive(Debug, PartialEq, Eq, Structural)]
pub struct JwtGuard {
    pub sub: i32,
    pub iat: usize,
    pub exp: usize,
}

impl FromClaims for JwtGuard {
    open spec fn from_claims_spec(m: ClaimsModel) -> Option<JwtGuard> {
        match parse_i32_spec(m.sub) {
            Some(id) => Some(JwtGuard { sub: id, iat: m.iat, exp: m.exp }),
            None => None,
        }
    }

    fn from_claims(claims: Claims) -> (r: Result<JwtGuard, CustomError>) {
        let sub_bytes = claims.sub.as_str().as_bytes_vec();
        match parse_i32(&sub_bytes) {
            Some(id) => Ok(JwtGuard { sub: id, iat: claims.iat, exp: claims.exp }),
            None => Err(CustomError::Unauthorized(String::from_str("Subject is not numeric"))),
        }
    }
}

/// The bytes of `Bearer `.
pub open spec fn bearer_lit() -> Seq<u8> {
    seq![0x42, 0x65, 0x61, 0x72, 0x65, 0x72, 0x20]
}

/// What `str::replace("Bearer ", "")` does: removes every occurrence of
/// the prefix text, scanning left to right.
pub open spec fn strip_bearer(s: Seq<u8>) -> Seq<u8>
    decreases s.len(),
{
    if s.len() < 7 {
        s
    } else if s.take(7) == bearer_lit() {
        strip_bearer(s.skip(7))
    } else {
        seq![s[0]] + strip_bearer(s.drop_first())
    }
}

/// Removes every occurrence of `Bearer ` from index `i` on.
fn strip_bearer_from(v: &Vec<u8>, i: usize) -> (r: Vec<u8>)
    requires
        i <= v@.len(),
    ensures
        r@ == strip_bearer(v@.skip(i as int)),
    decreases v@.len() - i,
{
    let ghost s = v@.skip(i as int);
    let n = v.len() - i;
    if n < 7 {
        let r = crate::jwt::copy_range(v, i, v.len());
        proof {
            assert(r@ =~= s);
        }
        r
    } else if v[i] == 0x42 && v[i + 1] == 0x65 && v[i + 2] == 0x61 && v[i + 3] == 0x72 && v[i + 4]
        == 0x65 && v[i + 5] == 0x72 && v[i + 6] == 0x20 {
        proof {
            assert(s.take(7) =~= bearer_lit());
            assert(s.skip(7) =~= v@.skip(i as int + 7));
        }
        strip_bearer_from(v, i + 7)
    } else {
        proof {
            assert(forall|x: int| 0 <= x < 7 ==> #[trigger] s.take(7)[x] == v@[i + x]);
            assert(s.take(7) != bearer_lit());
            assert(s.drop_first() =~= v@.skip(i as int + 1));
        }
        let mut r: Vec<u8> = Vec::new();
        r.push(v[i]);
        let mut tail = strip_bearer_from(v, i + 1);
        r.append(&mut tail);
        proof {
            assert(r@ =~= seq![s[0]] + strip_bearer(s.drop_first()));
        }
        r
    }
}

/// How the guard resolves a request, from the raw bytes of its
/// `Authorization` header: no header forwards; a header whose stripped
/// text fails verification or projection is a hard `Unauthorized` error;
/// otherwise the projected identity.
pub open spec fn guard_spec<T: FromClaims>(
    header: Option<Seq<u8>>,
    secret: Seq<u8>,
    now: usize,
) -> GuardOutcome<T> {
    match header {
        None => GuardOutcome::Forward(STATUS_UNAUTHORIZED),
        Some(h) => match decode_bytes_spec(strip_bearer(h), secret, now) {
            Err(_) => GuardOutcome::Error(STATUS_UNAUTHORIZED, TokenError::InvalidKey),
            Ok(m) => match T::from_claims_spec(m) {
                None => GuardOutcome::Error(STATUS_UNAUTHORIZED, TokenError::InvalidKey),
                Some(v) => GuardOutcome::Success(v),
            },
        },
    }
}

/// The guard's identity projection inverts issuance: claims issued for a
/// subject id project to exactly that id, with the token's timestamps.
pub proof fn lemma_projection_recovers_subject(id: i32, days: usize, now: usize)
    ensures
        JwtGuard::from_claims_spec(crate::jwt::claims_model_for(id as int, days, now)) == Some(
            JwtGuard { sub: id, iat: now, exp: (now + days * 86_400_000) as usize },
        ),
{
    crate::numeric::lemma_parse_i32_round_trip(id);
}

/// Resolves one request: the single shared verification path behind every
/// identity shape that implements `FromClaims`.
pub fn authenticate<T: FromClaims>(
    authorization: Option<&str>,
    secret: &[u8],
    now: usize,
) -> (r: GuardOutcome<T>)
    ensures
        match authorization {
            None => r == guard_spec::<T>(None, secret@, now),
            Some(h) => r == guard_spec::<T>(Some(encode_utf8(h@)), secret@, now),
        },
{
    match authorization {
        None => GuardOutcome::Forward(STATUS_UNAUTHORIZED),
        Some(h) => {
            let bytes = h.as_bytes_vec();
            let token = strip_bearer_from(&bytes, 0);
            proof {
                assert(bytes@.skip(0) =~= bytes@);
            }
            match Jwt::decode_bytes(&token, secret, now) {
                Err(_) => GuardOutcome::Error(STATUS_UNAUTHORIZED, TokenError::InvalidKey),
                Ok(claims) => match T::from_claims(claims) {
                    Err(_) => GuardOutcome::Error(STATUS_UNAUTHORIZED, TokenError::InvalidKey),
                    Ok(identity) => GuardOutcome::Success(identity),
                },
            }
        },
    }
}

} // verus!
