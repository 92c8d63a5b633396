//! The token codec: claims, signing into a compact three-segment token, and
//! verification with classified failures.

use vstd::prelude::*;
use vstd::utf8::{valid_utf8, encode_utf8, partial_valid_utf8, partial_valid_utf8_extend_ascii_block,
    is_leading_byte_width_1};
use vstd::string::StrSliceExecFns;
use vstd::string::StringSliceAdditionalSpecFns;
use crate::base64url::{b64_of, b64_parse, b64_encode, b64_decode, is_b64_byte,
    lemma_b64_of_alphabet, lemma_b64_byte_facts, lemma_b64_round_trip};
use crate::errors::CustomError;
use crate::numeric::{dec_of_int, dec_of, is_digit, lemma_dec_of_digits, format_i32};
use crate::payload::{ClaimsModel, payload_of, parse_payload, payload_bytes, read_payload,
    lemma_parse_payload_round_trip, sub_wf};

verus! {

/// Base64 of the HMAC-SHA256 tag over `message`, keyed by `secret`: the
/// signature segment of a token. The outside crate computes it; it is a
/// function of message and secret alone.
pub uninterp spec fn hmac_b64_of(message: Seq<u8>, secret: Seq<u8>) -> Seq<u8>;

/// True when the signature segment for `message` under `secret` stays
/// inside the URL-safe base64 alphabet, as every real signature does.
pub open spec fn sig_is_b64(message: Seq<u8>, secret: Seq<u8>) -> bool {
    forall|i: int|
        0 <= i < hmac_b64_of(message, secret).len() ==> is_b64_byte(
            #[trigger] hmac_b64_of(message, secret)[i],
        )
}

/// Relies on jsonwebtoken's `crypto::sign` with `Algorithm::HS256`: for an
/// HMAC secret it always returns `Ok` of the URL-safe base64 (no padding)
/// of the HMAC-SHA256 tag, a pure function of message and key.
#[verifier::external_body]
fn hmac_sha256_b64(message: &Vec<u8>, secret: &[u8]) -> (r: Vec<u8>)
    ensures
        r@ == hmac_b64_of(message@, secret@),
        forall|i: int| 0 <= i < r@.len() ==> is_b64_byte(#[trigger] r@[i]),
{
    let key = jsonwebtoken::EncodingKey::from_secret(secret);
    match jsonwebtoken::crypto::sign(message, &key, jsonwebtoken::Algorithm::HS256) {
        Ok(signature) => signature.into_bytes(),
        Err(_) => Vec::new(),
    }
}

/// Relies on `String::from_utf8`: it succeeds exactly on valid UTF-8 and
/// returns the string whose encoding is those bytes.
#[verifier::external_body]
fn utf8_to_string(v: Vec<u8>) -> (r: Option<String>)
    ensures
        r is Some <==> valid_utf8(v@),
        match r {
            Some(s) => encode_utf8(s@) == v@,
            None => true,
        },
{
    match String::from_utf8(v) {
        Ok(s) => Some(s),
        Err(_) => None,
    }
}

/// A sequence of ASCII bytes is valid UTF-8.
pub proof fn lemma_ascii_valid_utf8(b: Seq<u8>)
    requires
        forall|i: int| 0 <= i < b.len() ==> #[trigger] b[i] < 128,
    ensures
        valid_utf8(b),
{
    assert forall|i: int| 0 <= i < b.len() implies is_leading_byte_width_1(#[trigger] b[i]) by {
        let x = b[i];
        assert(x & 0x80 == 0) by (bit_vector)
            requires
                x < 128,
        ;
    }
    assert(b.subrange(0, 0) =~= Seq::<u8>::empty());
    assert(partial_valid_utf8(b, 0));
    partial_valid_utf8_extend_ascii_block(b, 0, b.len() as int);
    assert(b.subrange(0, b.len() as int) =~= b);
}

/// The signed payload: subject text, issued-at and expiry, in seconds since
/// the epoch as the surrounding system reads its clock.
#[derive(Debug)]
pub struct Claims {
    pub sub: String,
    pub iat: usize,
    pub exp: usize,
}

impl Claims {
    /// The mathematical content: the UTF-8 bytes of the subject and the
    /// two timestamps.
    pub open spec fn model(&self) -> ClaimsModel {
        ClaimsModel { sub: encode_utf8(self.sub@), iat: self.iat, exp: self.exp }
    }

    /// A claims value whose subject can be written between quotes without
    /// escaping.
    pub open spec fn wf(&self) -> bool {
        self.model().wf()
    }

    /// Claims for a subject id and a duration policy, measured from `now`:
    /// the subject is the decimal form of the id, and the expiry scales the
    /// day count by the millisecond constant the policy was written with.
    pub fn from(id: i32, days: usize, now: usize) -> (r: Claims)
        requires
            now + days * 86_400_000 <= usize::MAX,
        ensures
            r.model() == claims_model_for(id as int, days, now),
            r.wf(),
    {
        let sub_bytes = format_i32(id);
        proof {
            lemma_dec_bytes_wf(id as int);
        }
        let sub = match utf8_to_string(sub_bytes) {
            Some(s) => s,
            None => {
                proof {
                    assert(false);
                }
                String::new()
            },
        };
        let exp_date = now + days * 86_400_000;
        Claims { sub, iat: now, exp: exp_date }
    }
}

impl PartialEq for Claims {
    fn eq(&self, other: &Claims) -> (r: bool) {
        self.sub == other.sub && self.iat == other.iat && self.exp == other.exp
    }
}

impl vstd::std_specs::cmp::PartialEqSpecImpl for Claims {
    open spec fn obeys_eq_spec() -> bool {
        true
    }

    open spec fn eq_spec(&self, other: &Claims) -> bool {
        self.sub@ == other.sub@ && self.iat == other.iat && self.exp == other.exp
    }
}

/// The claims that issuance builds for a subject id, a day policy and a
/// clock reading.
pub open spec fn claims_model_for(id: int, days: usize, now: usize) -> ClaimsModel {
    ClaimsModel {
        sub: dec_of_int(id),
        iat: now,
        exp: (now + days * 86_400_000) as usize,
    }
}

/// Decimal text is ASCII and free of quote and backslash.
pub proof fn lemma_dec_bytes_wf(id: int)
    ensures
        sub_wf(dec_of_int(id)),
        forall|i: int| 0 <= i < dec_of_int(id).len() ==> #[trigger] dec_of_int(id)[i] < 128,
        valid_utf8(dec_of_int(id)),
{
    let s = dec_of_int(id);
    if id < 0 {
        lemma_dec_of_digits((-id) as nat);
        assert forall|i: int| 0 <= i < s.len() implies #[trigger] s[i] != 0x22 && s[i] != 0x5c
            && s[i] < 128 by {
            if i > 0 {
                assert(s[i] == dec_of((-id) as nat)[i - 1]);
                assert(is_digit(s[i]));
            }
        }
    } else {
        lemma_dec_of_digits(id as nat);
        assert forall|i: int| 0 <= i < s.len() implies #[trigger] s[i] != 0x22 && s[i] != 0x5c
            && s[i] < 128 by {
            assert(is_digit(s[i]));
        }
    }
    lemma_ascii_valid_utf8(s);
}

/// The bytes of the fixed header `{"typ":"JWT","alg":"HS256"}`.
pub open spec fn header_json() -> Seq<u8> {
    seq![
        0x7b, 0x22, 0x74, 0x79, 0x70, 0x22, 0x3a, 0x22, 0x4a, 0x57, 0x54, 0x22, 0x2c, 0x22, 0x61,
        0x6c, 0x67, 0x22, 0x3a, 0x22, 0x48, 0x53, 0x32, 0x35, 0x36, 0x22, 0x7d,
    ]
}

/// The first segment of every token: the base64 of the fixed header.
pub open spec fn header_segment() -> Seq<u8> {
    b64_of(header_json())
}

fn header_segment_bytes() -> (r: Vec<u8>)
    ensures
        r@ == header_segment(),
{
    let mut h: Vec<u8> = Vec::new();
    h.push(0x7b);
    h.push(0x22);
    h.push(0x74);
    h.push(0x79);
    h.push(0x70);
    h.push(0x22);
    h.push(0x3a);
    h.push(0x22);
    h.push(0x4a);
    h.push(0x57);
    h.push(0x54);
    h.push(0x22);
    h.push(0x2c);
    h.push(0x22);
    h.push(0x61);
    h.push(0x6c);
    h.push(0x67);
    h.push(0x22);
    h.push(0x3a);
    h.push(0x22);
    h.push(0x48);
    h.push(0x53);
    h.push(0x32);
    h.push(0x35);
    h.push(0x36);
    h.push(0x22);
    h.push(0x7d);
    proof {
        assert(h@ =~= header_json());
    }
    b64_encode(&h)
}

/// What a token signs: header segment, dot, payload segment.
pub open spec fn signing_input_of(m: ClaimsModel) -> Seq<u8> {
    header_segment() + seq![0x2e] + b64_of(payload_of(m))
}

/// The whole token: signing input, dot, signature segment.
pub open spec fn token_of(m: ClaimsModel, secret: Seq<u8>) -> Seq<u8> {
    signing_input_of(m) + seq![0x2e] + hmac_b64_of(signing_input_of(m), secret)
}

/// Index of the first dot, if any.
pub open spec fn first_dot(s: Seq<u8>) -> Option<int>
    decreases s.len(),
{
    if s.len() == 0 {
        None
    } else if s[0] == 0x2e {
        Some(0int)
    } else {
        match first_dot(s.drop_first()) {
            Some(i) => Some(i + 1),
            None => None,
        }
    }
}

/// Where the dot scan lands when the bytes before `k` are dot-free.
pub proof fn lemma_first_dot_at(c: Seq<u8>, k: int)
    requires
        0 <= k <= c.len(),
        forall|t: int| 0 <= t < k ==> #[trigger] c[t] != 0x2e,
        k == c.len() || c[k] == 0x2e,
    ensures
        k < c.len() ==> first_dot(c) == Some(k),
        k == c.len() ==> first_dot(c) is None,
    decreases k,
{
    if k == 0 {
    } else {
        let d = c.drop_first();
        assert(forall|t: int| 0 <= t < k - 1 ==> #[trigger] d[t] != 0x2e);
        lemma_first_dot_at(d, k - 1);
    }
}

/// The three dot-separated segments of a token that has exactly two dots.
pub open spec fn split3(b: Seq<u8>) -> Option<(Seq<u8>, Seq<u8>, Seq<u8>)> {
    match first_dot(b) {
        None => None,
        Some(i) => {
            let rest = b.skip(i + 1);
            match first_dot(rest) {
                None => None,
                Some(j) => {
                    let sig = rest.skip(j + 1);
                    match first_dot(sig) {
                        Some(_) => None,
                        None => Some((b.take(i), rest.take(j), sig)),
                    }
                },
            }
        },
    }
}

/// Why a token was refused: `Invalid` covers structure, signature and
/// expiry; `Other` is a failure after the signature had already matched.
pub ghost enum DecodeFailure {
    Invalid,
    Other,
}

/// Everything verification decides, in order: structure, fixed header,
/// signature over the first two segments, canonical payload encoding,
/// payload grammar, subject UTF-8, and expiry against `now`.
pub open spec fn decode_bytes_spec(b: Seq<u8>, secret: Seq<u8>, now: usize) -> Result<
    ClaimsModel,
    DecodeFailure,
> {
    match split3(b) {
        None => Err(DecodeFailure::Invalid),
        Some((h, p, sig)) => {
            if h != header_segment() {
                Err(DecodeFailure::Invalid)
            } else if sig != hmac_b64_of(h + seq![0x2e] + p, secret) {
                Err(DecodeFailure::Invalid)
            } else {
                match b64_parse(p) {
                    None => Err(DecodeFailure::Other),
                    Some(pb) => match parse_payload(pb) {
                        None => Err(DecodeFailure::Other),
                        Some(m) => if !valid_utf8(m.sub) {
                            Err(DecodeFailure::Other)
                        } else if now < m.exp {
                            Ok(m)
                        } else {
                            Err(DecodeFailure::Invalid)
                        },
                    },
                }
            }
        },
    }
}

/// A token pair for one subject: the short-lived access token and the
/// long-lived refresh token, both signed over the same subject.
#[derive(Debug)]
pub struct Jwt {
    pub access_token: String,
    pub refresh_token: String,
    pub id: i32,
}

/// True when `v` equals `w` on the index range `[from, to)`.
fn eq_range(v: &Vec<u8>, from: usize, to: usize, w: &Vec<u8>) -> (r: bool)
    requires
        from <= to <= v@.len(),
    ensures
        r == (v@.subrange(from as int, to as int) == w@),
{
    if to - from != w.len() {
        proof {
            assert(v@.subrange(from as int, to as int).len() != w@.len());
        }
        return false;
    }
    let mut k: usize = 0;
    while k < w.len()
        invariant
            from <= to <= v@.len(),
            to - from == w@.len(),
            k <= w@.len(),
            forall|t: int| 0 <= t < k ==> v@.subrange(from as int, to as int)[t] == #[trigger] w@[t],
        decreases w@.len() - k,
    {
        if v[from + k] != w[k] {
            proof {
                assert(v@.subrange(from as int, to as int)[k as int] == v@[from + k]);
            }
            return false;
        }
        proof {
            assert(v@.subrange(from as int, to as int)[k as int] == v@[from + k]);
        }
        k = k + 1;
    }
    proof {
        assert(v@.subrange(from as int, to as int) =~= w@);
    }
    true
}

/// The bytes of `v` on the index range `[from, to)`.
pub(crate) fn copy_range(v: &Vec<u8>, from: usize, to: usize) -> (r: Vec<u8>)
    requires
        from <= to <= v@.len(),
    ensures
        r@ == v@.subrange(from as int, to as int),
{
    let mut r: Vec<u8> = Vec::new();
    let mut k = from;
    while k < to
        invariant
            from <= k <= to <= v@.len(),
            r@ == v@.subrange(from as int, k as int),
        decreases to - k,
    {
        r.push(v[k]);
        proof {
            assert(v@.subrange(from as int, k as int + 1) =~= v@.subrange(from as int, k as int)
                .push(v@[k as int]));
        }
        k = k + 1;
    }
    r
}

/// Index of the first dot at or after `from`, if any.
fn find_dot(v: &Vec<u8>, from: usize) -> (r: Option<usize>)
    requires
        from <= v@.len(),
    ensures
        match r {
            Some(i) => from <= i < v@.len() && v@[i as int] == 0x2e && forall|t: int|
                from <= t < i ==> #[trigger] v@[t] != 0x2e,
            None => forall|t: int| from <= t < v@.len() ==> #[trigger] v@[t] != 0x2e,
        },
{
    let mut k = from;
    while k < v.len() && v[k] != 0x2e
        invariant
            from <= k <= v@.len(),
            forall|t: int| from <= t < k ==> #[trigger] v@[t] != 0x2e,
        decreases v@.len() - k,
    {
        k = k + 1;
    }
    if k == v.len() {
        None
    } else {
        Some(k)
    }
}

impl Jwt {
    /// Issues the token pair for a subject id: an access token under the
    /// one-day policy and a refresh token under the thirty-day policy, both
    /// signed with the same secret at the same clock reading. Signing
    /// cannot fail; the `Result` shape is what callers consume.
    pub fn sign(id: i32, secret: &[u8], now: usize) -> (r: Result<Jwt, CustomError>)
        requires
            now + 30 * 86_400_000 <= usize::MAX,
        ensures
            r matches Ok(j) && j.id == id && encode_utf8(j.access_token@) == token_of(
                claims_model_for(id as int, 1, now),
                secret@,
            ) && encode_utf8(j.refresh_token@) == token_of(
                claims_model_for(id as int, 30, now),
                secret@,
            ),
    {
        let jwt = Jwt { access_token: String::new(), refresh_token: String::new(), id };
        jwt.encode(secret, now)
    }

    /// Builds both tokens for `self.id`.
    fn encode(&self, secret: &[u8], now: usize) -> (r: Result<Jwt, CustomError>)
        requires
            now + 30 * 86_400_000 <= usize::MAX,
        ensures
            r matches Ok(j) && j.id == self.id && encode_utf8(j.access_token@) == token_of(
                claims_model_for(self.id as int, 1, now),
                secret@,
            ) && encode_utf8(j.refresh_token@) == token_of(
                claims_model_for(self.id as int, 30, now),
                secret@,
            ),
    {
        let access_token_claims = Claims::from(self.id, 1, now);
        let access_token = Self::sign_claims(&access_token_claims, secret);
        let refresh_token_claims = Claims::from(self.id, 30, now);
        let refresh_token = Self::sign_claims(&refresh_token_claims, secret);
        Ok(Jwt { access_token, refresh_token, id: self.id })
    }

    /// Signs one claims value into its token text: the codec's signing
    /// half, which issuance applies once per policy.
    pub fn sign_claims(claims: &Claims, secret: &[u8]) -> (r: String)
        requires
            claims.wf(),
        ensures
            encode_utf8(r@) == token_of(claims.model(), secret@),
    {
        let sub_bytes = claims.sub.as_str().as_bytes_vec();
        let payload = payload_bytes(&sub_bytes, claims.iat, claims.exp);
        let payload_seg = b64_encode(&payload);
        let mut msg = header_segment_bytes();
        msg.push(0x2e);
        let mut payload_seg_tail = payload_seg;
        msg.append(&mut payload_seg_tail);
        proof {
            assert(msg@ =~= signing_input_of(claims.model()));
        }
        let sig = hmac_sha256_b64(&msg, secret);
        let mut token = msg;
        token.push(0x2e);
        let mut sig_tail = sig;
        token.append(&mut sig_tail);
        proof {
            assert(token@ =~= token_of(claims.model(), secret@));
            lemma_token_bytes_ascii(claims.model(), secret@);
        }
        match utf8_to_string(token) {
            Some(s) => s,
            None => {
                proof {
                    assert(false);
                }
                String::new()
            },
        }
    }

    /// Verifies a token against a secret at clock reading `now` and
    /// classifies every failure: `Unauthorized` for anything that is not a
    /// valid unexpired signed token, `Internal` for a failure after the
    /// signature matched.
    pub fn decode(token: String, secret: &[u8], now: usize) -> (r: Result<Claims, CustomError>)
        ensures
            decode_result_matches(encode_utf8(token@), secret@, now, r),
    {
        let bytes = token.as_str().as_bytes_vec();
        Self::decode_bytes(&bytes, secret, now)
    }

    /// Verification on raw bytes; the guard uses this after stripping the
    /// bearer prefix.
    pub fn decode_bytes(token: &Vec<u8>, secret: &[u8], now: usize) -> (r: Result<
        Claims,
        CustomError,
    >)
        ensures
            decode_result_matches(token@, secret@, now, r),
    {
        let n = token.len();
        let i = match find_dot(token, 0) {
            Some(i) => i,
            None => {
                proof {
                    lemma_first_dot_at(token@, n as int);
                }
                return Err(CustomError::Unauthorized(String::from_str("Token is invalid")));
            },
        };
        proof {
            lemma_first_dot_at(token@, i as int);
        }
        let ghost rest = token@.skip(i as int + 1);
        let j = match find_dot(token, i + 1) {
            Some(j) => j,
            None => {
                proof {
                    assert(forall|t: int|
                        0 <= t < rest.len() ==> #[trigger] rest[t] == token@[t + i + 1]);
                    lemma_first_dot_at(rest, rest.len() as int);
                }
                return Err(CustomError::Unauthorized(String::from_str("Token is invalid")));
            },
        };
        proof {
            assert(forall|t: int| 0 <= t < rest.len() ==> #[trigger] rest[t] == token@[t + i + 1]);
            lemma_first_dot_at(rest, j - i - 1);
        }
        let ghost sig_seq = rest.skip(j - i - 1 + 1);
        proof {
            assert(forall|t: int|
                0 <= t < sig_seq.len() ==> #[trigger] sig_seq[t] == token@[t + j + 1]);
        }
        match find_dot(token, j + 1) {
            Some(k) => {
                proof {
                    lemma_first_dot_at(sig_seq, k - j - 1);
                }
                return Err(CustomError::Unauthorized(String::from_str("Token is invalid")));
            },
            None => {
                proof {
                    lemma_first_dot_at(sig_seq, sig_seq.len() as int);
                }
            },
        }
        proof {
            assert(split3(token@) == Some(
                (token@.take(i as int), rest.take(j - i - 1), sig_seq),
            ));
            assert(token@.take(i as int) =~= token@.subrange(0, i as int));
            assert(rest.take(j - i - 1) =~= token@.subrange(i as int + 1, j as int));
            assert(sig_seq =~= token@.subrange(j as int + 1, n as int));
        }
        let expected_header = header_segment_bytes();
        if !eq_range(token, 0, i, &expected_header) {
            return Err(CustomError::Unauthorized(String::from_str("Token is invalid")));
        }
        let msg = copy_range(token, 0, j);
        proof {
            assert(msg@ =~= token@.subrange(0, i as int) + seq![0x2eu8] + token@.subrange(
                i as int + 1,
                j as int,
            ));
        }
        let sig = hmac_sha256_b64(&msg, secret);
        if !eq_range(token, j + 1, n, &sig) {
            return Err(CustomError::Unauthorized(String::from_str("Token is invalid")));
        }
        let payload_seg = copy_range(token, i + 1, j);
        let payload = match b64_decode(&payload_seg) {
            Some(p) => p,
            None => {
                return Err(CustomError::Internal(String::from_str("Some other error occurred")));
            },
        };
        let (sub_bytes, iat, exp) = match read_payload(&payload) {
            Some(p) => p,
            None => {
                return Err(CustomError::Internal(String::from_str("Some other error occurred")));
            },
        };
        let ghost sub_seq = sub_bytes@;
        let sub = match utf8_to_string(sub_bytes) {
            Some(s) => s,
            None => {
                return Err(CustomError::Internal(String::from_str("Some other error occurred")));
            },
        };
        if now < exp {
            let c = Claims { sub, iat, exp };
            proof {
                assert(c.model() =~= ClaimsModel { sub: sub_seq, iat, exp });
            }
            Ok(c)
        } else {
            Err(CustomError::Unauthorized(String::from_str("Token is invalid")))
        }
    }
}

/// How an executable verification result mirrors the specification: the
/// claims model on success, the two classifications with their fixed
/// messages on failure.
pub open spec fn decode_result_matches(
    b: Seq<u8>,
    secret: Seq<u8>,
    now: usize,
    r: Result<Claims, CustomError>,
) -> bool {
    match decode_bytes_spec(b, secret, now) {
        Ok(m) => r matches Ok(c) && c.model() == m,
        Err(DecodeFailure::Invalid) => r matches Err(e) && e matches CustomError::Unauthorized(msg)
            && msg@ == "Token is invalid"@,
        Err(DecodeFailure::Other) => r matches Err(e) && e matches CustomError::Internal(msg)
            && msg@ == "Some other error occurred"@,
    }
}

/// Every byte of a token is ASCII: both written segments are base64, the
/// signature segment is base64, and the separators are dots.
pub proof fn lemma_token_bytes_ascii(m: ClaimsModel, secret: Seq<u8>)
    requires
        sig_is_b64(signing_input_of(m), secret),
    ensures
        forall|i: int| 0 <= i < token_of(m, secret).len() ==> #[trigger] token_of(m, secret)[i]
            < 128,
        valid_utf8(token_of(m, secret)),
{
    let h = header_segment();
    let p = b64_of(payload_of(m));
    let s = hmac_b64_of(signing_input_of(m), secret);
    let t = token_of(m, secret);
    lemma_b64_of_alphabet(header_json());
    lemma_b64_of_alphabet(payload_of(m));
    assert forall|i: int| 0 <= i < t.len() implies #[trigger] t[i] < 128 by {
        assert(t.len() == h.len() + 1 + p.len() + 1 + s.len());
        if i < h.len() {
            assert(t[i] == h[i]);
            lemma_b64_byte_facts(h[i]);
        } else if i == h.len() {
            assert(t[i] == 0x2e);
        } else if i < h.len() + 1 + p.len() {
            assert(t[i] == p[i - h.len() - 1]);
            lemma_b64_byte_facts(p[i - h.len() - 1]);
        } else if i == h.len() + 1 + p.len() {
            assert(t[i] == 0x2e);
        } else {
            assert(t[i] == s[i - h.len() - 1 - p.len() - 1]);
            lemma_b64_byte_facts(s[i - h.len() - 1 - p.len() - 1]);
        }
    }
    lemma_ascii_valid_utf8(t);
}

/// A signed token splits back into exactly its three segments: the base64
/// segments contain no dot, and the separators are the only dots.
pub proof fn lemma_split3_of_token(m: ClaimsModel, secret: Seq<u8>)
    requires
        sig_is_b64(signing_input_of(m), secret),
    ensures
        split3(token_of(m, secret)) == Some(
            (header_segment(), b64_of(payload_of(m)), hmac_b64_of(signing_input_of(m), secret)),
        ),
{
    let h = header_segment();
    let p = b64_of(payload_of(m));
    let msg = signing_input_of(m);
    let s = hmac_b64_of(msg, secret);
    let t = token_of(m, secret);
    lemma_b64_of_alphabet(header_json());
    lemma_b64_of_alphabet(payload_of(m));
    assert(t.len() == h.len() + 1 + p.len() + 1 + s.len());
    assert(forall|x: int| 0 <= x < h.len() ==> #[trigger] t[x] == h[x]);
    assert forall|x: int| 0 <= x < h.len() implies #[trigger] t[x] != 0x2e by {
        lemma_b64_byte_facts(h[x]);
    }
    assert(t[h.len() as int] == 0x2e);
    lemma_first_dot_at(t, h.len() as int);
    let rest = t.skip(h.len() as int + 1);
    assert(rest =~= p + seq![0x2eu8] + s);
    assert forall|x: int| 0 <= x < p.len() implies #[trigger] rest[x] != 0x2e by {
        assert(rest[x] == p[x]);
        lemma_b64_byte_facts(p[x]);
    }
    assert(rest[p.len() as int] == 0x2e);
    lemma_first_dot_at(rest, p.len() as int);
    let sig = rest.skip(p.len() as int + 1);
    assert(sig =~= s);
    assert forall|x: int| 0 <= x < sig.len() implies #[trigger] sig[x] != 0x2e by {
        assert(sig[x] == s[x]);
        lemma_b64_byte_facts(s[x]);
    }
    lemma_first_dot_at(sig, sig.len() as int);
    assert(t.take(h.len() as int) =~= h);
    assert(rest.take(p.len() as int) =~= p);
}

/// Round trip: a token signed over well-formed claims verifies, within its
/// validity window and under the signing secret, back to those claims.
pub proof fn lemma_sign_verify_round_trip(m: ClaimsModel, secret: Seq<u8>, now: usize)
    requires
        m.wf(),
        valid_utf8(m.sub),
        now < m.exp,
        sig_is_b64(signing_input_of(m), secret),
    ensures
        decode_bytes_spec(token_of(m, secret), secret, now) == Ok::<ClaimsModel, DecodeFailure>(m),
{
    lemma_split3_of_token(m, secret);
    assert(header_segment() + seq![0x2eu8] + b64_of(payload_of(m)) =~= signing_input_of(m));
    lemma_b64_round_trip(payload_of(m));
    lemma_parse_payload_round_trip(m);
}

/// A subject's issued token verifies to claims whose subject is exactly
/// the decimal text of the subject id.
pub proof fn lemma_issue_verify_subject(id: i32, days: usize, now: usize, secret: Seq<u8>, at: usize)
    requires
        at < claims_model_for(id as int, days, now).exp,
        sig_is_b64(signing_input_of(claims_model_for(id as int, days, now)), secret),
    ensures
        decode_bytes_spec(token_of(claims_model_for(id as int, days, now), secret), secret, at)
            == Ok::<ClaimsModel, DecodeFailure>(claims_model_for(id as int, days, now)),
        claims_model_for(id as int, days, now).sub == dec_of_int(id as int),
{
    let m = claims_model_for(id as int, days, now);
    lemma_dec_bytes_wf(id as int);
    lemma_sign_verify_round_trip(m, secret, at);
}

/// A token whose recomputed signature under the verifying secret differs
/// from its signature segment is always classified `Unauthorized`.
pub proof fn lemma_verify_other_secret(m: ClaimsModel, s1: Seq<u8>, s2: Seq<u8>, now: usize)
    requires
        hmac_b64_of(signing_input_of(m), s1) != hmac_b64_of(signing_input_of(m), s2),
        sig_is_b64(signing_input_of(m), s1),
    ensures
        decode_bytes_spec(token_of(m, s1), s2, now) == Err::<ClaimsModel, DecodeFailure>(
            DecodeFailure::Invalid,
        ),
{
    lemma_split3_of_token(m, s1);
    assert(header_segment() + seq![0x2eu8] + b64_of(payload_of(m)) =~= signing_input_of(m));
}

/// The `Internal` classification can only follow a token whose signature
/// segment already matched the recomputed signature: a corrupted token that
/// breaks the signature is `Unauthorized`, never `Internal`.
pub proof fn lemma_internal_needs_valid_signature(b: Seq<u8>, secret: Seq<u8>, now: usize)
    ensures
        decode_bytes_spec(b, secret, now) == Err::<ClaimsModel, DecodeFailure>(DecodeFailure::Other)
            ==> (split3(b) matches Some(parts) && parts.2 == hmac_b64_of(
            parts.0 + seq![0x2eu8] + parts.1,
            secret,
        )),
{
}

/// Verification is a function of token, secret and clock alone: two
/// verifications of the same valid token return the same claims.
pub proof fn lemma_verify_idempotent(
    b: Seq<u8>,
    secret: Seq<u8>,
    now: usize,
    c1: Claims,
    c2: Claims,
)
    requires
        decode_bytes_spec(b, secret, now) == Ok::<ClaimsModel, DecodeFailure>(c1.model()),
        decode_bytes_spec(b, secret, now) == Ok::<ClaimsModel, DecodeFailure>(c2.model()),
    ensures
        c1.model() == c2.model(),
{
}

} // verus!
