//! URL-safe base64 without padding: how the token's three segments encode
//! their bytes.

use vstd::prelude::*;

verus! {

/// The URL-safe base64 alphabet byte for a 6-bit value:
/// `A`-`Z`, `a`-`z`, `0`-`9`, `-`, `_`.
pub open spec fn enc6(n: u8) -> u8
    recommends
        n < 64,
{
    if n < 26 {
        (0x41 + n) as u8
    } else if n < 52 {
        (0x61 + n - 26) as u8
    } else if n < 62 {
        (0x30 + n - 52) as u8
    } else if n == 62 {
        0x2d
    } else {
        0x5f
    }
}

/// The 6-bit value of an alphabet byte, `None` outside the alphabet.
pub open spec fn dec6(b: u8) -> Option<u8> {
    if 0x41 <= b <= 0x5a {
        Some((b - 0x41) as u8)
    } else if 0x61 <= b <= 0x7a {
        Some((b - 0x61 + 26) as u8)
    } else if 0x30 <= b <= 0x39 {
        Some((b - 0x30 + 52) as u8)
    } else if b == 0x2d {
        Some(62u8)
    } else if b == 0x5f {
        Some(63u8)
    } else {
        None
    }
}

/// True of bytes of the URL-safe base64 alphabet.
pub open spec fn is_b64_byte(b: u8) -> bool {
    dec6(b) is Some
}

/// The alphabet is ASCII and contains no dot, so segments cannot collide
/// with the separators of a token.
pub proof fn lemma_b64_byte_facts(b: u8)
    ensures
        is_b64_byte(b) ==> b != 0x2e && b < 128,
{
}

pub proof fn lemma_enc6_dec6(n: u8)
    requires
        n < 64,
    ensures
        dec6(enc6(n)) == Some(n),
        is_b64_byte(enc6(n)),
{
}

/// URL-safe base64 without padding, three input bytes to four alphabet
/// bytes, with the two- and three-byte tails of RFC 4648.
pub open spec fn b64_of(bs: Seq<u8>) -> Seq<u8>
    decreases bs.len(),
{
    if bs.len() == 0 {
        Seq::empty()
    } else if bs.len() == 1 {
        let b0 = bs[0];
        seq![enc6(b0 >> 2), enc6((b0 & 3) << 4)]
    } else if bs.len() == 2 {
        let b0 = bs[0];
        let b1 = bs[1];
        seq![enc6(b0 >> 2), enc6(((b0 & 3) << 4) | (b1 >> 4)), enc6((b1 & 15) << 2)]
    } else {
        let b0 = bs[0];
        let b1 = bs[1];
        let b2 = bs[2];
        seq![
            enc6(b0 >> 2),
            enc6(((b0 & 3) << 4) | (b1 >> 4)),
            enc6(((b1 & 15) << 2) | (b2 >> 6)),
            enc6(b2 & 63),
        ] + b64_of(bs.skip(3))
    }
}

/// The strict inverse: only canonical encodings are accepted, with the
/// spare bits of a tail block required to be zero.
pub open spec fn b64_parse(s: Seq<u8>) -> Option<Seq<u8>>
    decreases s.len(),
{
    if s.len() == 0 {
        Some(Seq::empty())
    } else if s.len() == 1 {
        None
    } else if s.len() == 2 {
        match (dec6(s[0]), dec6(s[1])) {
            (Some(c0), Some(c1)) => if c1 & 15 == 0 {
                Some(seq![(c0 << 2) | (c1 >> 4)])
            } else {
                None
            },
            _ => None,
        }
    } else if s.len() == 3 {
        match (dec6(s[0]), dec6(s[1]), dec6(s[2])) {
            (Some(c0), Some(c1), Some(c2)) => if c2 & 3 == 0 {
                Some(seq![(c0 << 2) | (c1 >> 4), ((c1 & 15) << 4) | (c2 >> 2)])
            } else {
                None
            },
            _ => None,
        }
    } else {
        match (dec6(s[0]), dec6(s[1]), dec6(s[2]), dec6(s[3]), b64_parse(s.skip(4))) {
            (Some(c0), Some(c1), Some(c2), Some(c3), Some(rest)) => Some(
                seq![(c0 << 2) | (c1 >> 4), ((c1 & 15) << 4) | (c2 >> 2), ((c2 & 3) << 6) | c3]
                    + rest,
            ),
            _ => None,
        }
    }
}

/// Every byte of an encoding is an alphabet byte.
pub proof fn lemma_b64_of_alphabet(bs: Seq<u8>)
    ensures
        forall|i: int| 0 <= i < b64_of(bs).len() ==> is_b64_byte(#[trigger] b64_of(bs)[i]),
    decreases bs.len(),
{
    if bs.len() == 0 {
    } else if bs.len() == 1 {
        let b0 = bs[0];
        assert(b0 >> 2 < 64 && (b0 & 3) << 4 < 64) by (bit_vector);
        lemma_enc6_dec6(b0 >> 2);
        lemma_enc6_dec6((b0 & 3) << 4);
    } else if bs.len() == 2 {
        let b0 = bs[0];
        let b1 = bs[1];
        assert(b0 >> 2 < 64 && (((b0 & 3) << 4) | (b1 >> 4)) < 64 && (b1 & 15) << 2 < 64)
            by (bit_vector);
        lemma_enc6_dec6(b0 >> 2);
        lemma_enc6_dec6(((b0 & 3) << 4) | (b1 >> 4));
        lemma_enc6_dec6((b1 & 15) << 2);
    } else {
        let b0 = bs[0];
        let b1 = bs[1];
        let b2 = bs[2];
        assert(b0 >> 2 < 64 && (((b0 & 3) << 4) | (b1 >> 4)) < 64 && (((b1 & 15) << 2) | (b2
            >> 6)) < 64 && b2 & 63 < 64) by (bit_vector);
        lemma_enc6_dec6(b0 >> 2);
        lemma_enc6_dec6(((b0 & 3) << 4) | (b1 >> 4));
        lemma_enc6_dec6(((b1 & 15) << 2) | (b2 >> 6));
        lemma_enc6_dec6(b2 & 63);
        lemma_b64_of_alphabet(bs.skip(3));
        let s = b64_of(bs);
        assert forall|i: int| 0 <= i < s.len() implies is_b64_byte(#[trigger] s[i]) by {
            if i >= 4 {
                assert(s[i] == b64_of(bs.skip(3))[i - 4]);
            }
        }
    }
}

/// Decoding inverts encoding exactly.
pub proof fn lemma_b64_round_trip(bs: Seq<u8>)
    ensures
        b64_parse(b64_of(bs)) == Some(bs),
    decreases bs.len(),
{
    if bs.len() == 0 {
        assert(bs =~= Seq::<u8>::empty());
    } else if bs.len() == 1 {
        let b0 = bs[0];
        assert(b0 >> 2 < 64 && (b0 & 3) << 4 < 64) by (bit_vector);
        lemma_enc6_dec6(b0 >> 2);
        lemma_enc6_dec6((b0 & 3) << 4);
        assert(((b0 & 3) << 4) & 15 == 0 && ((b0 >> 2) << 2) | (((b0 & 3) << 4) >> 4) == b0)
            by (bit_vector);
        assert(bs =~= seq![b0]);
    } else if bs.len() == 2 {
        let b0 = bs[0];
        let b1 = bs[1];
        let c1 = ((b0 & 3) << 4) | (b1 >> 4);
        assert(b0 >> 2 < 64 && c1 < 64 && (b1 & 15) << 2 < 64) by (bit_vector)
            requires
                c1 == ((b0 & 3) << 4) | (b1 >> 4),
        ;
        lemma_enc6_dec6(b0 >> 2);
        lemma_enc6_dec6(c1);
        lemma_enc6_dec6((b1 & 15) << 2);
        assert(((b1 & 15) << 2) & 3 == 0 && ((b0 >> 2) << 2) | (c1 >> 4) == b0 && ((c1 & 15) << 4)
            | (((b1 & 15) << 2) >> 2) == b1) by (bit_vector)
            requires
                c1 == ((b0 & 3) << 4) | (b1 >> 4),
        ;
        assert(bs =~= seq![b0, b1]);
    } else {
        let b0 = bs[0];
        let b1 = bs[1];
        let b2 = bs[2];
        let c0 = b0 >> 2;
        let c1 = ((b0 & 3) << 4) | (b1 >> 4);
        let c2 = ((b1 & 15) << 2) | (b2 >> 6);
        let c3 = b2 & 63;
        assert(c0 < 64 && c1 < 64 && c2 < 64 && c3 < 64) by (bit_vector)
            requires
                c0 == b0 >> 2 && c1 == ((b0 & 3) << 4) | (b1 >> 4) && c2 == ((b1 & 15) << 2) | (b2
                    >> 6) && c3 == b2 & 63,
        ;
        lemma_enc6_dec6(c0);
        lemma_enc6_dec6(c1);
        lemma_enc6_dec6(c2);
        lemma_enc6_dec6(c3);
        lemma_b64_round_trip(bs.skip(3));
        let s = b64_of(bs);
        assert(s.skip(4) =~= b64_of(bs.skip(3)));
        assert((c0 << 2) | (c1 >> 4) == b0 && ((c1 & 15) << 4) | (c2 >> 2) == b1 && ((c2 & 3) << 6)
            | c3 == b2) by (bit_vector)
            requires
                c0 == b0 >> 2 && c1 == ((b0 & 3) << 4) | (b1 >> 4) && c2 == ((b1 & 15) << 2) | (b2
                    >> 6) && c3 == b2 & 63,
        ;
        assert(seq![b0, b1, b2] + bs.skip(3) =~= bs);
    }
}

/// The alphabet byte for a 6-bit value.
fn enc6_exec(n: u8) -> (r: u8)
    requires
        n < 64,
    ensures
        r == enc6(n),
{
    if n < 26 {
        0x41 + n
    } else if n < 52 {
        0x61 + (n - 26)
    } else if n < 62 {
        0x30 + (n - 52)
    } else if n == 62 {
        0x2d
    } else {
        0x5f
    }
}

/// The 6-bit value of an alphabet byte.
fn dec6_exec(b: u8) -> (r: Option<u8>)
    ensures
        r == dec6(b),
{
    if 0x41 <= b && b <= 0x5a {
        Some(b - 0x41)
    } else if 0x61 <= b && b <= 0x7a {
        Some(b - 0x61 + 26)
    } else if 0x30 <= b && b <= 0x39 {
        Some(b - 0x30 + 52)
    } else if b == 0x2d {
        Some(62)
    } else if b == 0x5f {
        Some(63)
    } else {
        None
    }
}

/// Encodes the bytes of `v` from index `i` on.
fn b64_encode_from(v: &Vec<u8>, i: usize) -> (r: Vec<u8>)
    requires
        i <= v@.len(),
    ensures
        r@ == b64_of(v@.skip(i as int)),
    decreases v@.len() - i,
{
    let ghost s = v@.skip(i as int);
    let n = v.len() - i;
    if n == 0 {
        let r: Vec<u8> = Vec::new();
        proof {
            assert(r@ =~= b64_of(s));
        }
        r
    } else if n == 1 {
        let b0 = v[i];
        proof {
            assert(s[0] == v@[i as int]);
            assert(b0 >> 2 < 64 && (b0 & 3) << 4 < 64) by (bit_vector);
        }
        let mut r: Vec<u8> = Vec::new();
        r.push(enc6_exec(b0 >> 2));
        r.push(enc6_exec((b0 & 3) << 4));
        proof {
            assert(r@ =~= b64_of(s));
        }
        r
    } else if n == 2 {
        let b0 = v[i];
        let b1 = v[i + 1];
        proof {
            assert(s[0] == v@[i as int] && s[1] == v@[i as int + 1]);
            assert(b0 >> 2 < 64 && (((b0 & 3) << 4) | (b1 >> 4)) < 64 && (b1 & 15) << 2 < 64)
                by (bit_vector);
        }
        let mut r: Vec<u8> = Vec::new();
        r.push(enc6_exec(b0 >> 2));
        r.push(enc6_exec(((b0 & 3) << 4) | (b1 >> 4)));
        r.push(enc6_exec((b1 & 15) << 2));
        proof {
            assert(r@ =~= b64_of(s));
        }
        r
    } else {
        let b0 = v[i];
        let b1 = v[i + 1];
        let b2 = v[i + 2];
        proof {
            assert(s[0] == v@[i as int] && s[1] == v@[i as int + 1] && s[2] == v@[i as int + 2]);
            assert(b0 >> 2 < 64 && (((b0 & 3) << 4) | (b1 >> 4)) < 64 && (((b1 & 15) << 2) | (b2
                >> 6)) < 64 && b2 & 63 < 64) by (bit_vector);
        }
        let mut r: Vec<u8> = Vec::new();
        r.push(enc6_exec(b0 >> 2));
        r.push(enc6_exec(((b0 & 3) << 4) | (b1 >> 4)));
        r.push(enc6_exec(((b1 & 15) << 2) | (b2 >> 6)));
        r.push(enc6_exec(b2 & 63));
        let mut rest = b64_encode_from(v, i + 3);
        r.append(&mut rest);
        proof {
            assert(s.skip(3) =~= v@.skip(i as int + 3));
            assert(r@ =~= b64_of(s));
        }
        r
    }
}

/// Encodes `v` as a URL-safe base64 segment without padding.
pub fn b64_encode(v: &Vec<u8>) -> (r: Vec<u8>)
    ensures
        r@ == b64_of(v@),
{
    let r = b64_encode_from(v, 0);
    proof {
        assert(v@.skip(0) =~= v@);
    }
    r
}

/// Decodes the bytes of `v` from index `i` on; `None` for anything that is
/// not a canonical segment.
fn b64_decode_from(v: &Vec<u8>, i: usize) -> (r: Option<Vec<u8>>)
    requires
        i <= v@.len(),
    ensures
        match r {
            Some(b) => b64_parse(v@.skip(i as int)) == Some(b@),
            None => b64_parse(v@.skip(i as int)) is None,
        },
    decreases v@.len() - i,
{
    let ghost s = v@.skip(i as int);
    let n = v.len() - i;
    if n == 0 {
        let r: Vec<u8> = Vec::new();
        proof {
            assert(r@ =~= Seq::<u8>::empty());
        }
        Some(r)
    } else if n == 1 {
        None
    } else if n == 2 {
        proof {
            assert(s[0] == v@[i as int] && s[1] == v@[i as int + 1]);
        }
        let c0 = match dec6_exec(v[i]) {
            Some(c) => c,
            None => {
                return None;
            },
        };
        let c1 = match dec6_exec(v[i + 1]) {
            Some(c) => c,
            None => {
                return None;
            },
        };
        if c1 & 15 != 0 {
            return None;
        }
        let mut r: Vec<u8> = Vec::new();
        r.push((c0 << 2) | (c1 >> 4));
        proof {
            assert(r@ =~= seq![(c0 << 2) | (c1 >> 4)]);
        }
        Some(r)
    } else if n == 3 {
        proof {
            assert(s[0] == v@[i as int] && s[1] == v@[i as int + 1] && s[2] == v@[i as int + 2]);
        }
        let c0 = match dec6_exec(v[i]) {
            Some(c) => c,
            None => {
                return None;
            },
        };
        let c1 = match dec6_exec(v[i + 1]) {
            Some(c) => c,
            None => {
                return None;
            },
        };
        let c2 = match dec6_exec(v[i + 2]) {
            Some(c) => c,
            None => {
                return None;
            },
        };
        if c2 & 3 != 0 {
            return None;
        }
        let mut r: Vec<u8> = Vec::new();
        r.push((c0 << 2) | (c1 >> 4));
        r.push(((c1 & 15) << 4) | (c2 >> 2));
        proof {
            assert(r@ =~= seq![(c0 << 2) | (c1 >> 4), ((c1 & 15) << 4) | (c2 >> 2)]);
        }
        Some(r)
    } else {
        proof {
            assert(s[0] == v@[i as int] && s[1] == v@[i as int + 1] && s[2] == v@[i as int + 2]
                && s[3] == v@[i as int + 3]);
            assert(s.skip(4) =~= v@.skip(i as int + 4));
        }
        let c0 = match dec6_exec(v[i]) {
            Some(c) => c,
            None => {
                return None;
            },
        };
        let c1 = match dec6_exec(v[i + 1]) {
            Some(c) => c,
            None => {
                return None;
            },
        };
        let c2 = match dec6_exec(v[i + 2]) {
            Some(c) => c,
            None => {
                return None;
            },
        };
        let c3 = match dec6_exec(v[i + 3]) {
            Some(c) => c,
            None => {
                return None;
            },
        };
        let rest = match b64_decode_from(v, i + 4) {
            Some(b) => b,
            None => {
                return None;
            },
        };
        let mut r: Vec<u8> = Vec::new();
        r.push((c0 << 2) | (c1 >> 4));
        r.push(((c1 & 15) << 4) | (c2 >> 2));
        r.push(((c2 & 3) << 6) | c3);
        let ghost head = r@;
        let mut tail = rest;
        r.append(&mut tail);
        proof {
            assert(head =~= seq![
                (c0 << 2) | (c1 >> 4),
                ((c1 & 15) << 4) | (c2 >> 2),
                ((c2 & 3) << 6) | c3,
            ]);
        }
        Some(r)
    }
}

/// Decodes a whole canonical URL-safe base64 segment.
pub fn b64_decode(v: &Vec<u8>) -> (r: Option<Vec<u8>>)
    ensures
        match r {
            Some(b) => b64_parse(v@) == Some(b@),
            None => b64_parse(v@) is None,
        },
{
    proof {
        assert(v@.skip(0) =~= v@);
    }
    b64_decode_from(v, 0)
}

} // verus!
