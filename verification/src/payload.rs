//! The signed payload text: a fixed-shape JSON object
//! `{"sub":"…","iat":…,"exp":…}` written and read byte by byte.

use vstd::prelude::*;
use crate::numeric::{dec_of, is_digit, parse_usize_spec, lemma_parse_usize_round_trip};
use crate::numeric::{format_u64, parse_usize_at};

verus! {

/// Model of a claims payload: subject bytes and the two timestamps.
#[verifier::ext_equal]
pub ghost struct ClaimsModel {
    pub sub: Seq<u8>,
    pub iat: usize,
    pub exp: usize,
}

/// Subject bytes that can stand between quotes without escaping: no quote
/// and no backslash.
pub open spec fn sub_wf(sub: Seq<u8>) -> bool {
    forall|i: int| 0 <= i < sub.len() ==> #[trigger] sub[i] != 0x22 && sub[i] != 0x5c
}

impl ClaimsModel {
    pub open spec fn wf(&self) -> bool {
        sub_wf(self.sub)
    }
}

/// The bytes of `{"sub":"`.
pub open spec fn lit_open() -> Seq<u8> {
    seq![0x7b, 0x22, 0x73, 0x75, 0x62, 0x22, 0x3a, 0x22]
}

/// The bytes of `","iat":`.
pub open spec fn lit_iat() -> Seq<u8> {
    seq![0x22, 0x2c, 0x22, 0x69, 0x61, 0x74, 0x22, 0x3a]
}

/// The bytes of `,"exp":`.
pub open spec fn lit_exp() -> Seq<u8> {
    seq![0x2c, 0x22, 0x65, 0x78, 0x70, 0x22, 0x3a]
}

/// The payload text of a claims value.
pub open spec fn payload_of(m: ClaimsModel) -> Seq<u8> {
    lit_open() + m.sub + lit_iat() + dec_of(m.iat as nat) + lit_exp() + dec_of(m.exp as nat)
        + seq![0x7d]
}

pub open spec fn starts_with(s: Seq<u8>, p: Seq<u8>) -> bool {
    s.len() >= p.len() && s.take(p.len() as int) == p
}

/// Scans subject bytes up to the closing quote; a backslash is refused, so
/// the grammar has no escapes.
pub open spec fn scan_sub(s: Seq<u8>) -> Option<(Seq<u8>, Seq<u8>)>
    decreases s.len(),
{
    if s.len() == 0 {
        None
    } else if s[0] == 0x22 {
        Some((Seq::empty(), s))
    } else if s[0] == 0x5c {
        None
    } else {
        match scan_sub(s.drop_first()) {
            Some(p) => Some((seq![s[0]] + p.0, p.1)),
            None => None,
        }
    }
}

/// Reads a payload back; `None` for anything the writer would not produce.
pub open spec fn parse_payload(s: Seq<u8>) -> Option<ClaimsModel> {
    if !starts_with(s, lit_open()) {
        None
    } else {
        match scan_sub(s.skip(8)) {
            None => None,
            Some((sub, rest1)) => if !starts_with(rest1, lit_iat()) {
                None
            } else {
                match parse_usize_spec(rest1.skip(8)) {
                    None => None,
                    Some((iat, rest2)) => if !starts_with(rest2, lit_exp()) {
                        None
                    } else {
                        match parse_usize_spec(rest2.skip(7)) {
                            None => None,
                            Some((exp, rest3)) => if rest3 == seq![0x7du8] {
                                Some(ClaimsModel { sub, iat, exp })
                            } else {
                                None
                            },
                        }
                    },
                }
            },
        }
    }
}

/// What the subject scan does at the first quote, backslash or end.
pub proof fn lemma_scan_sub_at(c: Seq<u8>, k: int)
    requires
        0 <= k <= c.len(),
        forall|t: int| 0 <= t < k ==> #[trigger] c[t] != 0x22 && c[t] != 0x5c,
        k == c.len() || c[k] == 0x22 || c[k] == 0x5c,
    ensures
        k < c.len() && c[k] == 0x22 ==> scan_sub(c) == Some((c.take(k), c.skip(k))),
        !(k < c.len() && c[k] == 0x22) ==> scan_sub(c) is None,
    decreases k,
{
    if k == 0 {
        if 0 < c.len() && c[0] == 0x22 {
            assert(c.take(0) =~= Seq::<u8>::empty());
            assert(c.skip(0) =~= c);
        }
    } else {
        let d = c.drop_first();
        assert(forall|t: int| 0 <= t < k - 1 ==> #[trigger] d[t] != 0x22 && d[t] != 0x5c);
        assert(k - 1 == d.len() || d[k - 1] == 0x22 || d[k - 1] == 0x5c);
        lemma_scan_sub_at(d, k - 1);
        if k < c.len() && c[k] == 0x22 {
            assert(seq![c[0]] + d.take(k - 1) =~= c.take(k));
            assert(d.skip(k - 1) =~= c.skip(k));
        }
    }
}

/// Reading back what the writer wrote recovers the claims exactly.
pub proof fn lemma_parse_payload_round_trip(m: ClaimsModel)
    requires
        m.wf(),
    ensures
        parse_payload(payload_of(m)) == Some(m),
{
    let s = payload_of(m);
    let d_iat = dec_of(m.iat as nat);
    let d_exp = dec_of(m.exp as nat);
    let r1 = lit_iat() + d_iat + lit_exp() + d_exp + seq![0x7du8];
    let r3 = lit_exp() + d_exp + seq![0x7du8];
    crate::numeric::lemma_dec_of_digits(m.iat as nat);
    crate::numeric::lemma_dec_of_digits(m.exp as nat);
    assert(s.take(8) =~= lit_open());
    assert(starts_with(s, lit_open()));
    assert(s.skip(8) =~= m.sub + r1);
    let c = m.sub + r1;
    let k = m.sub.len() as int;
    assert(forall|t: int| 0 <= t < k ==> #[trigger] c[t] != 0x22 && c[t] != 0x5c);
    assert(c[k] == 0x22);
    lemma_scan_sub_at(c, k);
    assert(c.take(k) =~= m.sub);
    assert(c.skip(k) =~= r1);
    assert(scan_sub(s.skip(8)) == Some((m.sub, r1)));
    assert(r1.take(8) =~= lit_iat());
    assert(starts_with(r1, lit_iat()));
    assert(r1.skip(8) =~= d_iat + r3);
    assert(r3.len() >= 1 && !is_digit(r3[0]));
    lemma_parse_usize_round_trip(m.iat, r3);
    assert(parse_usize_spec(r1.skip(8)) == Some((m.iat, r3)));
    assert(r3.take(7) =~= lit_exp());
    assert(starts_with(r3, lit_exp()));
    assert(r3.skip(7) =~= d_exp + seq![0x7du8]);
    assert(!is_digit(seq![0x7du8][0]));
    lemma_parse_usize_round_trip(m.exp, seq![0x7du8]);
    assert(parse_usize_spec(r3.skip(7)) == Some((m.exp, seq![0x7du8])));
    assert(ClaimsModel { sub: m.sub, iat: m.iat, exp: m.exp } =~= m);
}

/// Writes the payload text for the given subject bytes and timestamps.
pub fn payload_bytes(sub: &Vec<u8>, iat: usize, exp: usize) -> (r: Vec<u8>)
    ensures
        r@ == payload_of(ClaimsModel { sub: sub@, iat, exp }),
{
    let mut r: Vec<u8> = Vec::new();
    r.push(0x7b);
    r.push(0x22);
    r.push(0x73);
    r.push(0x75);
    r.push(0x62);
    r.push(0x22);
    r.push(0x3a);
    r.push(0x22);
    let mut sub_copy = sub.clone();
    r.append(&mut sub_copy);
    r.push(0x22);
    r.push(0x2c);
    r.push(0x22);
    r.push(0x69);
    r.push(0x61);
    r.push(0x74);
    r.push(0x22);
    r.push(0x3a);
    let mut iat_text = format_u64(iat as u64);
    r.append(&mut iat_text);
    r.push(0x2c);
    r.push(0x22);
    r.push(0x65);
    r.push(0x78);
    r.push(0x70);
    r.push(0x22);
    r.push(0x3a);
    let mut exp_text = format_u64(exp as u64);
    r.append(&mut exp_text);
    r.push(0x7d);
    proof {
        assert(r@ =~= payload_of(ClaimsModel { sub: sub@, iat, exp }));
    }
    r
}

/// Reads a payload text back into subject bytes and timestamps.
pub fn read_payload(v: &Vec<u8>) -> (r: Option<(Vec<u8>, usize, usize)>)
    ensures
        match r {
            Some(p) => parse_payload(v@) == Some(ClaimsModel { sub: p.0@, iat: p.1, exp: p.2 }),
            None => parse_payload(v@) is None,
        },
{
    let n = v.len();
    if n < 8 || v[0] != 0x7b || v[1] != 0x22 || v[2] != 0x73 || v[3] != 0x75 || v[4] != 0x62
        || v[5] != 0x22 || v[6] != 0x3a || v[7] != 0x22 {
        proof {
            if v@.len() >= 8 {
                assert(v@.take(8)[0] == v@[0] && v@.take(8)[1] == v@[1] && v@.take(8)[2] == v@[2]
                    && v@.take(8)[3] == v@[3] && v@.take(8)[4] == v@[4] && v@.take(8)[5] == v@[5]
                    && v@.take(8)[6] == v@[6] && v@.take(8)[7] == v@[7]);
            }
        }
        return None;
    }
    proof {
        assert(v@.take(8) =~= lit_open());
    }
    let ghost c = v@.skip(8);
    let mut j: usize = 8;
    while j < n && v[j] != 0x22 && v[j] != 0x5c
        invariant
            8 <= j <= n == v@.len(),
            forall|t: int| 8 <= t < j ==> #[trigger] v@[t] != 0x22 && v@[t] != 0x5c,
        decreases n - j,
    {
        j = j + 1;
    }
    proof {
        assert(forall|t: int| 0 <= t < j - 8 ==> #[trigger] c[t] != 0x22 && c[t] != 0x5c);
        if j < n {
            assert(c[j - 8] == v@[j as int]);
        }
        lemma_scan_sub_at(c, j - 8);
    }
    if j == n || v[j] != 0x22 {
        return None;
    }
    proof {
        assert(c.take(j - 8) =~= v@.subrange(8, j as int));
        assert(c.skip(j - 8) =~= v@.skip(j as int));
    }
    let mut sub: Vec<u8> = Vec::new();
    let mut t: usize = 8;
    while t < j
        invariant
            8 <= t <= j <= v@.len(),
            sub@ == v@.subrange(8, t as int),
        decreases j - t,
    {
        sub.push(v[t]);
        proof {
            assert(v@.subrange(8, t as int + 1) =~= v@.subrange(8, t as int).push(v@[t as int]));
        }
        t = t + 1;
    }
    let ghost rest1 = v@.skip(j as int);
    if j > n - 8 || v[j] != 0x22 || v[j + 1] != 0x2c || v[j + 2] != 0x22 || v[j + 3] != 0x69 || v[j
        + 4] != 0x61 || v[j + 5] != 0x74 || v[j + 6] != 0x22 || v[j + 7] != 0x3a {
        proof {
            if rest1.len() >= 8 {
                assert(forall|x: int| 0 <= x < 8 ==> #[trigger] rest1.take(8)[x] == v@[j + x]);
            }
        }
        return None;
    }
    proof {
        assert(rest1.take(8) =~= lit_iat());
        assert(rest1.skip(8) =~= v@.skip(j as int + 8));
    }
    let (iat, j2) = match parse_usize_at(v, j + 8) {
        Some(p) => p,
        None => {
            return None;
        },
    };
    let ghost rest2 = v@.skip(j2 as int);
    if j2 > n - 7 || v[j2] != 0x2c || v[j2 + 1] != 0x22 || v[j2 + 2] != 0x65 || v[j2 + 3] != 0x78
        || v[j2 + 4] != 0x70 || v[j2 + 5] != 0x22 || v[j2 + 6] != 0x3a {
        proof {
            if rest2.len() >= 7 {
                assert(forall|x: int| 0 <= x < 7 ==> #[trigger] rest2.take(7)[x] == v@[j2 + x]);
            }
        }
        return None;
    }
    proof {
        assert(rest2.take(7) =~= lit_exp());
        assert(rest2.skip(7) =~= v@.skip(j2 as int + 7));
    }
    let (exp, j3) = match parse_usize_at(v, j2 + 7) {
        Some(p) => p,
        None => {
            return None;
        },
    };
    let ghost rest3 = v@.skip(j3 as int);
    if j3 != n - 1 || v[j3] != 0x7d {
        proof {
            if rest3.len() == 1 && rest3[0] == 0x7d {
                assert(rest3 =~= seq![0x7du8]);
            }
            if rest3 == seq![0x7du8] {
                assert(rest3.len() == 1 && rest3[0] == 0x7d);
            }
        }
        return None;
    }
    proof {
        assert(rest3 =~= seq![0x7du8]);
    }
    Some((sub, iat, exp))
}

} // verus!
