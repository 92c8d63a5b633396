//! Decimal text: formatting of the subject id and the timestamps, and the
//! digit-run parsing that the payload reader uses.

use vstd::prelude::*;

verus! {

/// True of an ASCII decimal digit byte.
pub open spec fn is_digit(b: u8) -> bool {
    0x30 <= b <= 0x39
}

/// The digit byte for value `d`.
pub open spec fn digit_byte(d: nat) -> u8
    recommends
        d < 10,
{
    (0x30 + d) as u8
}

/// ASCII decimal form of `n`, most significant digit first, no leading zeros.
pub open spec fn dec_of(n: nat) -> Seq<u8>
    decreases n,
{
    if n < 10 {
        seq![digit_byte(n)]
    } else {
        dec_of(n / 10).push(digit_byte(n % 10))
    }
}

/// ASCII decimal form of a signed integer: a minus sign when negative.
pub open spec fn dec_of_int(i: int) -> Seq<u8> {
    if i < 0 {
        seq![0x2d] + dec_of((-i) as nat)
    } else {
        dec_of(i as nat)
    }
}

/// True when every byte of `s` is a decimal digit.
pub open spec fn all_digits(s: Seq<u8>) -> bool {
    forall|i: int| 0 <= i < s.len() ==> is_digit(#[trigger] s[i])
}

/// Value of a digit string, most significant digit first.
pub open spec fn digits_val(s: Seq<u8>) -> nat
    recommends
        all_digits(s),
    decreases s.len(),
{
    if s.len() == 0 {
        0
    } else {
        (digits_val(s.drop_last()) * 10 + s.last() - 0x30) as nat
    }
}

pub open spec fn pow10(n: nat) -> nat
    decreases n,
{
    if n == 0 {
        1
    } else {
        pow10((n - 1) as nat) * 10
    }
}

pub proof fn lemma_pow10_pos(n: nat)
    ensures
        pow10(n) >= 1,
    decreases n,
{
    if n > 0 {
        lemma_pow10_pos((n - 1) as nat);
    }
}

/// The decimal form of `n` is a nonempty digit string without a leading
/// zero (unless it is "0" itself), and it evaluates back to `n`.
pub proof fn lemma_dec_of_digits(n: nat)
    ensures
        dec_of(n).len() >= 1,
        all_digits(dec_of(n)),
        digits_val(dec_of(n)) == n,
        n < 10 ==> dec_of(n) == seq![digit_byte(n)],
        n >= 10 ==> dec_of(n).len() >= 2 && dec_of(n)[0] != 0x30,
        n >= 1 ==> dec_of(n)[0] != 0x30,
    decreases n,
{
    if n < 10 {
        reveal_with_fuel(digits_val, 2);
        assert(dec_of(n).drop_last() =~= Seq::<u8>::empty());
    } else {
        lemma_dec_of_digits(n / 10);
        assert(dec_of(n).drop_last() =~= dec_of(n / 10));
        assert(dec_of(n).last() == digit_byte(n % 10));
        assert(digits_val(dec_of(n)) == digits_val(dec_of(n / 10)) * 10 + n % 10);
        assert(dec_of(n)[0] == dec_of(n / 10)[0]);
    }
}

/// Splitting a digit string off the front: appended digits raise the value
/// by a power of ten.
pub proof fn lemma_digits_val_append(a: Seq<u8>, b: Seq<u8>)
    requires
        all_digits(a),
        all_digits(b),
    ensures
        digits_val(a + b) == digits_val(a) * pow10(b.len()) + digits_val(b),
    decreases b.len(),
{
    if b.len() == 0 {
        assert(a + b =~= a);
        assert(pow10(0) == 1);
        assert(digits_val(b) == 0);
    } else {
        assert forall|i: int| 0 <= i < b.drop_last().len() implies is_digit(
            #[trigger] b.drop_last()[i],
        ) by {
            assert(b.drop_last()[i] == b[i]);
        }
        lemma_digits_val_append(a, b.drop_last());
        assert((a + b).drop_last() =~= a + b.drop_last());
        assert((a + b).last() == b.last());
        assert(is_digit(b.last()));
        assert(digits_val(a + b) == digits_val(a + b.drop_last()) * 10 + b.last() - 0x30);
        assert(digits_val(b) == digits_val(b.drop_last()) * 10 + b.last() - 0x30);
        assert(digits_val(a) * pow10((b.len() - 1) as nat) * 10 == digits_val(a) * pow10(
            b.len(),
        )) by (nonlinear_arith)
            requires
                pow10((b.len() - 1) as nat) * 10 == pow10(b.len()),
        ;
        assert(digits_val(a + b) == digits_val(a) * pow10(b.len()) + digits_val(b))
            by (nonlinear_arith)
            requires
                digits_val(a + b) == digits_val(a + b.drop_last()) * 10 + b.last() - 0x30,
                digits_val(a + b.drop_last()) == digits_val(a) * pow10((b.len() - 1) as nat)
                    + digits_val(b.drop_last()),
                digits_val(b) == digits_val(b.drop_last()) * 10 + b.last() - 0x30,
                digits_val(a) * pow10((b.len() - 1) as nat) * 10 == digits_val(a) * pow10(b.len()),
        ;
    }
}

/// A digit prefix never values more than the whole string.
pub proof fn lemma_digits_val_prefix(c: Seq<u8>, m: int)
    requires
        all_digits(c),
        0 <= m <= c.len(),
    ensures
        digits_val(c) >= digits_val(c.take(m)),
{
    let a = c.take(m);
    let b = c.skip(m);
    assert forall|i: int| 0 <= i < a.len() implies is_digit(#[trigger] a[i]) by {
        assert(a[i] == c[i]);
    }
    assert forall|i: int| 0 <= i < b.len() implies is_digit(#[trigger] b[i]) by {
        assert(b[i] == c[i + m]);
    }
    assert(c =~= a + b);
    lemma_digits_val_append(a, b);
    lemma_pow10_pos(b.len());
    assert(digits_val(a) * pow10(b.len()) >= digits_val(a)) by (nonlinear_arith)
        requires
            pow10(b.len()) >= 1,
    ;
}

/// Longest digit prefix of `s`, and what follows it.
pub open spec fn split_digits(s: Seq<u8>) -> (Seq<u8>, Seq<u8>)
    decreases s.len(),
{
    if s.len() == 0 || !is_digit(s[0]) {
        (Seq::empty(), s)
    } else {
        let (d, r) = split_digits(s.drop_first());
        (seq![s[0]] + d, r)
    }
}

/// `split_digits` recovers an explicit digit-string/rest decomposition.
pub proof fn lemma_split_digits_exact(d: Seq<u8>, r: Seq<u8>)
    requires
        all_digits(d),
        r.len() == 0 || !is_digit(r[0]),
    ensures
        split_digits(d + r) == (d, r),
    decreases d.len(),
{
    if d.len() == 0 {
        assert(d + r =~= r);
    } else {
        lemma_split_digits_exact(d.drop_first(), r);
        assert((d + r).drop_first() =~= d.drop_first() + r);
        assert((d + r)[0] == d[0]);
        assert(seq![(d + r)[0]] + d.drop_first() =~= d);
    }
}

/// Reads a canonical decimal number that fits in `usize` from the front of
/// `s`: a nonempty digit run, no leading zero, value within range.
pub open spec fn parse_usize_spec(s: Seq<u8>) -> Option<(usize, Seq<u8>)> {
    let (d, r) = split_digits(s);
    if d.len() == 0 {
        None
    } else if d.len() > 1 && d[0] == 0x30 {
        None
    } else if digits_val(d) > usize::MAX {
        None
    } else {
        Some((digits_val(d) as usize, r))
    }
}

/// The decimal form of any `usize` reads back as itself.
pub proof fn lemma_parse_usize_round_trip(n: usize, r: Seq<u8>)
    requires
        r.len() == 0 || !is_digit(r[0]),
    ensures
        parse_usize_spec(dec_of(n as nat) + r) == Some((n, r)),
{
    lemma_dec_of_digits(n as nat);
    lemma_split_digits_exact(dec_of(n as nat), r);
}

/// Signed decimal reading as `str::parse::<i32>` accepts it: an optional
/// sign, then digits only, with the value in range.
pub open spec fn parse_i32_spec(s: Seq<u8>) -> Option<i32> {
    if s.len() >= 1 && s[0] == 0x2d {
        let d = s.drop_first();
        if d.len() == 0 || !all_digits(d) {
            None
        } else if digits_val(d) > 0x8000_0000 {
            None
        } else {
            Some((-digits_val(d)) as i32)
        }
    } else {
        let d = if s.len() >= 1 && s[0] == 0x2b {
            s.drop_first()
        } else {
            s
        };
        if d.len() == 0 || !all_digits(d) {
            None
        } else if digits_val(d) > 0x7fff_ffff {
            None
        } else {
            Some(digits_val(d) as i32)
        }
    }
}

/// The decimal form of any `i32` reads back as itself.
pub proof fn lemma_parse_i32_round_trip(id: i32)
    ensures
        parse_i32_spec(dec_of_int(id as int)) == Some(id),
{
    if id < 0 {
        lemma_dec_of_digits((-(id as int)) as nat);
        assert((seq![0x2d] + dec_of((-(id as int)) as nat)).drop_first() =~= dec_of(
            (-(id as int)) as nat,
        ));
    } else {
        lemma_dec_of_digits(id as nat);
        let d = dec_of(id as nat);
        assert(d[0] != 0x2d && d[0] != 0x2b);
    }
}

/// Writes `n` in decimal.
pub fn format_u64(n: u64) -> (r: Vec<u8>)
    ensures
        r@ == dec_of(n as nat),
    decreases n,
{
    if n < 10 {
        let mut v: Vec<u8> = Vec::new();
        v.push(0x30u8 + n as u8);
        proof {
            assert(v@ =~= seq![digit_byte(n as nat)]);
        }
        v
    } else {
        let mut v = format_u64(n / 10);
        v.push(0x30u8 + (n % 10) as u8);
        proof {
            assert(v@ =~= dec_of((n / 10) as nat).push(digit_byte((n % 10) as nat)));
        }
        v
    }
}

/// Writes `i` in decimal, with a minus sign when negative.
pub fn format_i32(i: i32) -> (r: Vec<u8>)
    ensures
        r@ == dec_of_int(i as int),
{
    if i >= 0 {
        format_u64(i as u64)
    } else {
        let mag = -(i as i64);
        let mut v: Vec<u8> = Vec::new();
        v.push(0x2d);
        let mut d = format_u64(mag as u64);
        v.append(&mut d);
        proof {
            assert(v@ =~= seq![0x2d] + dec_of((-(i as int)) as nat));
        }
        v
    }
}

/// Reads a canonical decimal number starting at index `i`; on success the
/// value and the index just past the digits.
pub fn parse_usize_at(v: &Vec<u8>, i: usize) -> (r: Option<(usize, usize)>)
    requires
        i <= v@.len(),
    ensures
        match r {
            Some(p) => i < p.1 <= v@.len() && parse_usize_spec(v@.skip(i as int)) == Some(
                (p.0, v@.skip(p.1 as int)),
            ),
            None => parse_usize_spec(v@.skip(i as int)) is None,
        },
{
    let ghost s = v@.skip(i as int);
    let mut j = i;
    while j < v.len() && v[j] >= 0x30 && v[j] <= 0x39
        invariant
            i <= j <= v@.len(),
            forall|k: int| i <= k < j ==> is_digit(#[trigger] v@[k]),
        decreases v@.len() - j,
    {
        j = j + 1;
    }
    let ghost d = v@.subrange(i as int, j as int);
    let ghost rest = v@.skip(j as int);
    proof {
        assert(s =~= d + rest);
        assert(all_digits(d)) by {
            assert(forall|t: int| 0 <= t < d.len() ==> #[trigger] d[t] == v@[t + i]);
        }
        assert(rest.len() == 0 || !is_digit(rest[0])) by {
            if j < v@.len() {
                assert(rest[0] == v@[j as int]);
            }
        }
        lemma_split_digits_exact(d, rest);
    }
    if j == i {
        return None;
    }
    proof {
        assert(d[0] == v@[i as int]);
    }
    if j - i > 1 && v[i] == 0x30 {
        return None;
    }
    let mut val: usize = 0;
    let mut k = i;
    while k < j
        invariant
            i <= k <= j <= v@.len(),
            forall|t: int| i <= t < j ==> is_digit(#[trigger] v@[t]),
            val == digits_val(v@.subrange(i as int, k as int)),
            d == v@.subrange(i as int, j as int),
            i < j,
            split_digits(v@.skip(i as int)) == (d, v@.skip(j as int)),
            all_digits(d),
            !(d.len() > 1 && d[0] == 0x30),
        decreases j - k,
    {
        let dig = (v[k] - 0x30) as usize;
        let ghost pre = v@.subrange(i as int, k as int);
        let ghost pre1 = v@.subrange(i as int, k as int + 1);
        proof {
            assert(pre1.drop_last() =~= pre);
            assert(pre1.last() == v@[k as int]);
            assert(digits_val(pre1) == val * 10 + dig);
        }
        if val > (usize::MAX - dig) / 10 {
            proof {
                assert(val * 10 + dig > usize::MAX) by (nonlinear_arith)
                    requires
                        val > (usize::MAX - dig) / 10,
                        dig <= 9,
                ;
                assert(pre1 =~= d.take(k + 1 - i));
                lemma_digits_val_prefix(d, k + 1 - i);
                assert(digits_val(d) > usize::MAX);
            }
            return None;
        }
        proof {
            assert(val * 10 + dig <= usize::MAX) by (nonlinear_arith)
                requires
                    val <= (usize::MAX - dig) / 10,
                    dig <= 9,
            ;
        }
        val = val * 10 + dig;
        k = k + 1;
    }
    proof {
        assert(d =~= v@.subrange(i as int, j as int));
    }
    Some((val, j))
}

/// Reads an `i32` from the whole of `v`, as `str::parse::<i32>` would.
pub fn parse_i32(v: &Vec<u8>) -> (r: Option<i32>)
    ensures
        r == parse_i32_spec(v@),
{
    let n = v.len();
    if n == 0 {
        return None;
    }
    let first = v[0];
    let negative = first == 0x2d;
    let start: usize = if first == 0x2d || first == 0x2b {
        1
    } else {
        0
    };
    let ghost d = v@.skip(start as int);
    proof {
        if start == 0 {
            assert(d =~= v@);
        } else {
            assert(d =~= v@.drop_first());
        }
    }
    if n == start {
        return None;
    }
    let mut acc: u64 = 0;
    let mut k = start;
    while k < n
        invariant
            start <= k <= n == v@.len(),
            n >= 1,
            start <= 1,
            forall|t: int| start <= t < k ==> is_digit(#[trigger] v@[t]),
            acc == digits_val(v@.subrange(start as int, k as int)),
            acc <= 0x8000_0000,
            d == v@.skip(start as int),
            negative == (v@[0] == 0x2d),
            start == 1 <==> (v@[0] == 0x2d || v@[0] == 0x2b),
            start == 1 ==> d == v@.drop_first(),
            start == 0 ==> d == v@,
            d.len() >= 1,
        decreases n - k,
    {
        let b = v[k];
        if b < 0x30 || b > 0x39 {
            proof {
                assert(d[k - start] == v@[k as int]);
                assert(!all_digits(d));
            }
            return None;
        }
        let dig = (b - 0x30) as u64;
        let ghost pre1 = v@.subrange(start as int, k as int + 1);
        proof {
            assert(pre1.drop_last() =~= v@.subrange(start as int, k as int));
            assert(pre1.last() == v@[k as int]);
            assert(digits_val(pre1) == acc * 10 + dig);
        }
        acc = acc * 10 + dig;
        k = k + 1;
        if acc > 0x8000_0000 {
            proof {
                if all_digits(d) {
                    assert(pre1 =~= d.take(k - start));
                    lemma_digits_val_prefix(d, k - start);
                    assert(digits_val(d) > 0x8000_0000);
                }
            }
            return None;
        }
    }
    proof {
        assert(d =~= v@.subrange(start as int, n as int));
        assert(all_digits(d)) by {
            assert(forall|t: int| 0 <= t < d.len() ==> #[trigger] d[t] == v@[t + start]);
        }
    }
    if negative {
        proof {
            assert((-(acc as i64)) as i32 == (-digits_val(d)) as i32);
        }
        Some((-(acc as i64)) as i32)
    } else {
        if acc > 0x7fff_ffff {
            None
        } else {
            Some(acc as i32)
        }
    }
}

} // verus!
