//! Reading a JSON number written with a fraction or an exponent as an
//! integer, where the exact decimal value settles what the `f64` reading
//! would give; the few texts where only the rounding of an `f64` can settle
//! it are reported as such.

use vstd::prelude::*;
use crate::json::lazy::{all_digits, digits_value, lemma_digits_value_nonneg};
use crate::text::is_digit;

verus! {

/// 2^53: every whole number up to this magnitude is exact in an `f64`.
pub const MAX_SAFE_INT: u64 = 9007199254740992;

pub open spec fn pow10(n: nat) -> nat
    decreases n,
{
    if n == 0 {
        1
    } else {
        10 * pow10((n - 1) as nat)
    }
}

/// First offset at or after `i` that does not hold a decimal digit.
pub open spec fn digits_end(t: Seq<u8>, i: int) -> int
    decreases t.len() - i,
{
    if 0 <= i < t.len() && is_digit(t[i]) {
        digits_end(t, i + 1)
    } else {
        i
    }
}

/// A decimal number's text taken apart: the sign, the digits of the
/// mantissa without its point, how many of them follow the point, and the
/// exponent. Its exact value is the mantissa times ten to the exponent minus
/// the fraction's length.
pub ghost struct DecimalParts {
    pub neg: bool,
    pub digits: Seq<u8>,
    pub frac_len: int,
    pub exp: int,
}

/// The parts of `[+-]digits[.digits][(e|E)[+-]digits]` with at least one
/// mantissa digit and nothing after it (the decimal form that
/// `f64::from_str` accepts); `None` for any other text.
pub open spec fn decimal_parts(t: Seq<u8>) -> Option<DecimalParts> {
    let s0: int = if t.len() > 0 && (t[0] == 0x2d || t[0] == 0x2b) { 1 } else { 0 };
    let a = digits_end(t, s0);
    let c = if a < t.len() && t[a] == 0x2e { a + 1 } else { a };
    let b = digits_end(t, c);
    let mant = t.subrange(s0, a) + t.subrange(c, b);
    let neg = t.len() > 0 && t[0] == 0x2d;
    if mant.len() == 0 {
        None
    } else if b == t.len() {
        Some(DecimalParts { neg, digits: mant, frac_len: b - c, exp: 0 })
    } else if t[b] == 0x65 || t[b] == 0x45 {
        let s1 = b + 1;
        let s2 = if s1 < t.len() && (t[s1] == 0x2d || t[s1] == 0x2b) { s1 + 1 } else { s1 };
        let e = digits_end(t, s2);
        if e == s2 || e != t.len() {
            None
        } else {
            let ev = digits_value(t.subrange(s2, e));
            Some(DecimalParts {
                neg,
                digits: mant,
                frac_len: b - c,
                exp: if s1 < t.len() && t[s1] == 0x2d { -ev } else { ev },
            })
        }
    } else {
        None
    }
}

/// How a number's text reads as an integer through `f64`, settled from its
/// exact value where that is enough.
#[derive(Debug, Clone, Copy, PartialEq, Eq, Structural)]
pub enum IntReading {
    /// The integer.
    Int(i64),
    /// No integer: no number, a value that is not whole, or one beyond 2^53.
    NotInteger,
    /// Only the rounded `f64` value can tell.
    NeedsFloat,
}

/// The reading of the parts, for a reader that parses the text as an `f64`
/// (correctly rounded) and accepts a finite value with no fraction and a
/// magnitude of at most 2^53. With `x` the exact value:
/// - `x` whole and at most 2^53 in magnitude: the `f64` is `x` itself, so
///   `Int`;
/// - `x` whole and at least 2^53 + 2 in magnitude: the `f64` is at least that
///   (2^53 + 2 is an `f64` and rounding keeps order), so `NotInteger`;
/// - `x` not whole, written as `m / 10^j` with `m < 2^53` and `j <= 300`: `x`
///   is at least 10^-j from every integer and at least 10^-300 (above the
///   subnormals), while the `f64` is within `x * 2^-53 < 10^-j` of `x`, so it
///   is not whole either: `NotInteger`;
/// - otherwise (`x` is 2^53 + 1 in magnitude, or `m` or `j` is larger):
///   `NeedsFloat`.
pub open spec fn parts_reading(p: DecimalParts) -> IntReading {
    let m = digits_value(p.digits);
    let k = p.exp - p.frac_len;
    let j = -k;
    if k >= 0 || m % (pow10(j as nat) as int) == 0 {
        let x = if k >= 0 { m * pow10(k as nat) } else { m / (pow10(j as nat) as int) };
        if x <= MAX_SAFE_INT {
            IntReading::Int((if p.neg { -x } else { x }) as i64)
        } else if x >= MAX_SAFE_INT + 2 {
            IntReading::NotInteger
        } else {
            IntReading::NeedsFloat
        }
    } else if m < MAX_SAFE_INT && j <= 300 {
        IntReading::NotInteger
    } else {
        IntReading::NeedsFloat
    }
}

/// The reading of a number's text: `NotInteger` for text that is not a
/// decimal number (as `f64::from_str` refuses it, or reads an infinity or
/// NaN from it).
pub open spec fn decimal_reading(t: Seq<u8>) -> IntReading {
    match decimal_parts(t) {
        Some(p) => parts_reading(p),
        None => IntReading::NotInteger,
    }
}

// ===========================================================================
// Powers of ten and digit values
// ===========================================================================

pub proof fn lemma_pow10_adds(a: nat, b: nat)
    ensures
        pow10(a + b) == pow10(a) * pow10(b),
    decreases a,
{
    if a == 0 {
        assert(pow10(0) == 1);
        assert(a + b == b);
    } else {
        let a1 = (a - 1) as nat;
        lemma_pow10_adds(a1, b);
        assert(a + b == (a1 + b) + 1);
        assert(pow10(a + b) == 10 * pow10(a1 + b));
        assert(pow10(a) == 10 * pow10(a1));
        assert(10 * (pow10(a1) * pow10(b)) == (10 * pow10(a1)) * pow10(b))
            by (nonlinear_arith);
    }
}

pub proof fn lemma_pow10_16()
    ensures
        pow10(16) == 10000000000000000,
{
    reveal_with_fuel(pow10, 17);
}

pub proof fn lemma_pow10_positive(a: nat)
    ensures
        pow10(a) >= 1,
    decreases a,
{
    if a > 0 {
        lemma_pow10_positive((a - 1) as nat);
    }
}

pub proof fn lemma_pow10_mono(a: nat, b: nat)
    requires
        a <= b,
    ensures
        pow10(a) <= pow10(b),
    decreases b,
{
    if a < b {
        lemma_pow10_mono(a, (b - 1) as nat);
        lemma_pow10_positive((b - 1) as nat);
    }
}

proof fn lemma_all_digits_sub(d: Seq<u8>, i: int, j: int)
    requires
        all_digits(d),
        0 <= i <= j <= d.len(),
    ensures
        all_digits(d.subrange(i, j)),
{
    assert forall|k: int| 0 <= k < d.subrange(i, j).len() implies is_digit(#[trigger] d.subrange(i, j)[k]) by {
        assert(d.subrange(i, j)[k] == d[i + k]);
    }
}

/// The value of digits written one after the other.
pub proof fn lemma_digits_concat(x: Seq<u8>, y: Seq<u8>)
    ensures
        digits_value(x + y) == digits_value(x) * pow10(y.len()) + digits_value(y),
    decreases y.len(),
{
    if y.len() == 0 {
        assert(x + y =~= x);
        assert(digits_value(y) == 0);
        assert(pow10(0) == 1);
    } else {
        let y0 = y.drop_last();
        lemma_digits_concat(x, y0);
        assert((x + y).drop_last() =~= x + y0);
        assert((x + y).last() == y.last());
        assert((x + y).len() > 0);
        assert(digits_value(x + y) == digits_value(x + y0) * 10 + ((x + y).last() - 0x30));
        assert(digits_value(y) == digits_value(y0) * 10 + (y.last() - 0x30));
        assert(pow10(y.len()) == 10 * pow10(y0.len()));
        let a = digits_value(x);
        let p = pow10(y0.len()) as int;
        let b = digits_value(y0);
        assert((a * p + b) * 10 + (y.last() - 0x30) == a * (10 * p) + (b * 10 + (y.last() - 0x30)))
            by (nonlinear_arith);
    }
}

/// Digits that are all `0` have the value 0.
pub proof fn lemma_digits_zero(d: Seq<u8>)
    requires
        forall|i: int| 0 <= i < d.len() ==> #[trigger] d[i] == 0x30,
    ensures
        digits_value(d) == 0,
    decreases d.len(),
{
    if d.len() > 0 {
        lemma_digits_zero(d.drop_last());
        assert(d[d.len() - 1] == 0x30);
    }
}

/// Digits have a value below ten to their count.
pub proof fn lemma_digits_below(d: Seq<u8>)
    requires
        all_digits(d),
    ensures
        0 <= digits_value(d) < pow10(d.len()),
    decreases d.len(),
{
    if d.len() > 0 {
        lemma_all_digits_sub(d, 0, d.len() - 1);
        assert(d.drop_last() =~= d.subrange(0, d.len() - 1));
        lemma_digits_below(d.drop_last());
        assert(is_digit(d[d.len() - 1]));
    }
}

/// Digits that start with a nonzero digit, and end with one, and the value of
/// the digits around them with zeros on either side.
pub proof fn lemma_digits_canon(d: Seq<u8>, p: int, q: int)
    requires
        all_digits(d),
        0 <= p <= q < d.len(),
        d[p] != 0x30,
        d[q] != 0x30,
        forall|i: int| 0 <= i < p ==> #[trigger] d[i] == 0x30,
        forall|i: int| q < i < d.len() ==> #[trigger] d[i] == 0x30,
    ensures
        digits_value(d) == digits_value(d.subrange(p, q + 1)) * pow10((d.len() - 1 - q) as nat),
        digits_value(d.subrange(p, q + 1)) % 10 != 0,
        digits_value(d.subrange(p, q + 1)) >= pow10((q - p) as nat),
        digits_value(d.subrange(p, q + 1)) < pow10((q + 1 - p) as nat),
{
    let lead = d.subrange(0, p);
    let s = d.subrange(p, q + 1);
    let tail = d.subrange(q + 1, d.len() as int);
    assert(d =~= lead + s + tail);
    assert forall|i: int| 0 <= i < lead.len() implies #[trigger] lead[i] == 0x30 by {
        assert(lead[i] == d[i]);
    }
    assert forall|i: int| 0 <= i < tail.len() implies #[trigger] tail[i] == 0x30 by {
        assert(tail[i] == d[q + 1 + i]);
    }
    lemma_digits_zero(lead);
    lemma_digits_zero(tail);
    lemma_digits_concat(lead + s, tail);
    lemma_digits_concat(lead, s);
    assert(digits_value(lead + s) == digits_value(s)) by {
        assert(0 * pow10(s.len()) == 0) by (nonlinear_arith);
    }
    lemma_all_digits_sub(d, p, q + 1);
    // The last digit is nonzero.
    assert(s.last() == d[q]);
    assert(is_digit(d[q]));
    let s0 = s.drop_last();
    lemma_all_digits_sub(s, 0, s.len() - 1);
    assert(s0 =~= s.subrange(0, s.len() - 1));
    lemma_digits_value_nonneg(s0);
    let w = digits_value(s0);
    assert((w * 10 + (d[q] - 0x30)) % 10 == d[q] - 0x30) by (nonlinear_arith)
        requires 1 <= d[q] - 0x30 <= 9, w >= 0;
    // The first digit is nonzero.
    let first = s.subrange(0, 1);
    let rest = s.subrange(1, s.len() as int);
    assert(s =~= first + rest);
    lemma_digits_concat(first, rest);
    assert(first.drop_last() =~= Seq::<u8>::empty());
    assert(first.last() == d[p]);
    assert(digits_value(first.drop_last()) == 0);
    assert(digits_value(first) == digits_value(first.drop_last()) * 10 + (first.last() - 0x30));
    assert(digits_value(first) == d[p] - 0x30);
    assert(is_digit(d[p]));
    lemma_all_digits_sub(s, 1, s.len() as int);
    lemma_digits_value_nonneg(rest);
    let pr = pow10(rest.len()) as int;
    assert((d[p] - 0x30) * pr + digits_value(rest) >= pr) by (nonlinear_arith)
        requires d[p] - 0x30 >= 1, digits_value(rest) >= 0, pr >= 0;
    lemma_digits_below(s);
}

/// With `m` the digits' value as `s` times ten to `z` (`s` not a multiple of
/// ten), the value times ten to `k` is whole exactly when `k + z >= 0`, and
/// is then `s` times ten to `k + z`.
pub proof fn lemma_scaled_whole(m: int, s: int, z: nat, k: int)
    requires
        m == s * pow10(z),
        s > 0,
        s % 10 != 0,
    ensures
        k >= 0 ==> m * pow10(k as nat) == s * pow10((k + z) as nat),
        k < 0 && k + z >= 0 ==> m % (pow10((-k) as nat) as int) == 0
            && m / (pow10((-k) as nat) as int) == s * pow10((k + z) as nat),
        k + z < 0 ==> k < 0 && m % (pow10((-k) as nat) as int) != 0,
{
    if k >= 0 {
        lemma_pow10_adds(z, k as nat);
        assert((k + z) as nat == z + k as nat);
        assert(s * pow10(z) * pow10(k as nat) == s * (pow10(z) * pow10(k as nat))) by (nonlinear_arith);
    } else if k + z >= 0 {
        let j = (-k) as nat;
        let r = (k + z) as nat;
        lemma_pow10_adds(r, j);
        assert(r + j == z);
        lemma_pow10_positive(j);
        let pj = pow10(j) as int;
        let q = s * pow10(r);
        assert(m == q * pj) by (nonlinear_arith)
            requires m == s * pow10(z), pow10(z) == pow10(r) * pow10(j), q == s * pow10(r), pj == pow10(j);
        vstd::arithmetic::div_mod::lemma_mod_multiples_basic(q, pj);
        vstd::arithmetic::div_mod::lemma_div_multiples_vanish(q, pj);
        assert(pj * q == q * pj) by (nonlinear_arith);
    } else {
        let j = (-k) as nat;
        let g = (j - z - 1) as nat;
        lemma_pow10_adds(z, (g + 1) as nat);
        assert(z + (g + 1) as nat == j);
        assert(pow10((g + 1) as nat) == 10 * pow10(g));
        lemma_pow10_positive(z);
        lemma_pow10_positive(j);
        let pj = pow10(j) as int;
        let pz = pow10(z) as int;
        let pg = pow10(g) as int;
        if m % pj == 0 {
            vstd::arithmetic::div_mod::lemma_fundamental_div_mod(m, pj);
            let c = m / pj;
            assert(m == pj * c);
            assert(s * pz == pz * (10 * pg * c)) by (nonlinear_arith)
                requires m == s * pz, m == pj * c, pj == pz * (10 * pg);
            assert(s == 10 * (pg * c)) by (nonlinear_arith)
                requires s * pz == pz * (10 * pg * c), pz >= 1;
            vstd::arithmetic::div_mod::lemma_mod_multiples_basic(pg * c, 10);
            assert((pg * c) * 10 == 10 * (pg * c)) by (nonlinear_arith);
            assert(false);
        }
    }
}

// ===========================================================================
// The reader
// ===========================================================================

/// First offset at or after `i` that does not hold a decimal digit.
fn find_digits_end(t: &[u8], i: usize) -> (r: usize)
    requires
        i <= t.len(),
    ensures
        r == digits_end(t@, i as int),
        i <= r <= t.len(),
        all_digits(t@.subrange(i as int, r as int)),
{
    let mut j = i;
    while j < t.len() && 0x30 <= t[j] && t[j] <= 0x39
        invariant
            i <= j <= t.len(),
            digits_end(t@, j as int) == digits_end(t@, i as int),
            all_digits(t@.subrange(i as int, j as int)),
        decreases t.len() - j,
    {
        proof {
            assert forall|k: int| 0 <= k < t@.subrange(i as int, j + 1).len()
                implies is_digit(#[trigger] t@.subrange(i as int, j + 1)[k]) by {
                if k < j - i {
                    assert(t@.subrange(i as int, j + 1)[k] == t@.subrange(i as int, j as int)[k]);
                }
            }
        }
        j = j + 1;
    }
    j
}


const EXP_CAP: u128 = 0x400000000000000000;

/// The value of the exponent digits `t[s2..e]`, saturated above 2^70: the
/// flag tells that the value passed that bound.
fn read_exponent(t: &[u8], s2: usize, e: usize) -> (r: (u128, bool))
    requires
        s2 <= e <= t.len(),
        all_digits(t@.subrange(s2 as int, e as int)),
    ensures
        !r.1 ==> r.0 == digits_value(t@.subrange(s2 as int, e as int)) && r.0 <= EXP_CAP,
        r.1 ==> digits_value(t@.subrange(s2 as int, e as int)) > EXP_CAP,
{
    let mut e_acc: u128 = 0;
    let mut e_big = false;
    let mut i = s2;
    while i < e
        invariant
            s2 <= i <= e <= t.len(),
            all_digits(t@.subrange(s2 as int, e as int)),
            !e_big ==> e_acc == digits_value(t@.subrange(s2 as int, i as int)),
            !e_big ==> e_acc <= EXP_CAP,
            e_big ==> digits_value(t@.subrange(s2 as int, i as int)) > EXP_CAP,
        decreases e - i,
    {
        let ghost all = t@.subrange(s2 as int, e as int);
        let ghost prefix = t@.subrange(s2 as int, i as int);
        let ghost next = t@.subrange(s2 as int, i + 1);
        proof {
            assert(next.drop_last() =~= prefix);
            assert(next.last() == t@[i as int]);
            assert(all[i - s2] == t@[i as int]);
            assert(is_digit(t@[i as int]));
            lemma_all_digits_sub(all, 0, i - s2);
            assert(all.subrange(0, i - s2) =~= prefix);
            lemma_digits_value_nonneg(prefix);
        }
        if !e_big {
            let nv = e_acc * 10 + (t[i] - 0x30) as u128;
            if nv > EXP_CAP {
                e_big = true;
            } else {
                e_acc = nv;
            }
        }
        i = i + 1;
    }
    (e_acc, e_big)
}

/// The mantissa digits `t[s0..a]` then `t[c..b]`.
fn mantissa_digits(t: &[u8], s0: usize, a: usize, c: usize, b: usize) -> (d: Vec<u8>)
    requires
        s0 <= a <= c <= b <= t.len(),
        all_digits(t@.subrange(s0 as int, a as int)),
        all_digits(t@.subrange(c as int, b as int)),
    ensures
        d@ == t@.subrange(s0 as int, a as int) + t@.subrange(c as int, b as int),
        all_digits(d@),
{
    let mut d: Vec<u8> = Vec::new();
    let mut i = s0;
    while i < a
        invariant
            s0 <= i <= a,
            a <= t.len(),
            d@ == t@.subrange(s0 as int, i as int),
        decreases a - i,
    {
        d.push(t[i]);
        proof { assert(d@ =~= t@.subrange(s0 as int, i + 1)); }
        i = i + 1;
    }
    let mut i = c;
    while i < b
        invariant
            c <= i <= b,
            b <= t.len(),
            d@ == t@.subrange(s0 as int, a as int) + t@.subrange(c as int, i as int),
        decreases b - i,
    {
        d.push(t[i]);
        proof { assert(d@ =~= t@.subrange(s0 as int, a as int) + t@.subrange(c as int, i + 1)); }
        i = i + 1;
    }
    proof {
        let x = t@.subrange(s0 as int, a as int);
        let y = t@.subrange(c as int, b as int);
        assert(d@ =~= x + y);
        assert forall|k: int| 0 <= k < d@.len() implies is_digit(#[trigger] d@[k]) by {
            if k < x.len() {
                assert(d@[k] == x[k]);
            } else {
                assert(d@[k] == y[k - x.len()]);
            }
        }
    }
    d
}

/// `parts_reading` of the mantissa digits `d`, `f` of them after the point,
/// the sign, and an exponent read by `read_exponent`.
#[verifier::rlimit(40)]
fn reading_from_parts(d: &Vec<u8>, f: usize, neg: bool, exp_neg: bool, e_acc: u128, e_big: bool, Ghost(ev): Ghost<int>) -> (r: IntReading)
    requires
        all_digits(d@),
        d.len() > 0,
        f <= d.len(),
        ev >= 0,
        !e_big ==> e_acc == ev && e_acc <= EXP_CAP,
        e_big ==> ev > EXP_CAP,
    ensures
        r == parts_reading(DecimalParts {
            neg,
            digits: d@,
            frac_len: f as int,
            exp: if exp_neg { -ev } else { ev },
        }),
{
    let ghost exp: int = if exp_neg { -ev } else { ev };
    let ghost k = exp - f;
    let ghost m = digits_value(d@);
    // The first nonzero digit.
    let mut p: usize = 0;
    while p < d.len() && d[p] == 0x30
        invariant
            p <= d.len(),
            forall|j: int| 0 <= j < p ==> #[trigger] d@[j] == 0x30,
        decreases d.len() - p,
    {
        p = p + 1;
    }
    if p == d.len() {
        proof {
            lemma_digits_zero(d@);
            if k >= 0 {
                assert(0 * pow10(k as nat) == 0);
            } else {
                lemma_pow10_positive((-k) as nat);
                let pk = pow10((-k) as nat) as int;
                vstd::arithmetic::div_mod::lemma_mod_multiples_basic(0, pk);
                vstd::arithmetic::div_mod::lemma_div_multiples_vanish(0, pk);
                assert(0 * pk == 0);
                assert(pk * 0 == 0);
            }
        }
        return IntReading::Int(0);
    }
    // The last nonzero digit.
    let mut q: usize = d.len() - 1;
    while d[q] == 0x30
        invariant
            p <= q < d.len(),
            d@[p as int] != 0x30,
            forall|j: int| q < j < d.len() ==> #[trigger] d@[j] == 0x30,
        decreases q,
    {
        q = q - 1;
    }
    let z: usize = d.len() - 1 - q;
    let nd: usize = q + 1 - p;
    let ghost sv = digits_value(d@.subrange(p as int, q + 1));
    proof {
        lemma_digits_canon(d@, p as int, q as int);
        lemma_pow10_positive((q - p) as nat);
        lemma_scaled_whole(m, sv, z as nat, k);
        lemma_pow10_16();
    }
    if e_big {
        if exp_neg {
            return IntReading::NeedsFloat;
        } else {
            proof {
                lemma_pow10_mono(16, (k + z) as nat);
                assert(sv * pow10((k + z) as nat) >= pow10((k + z) as nat)) by (nonlinear_arith)
                    requires sv >= 1;
            }
            return IntReading::NotInteger;
        }
    }
    let k2: i128 = (if exp_neg { -(e_acc as i128) } else { e_acc as i128 }) - f as i128 + z as i128;
    assert(k2 == k + z);
    if k2 >= 0 {
        // A whole value: `sv` times ten to `k2`.
        if nd as i128 + k2 > 16 {
            proof {
                lemma_pow10_adds((q - p) as nat, (k + z) as nat);
                lemma_pow10_mono(16, ((q - p) + (k + z)) as nat);
                assert(sv * pow10((k + z) as nat) >= pow10((q - p) as nat) * pow10((k + z) as nat))
                    by (nonlinear_arith)
                    requires sv >= pow10((q - p) as nat);
            }
            return IntReading::NotInteger;
        }
        let v = scaled_digits(d, p, q, k2 as u64);
        if v <= MAX_SAFE_INT {
            if neg {
                IntReading::Int(-(v as i64))
            } else {
                IntReading::Int(v as i64)
            }
        } else if v >= MAX_SAFE_INT + 2 {
            IntReading::NotInteger
        } else {
            IntReading::NeedsFloat
        }
    } else {
        // Not whole: decided when `m < 2^53` and the scale is at most 300.
        let j: i128 = z as i128 - k2;
        assert(j == -k);
        if j > 300 {
            return IntReading::NeedsFloat;
        }
        if nd + z > 16 {
            proof {
                lemma_pow10_adds((q - p) as nat, z as nat);
                lemma_pow10_mono(16, ((q - p) + z) as nat);
                assert(sv * pow10(z as nat) >= pow10((q - p) as nat) * pow10(z as nat))
                    by (nonlinear_arith)
                    requires sv >= pow10((q - p) as nat);
            }
            return IntReading::NeedsFloat;
        }
        let mv = scaled_digits(d, p, q, z as u64);
        if mv < MAX_SAFE_INT {
            IntReading::NotInteger
        } else {
            IntReading::NeedsFloat
        }
    }
}

/// The value of the digits `d[p..=q]` times ten to `k`, when that has at most
/// sixteen digits.
fn scaled_digits(d: &Vec<u8>, p: usize, q: usize, k: u64) -> (v: u64)
    requires
        all_digits(d@),
        p <= q < d.len(),
        (q + 1 - p) + k <= 16,
    ensures
        v == digits_value(d@.subrange(p as int, q + 1)) * pow10(k as nat),
{
    let nd: usize = q + 1 - p;
    let mut v: u64 = 0;
    let mut i = p;
    while i <= q
        invariant
            p <= i <= q + 1,
            q < d.len(),
            nd == q + 1 - p,
            nd + k <= 16,
            all_digits(d@),
            v == digits_value(d@.subrange(p as int, i as int)),
            v < pow10((i - p) as nat),
        decreases q + 1 - i,
    {
        proof {
            let pre = d@.subrange(p as int, i as int);
            let nxt = d@.subrange(p as int, i + 1);
            assert(nxt.drop_last() =~= pre);
            assert(nxt.last() == d@[i as int]);
            assert(is_digit(d@[i as int]));
            lemma_pow10_mono((i + 1 - p) as nat, 16);
            lemma_pow10_16();
            assert(pow10((i + 1 - p) as nat) == 10 * pow10((i - p) as nat));
        }
        v = v * 10 + (d[i] - 0x30) as u64;
        i = i + 1;
    }
    let ghost sv = digits_value(d@.subrange(p as int, q + 1));
    assert(pow10(0) == 1);
    assert(v == sv * pow10(0));
    let mut j: u64 = 0;
    while j < k
        invariant
            j <= k,
            nd + k <= 16,
            v == sv * pow10(j as nat),
            v < pow10((nd + j) as nat),
        decreases k - j,
    {
        proof {
            lemma_pow10_mono((nd + j + 1) as nat, 16);
            lemma_pow10_16();
            assert(pow10((nd + j + 1) as nat) == 10 * pow10((nd + j) as nat));
            assert(pow10((j + 1) as nat) == 10 * pow10(j as nat));
            assert(sv * (10 * pow10(j as nat)) == 10 * (sv * pow10(j as nat))) by (nonlinear_arith);
        }
        v = v * 10;
        j = j + 1;
    }
    v
}

/// Reads a number's text as an integer through its exact decimal value (see
/// `parts_reading`): `Int` for a whole value within 2^53, `NotInteger` where
/// the `f64` reading cannot be a whole number within 2^53, `NeedsFloat` where
/// only the rounding of an `f64` decides (as for `1.00000000000000001`,
/// `1e-400` or `9007199254740993`).
pub fn read_decimal(t: &[u8]) -> (r: IntReading)
    ensures
        r == decimal_reading(t@),
{
    let n = t.len();
    let s0: usize = if n > 0 && (t[0] == 0x2d || t[0] == 0x2b) { 1 } else { 0 };
    let a = find_digits_end(t, s0);
    let c: usize = if a < n && t[a] == 0x2e { a + 1 } else { a };
    let b = find_digits_end(t, c);
    let neg = n > 0 && t[0] == 0x2d;
    if (a - s0) + (b - c) == 0 {
        return IntReading::NotInteger;
    }
    let mut exp_neg = false;
    let mut e_acc: u128 = 0;
    let mut e_big = false;
    let ghost mut ev: int = 0;
    if b < n {
        if !(t[b] == 0x65 || t[b] == 0x45) {
            return IntReading::NotInteger;
        }
        let s1 = b + 1;
        exp_neg = s1 < n && t[s1] == 0x2d;
        let s2: usize = if s1 < n && (t[s1] == 0x2d || t[s1] == 0x2b) { s1 + 1 } else { s1 };
        let e = find_digits_end(t, s2);
        if e == s2 || e != n {
            return IntReading::NotInteger;
        }
        let (x, big) = read_exponent(t, s2, e);
        e_acc = x;
        e_big = big;
        proof {
            ev = digits_value(t@.subrange(s2 as int, e as int));
            lemma_digits_value_nonneg(t@.subrange(s2 as int, e as int));
        }
    }
    let d = mantissa_digits(t, s0, a, c, b);
    assert(decimal_parts(t@) == Some(DecimalParts {
        neg,
        digits: d@,
        frac_len: b - c,
        exp: if exp_neg { -ev } else { ev },
    }));
    reading_from_parts(&d, b - c, neg, exp_neg, e_acc, e_big, Ghost(ev))
}

} // verus!
