//! Deciding whether decimal text denotes a number in the unit interval,
//! exactly as `f64::from_str` followed by `(0.0..=1.0).contains(..)` would,
//! but without floating point: the nearest `f64` to a real `x` lies in
//! `[-0.0, 1.0]` exactly when `-2^-1075 <= x <= 1 + 2^-53` (round half to even).

use vstd::prelude::*;
use crate::text::{ascii, is_digit, all_digits, digits_value};

verus! {

/// Verdict on a piece of text read as a floating-point number.
#[derive(Clone, Copy, PartialEq, Eq, Debug)]
pub enum UnitIntervalText {
    /// Not in the grammar of `f64::from_str`.
    NotANumber,
    /// A number (or `inf` / `nan`) whose `f64` lies outside `[0.0, 1.0]`.
    Outside,
    /// A number whose nearest `f64` lies in `[0.0, 1.0]` (`-0.0` included).
    Inside,
}

/// ASCII lower-casing of one byte.
pub open spec fn lower(b: u8) -> u8 {
    if 65 <= b <= 90 { (b + 32) as u8 } else { b }
}

/// `s` spells the lowercase ASCII `word`, ignoring ASCII case.
pub open spec fn matches_word(s: Seq<u8>, word: Seq<u8>) -> bool {
    s.len() == word.len() && forall|i: int| 0 <= i < s.len() ==> lower(#[trigger] s[i]) == word[i]
}

/// `inf`, `infinity` or `nan`, in any case.
pub open spec fn special_word(s: Seq<u8>) -> bool {
    matches_word(s, ascii("inf"@)) || matches_word(s, ascii("infinity"@)) || matches_word(s, ascii("nan"@))
}

/// End of the run of decimal digits starting at `i`.
pub open spec fn digit_run(s: Seq<u8>, i: nat) -> nat
    decreases s.len() - i,
{
    if i < s.len() && is_digit(s[i as int]) { digit_run(s, i + 1) } else { i }
}

/// An unsigned decimal number `( D+ | D+ '.' D* | D* '.' D+ ) ( [eE] [+-]? D+ )?`,
/// as its digits (integer part then fraction) and the power of ten `p` such
/// that its value is `digits_value(digits) * 10^p`.
pub open spec fn decimal_parts(s: Seq<u8>) -> Option<(Seq<u8>, int)> {
    let a = digit_run(s, 0);
    let int_digits = s.subrange(0, a as int);
    let has_dot = a < s.len() && s[a as int] == 46;
    let b: nat = if has_dot { digit_run(s, a + 1) } else { a };
    let frac_digits = if has_dot { s.subrange(a as int + 1, b as int) } else { Seq::<u8>::empty() };
    let digits = int_digits + frac_digits;
    if digits.len() == 0 {
        None
    } else if b == s.len() {
        Some((digits, -(frac_digits.len() as int)))
    } else if s[b as int] == 101 || s[b as int] == 69 {
        let signed = b + 1 < s.len() && (s[b as int + 1] == 43 || s[b as int + 1] == 45);
        let c: nat = if signed { b + 2 } else { b + 1 };
        let d = digit_run(s, c);
        if d > c && d == s.len() {
            let e = digits_value(s.subrange(c as int, d as int)) as int;
            let e_signed = if signed && s[b as int + 1] == 45 { -e } else { e };
            Some((digits, e_signed - frac_digits.len()))
        } else {
            None
        }
    } else {
        None
    }
}

/// `b` to the power `e`.
pub open spec fn power(b: nat, e: nat) -> nat
    decreases e,
{
    if e == 0 { 1 } else { b * power(b, (e - 1) as nat) }
}

/// `a * 10^p <= b * 10^q`.
pub open spec fn scaled_le(a: nat, p: int, b: nat, q: int) -> bool {
    if p >= q {
        a * power(10, (p - q) as nat) <= b
    } else {
        a <= b * power(10, (q - p) as nat)
    }
}

/// The `n` with `2^-1075 = n * 10^-1075`: `5^1075`.
pub open spec fn neg_bound() -> nat {
    power(5, 1075)
}

/// The `n` with `1 + 2^-53 = n * 10^-53`: `(2^53 + 1) * 5^53`.
pub open spec fn pos_bound() -> nat {
    (power(2, 53) + 1) * power(5, 53)
}

/// `(-1)^neg * m * 10^p` rounds to an `f64` in `[-0.0, 1.0]`:
/// zero; a negative value no larger in magnitude than
/// `2^-1075 = 5^1075 * 10^-1075`; or a positive value at most
/// `1 + 2^-53 = (2^53 + 1) * 5^53 * 10^-53`.
pub open spec fn rounds_into_unit(neg: bool, m: nat, p: int) -> bool {
    if m == 0 {
        true
    } else if neg {
        scaled_le(m, p, neg_bound(), -1075)
    } else {
        scaled_le(m, p, pos_bound(), -53)
    }
}

/// What `f64::from_str(s)` followed by a `[0.0, 1.0]` range check decides.
pub open spec fn unit_interval_text(s: Seq<u8>) -> UnitIntervalText {
    let neg = s.len() > 0 && s[0] == 45;
    let rest = if s.len() > 0 && (s[0] == 43 || s[0] == 45) { s.drop_first() } else { s };
    if special_word(rest) {
        UnitIntervalText::Outside
    } else {
        match decimal_parts(rest) {
            None => UnitIntervalText::NotANumber,
            Some((digits, p)) => if rounds_into_unit(neg, digits_value(digits), p) {
                UnitIntervalText::Inside
            } else {
                UnitIntervalText::Outside
            },
        }
    }
}


proof fn lemma_power_adds(b: nat, e1: nat, e2: nat)
    ensures
        power(b, e1 + e2) == power(b, e1) * power(b, e2),
    decreases e1,
{
    if e1 > 0 {
        lemma_power_adds(b, (e1 - 1) as nat, e2);
        assert((e1 + e2 - 1) as nat == ((e1 - 1) as nat + e2) as nat);
        assert(power(b, e1 + e2) == b * power(b, (e1 - 1 + e2) as nat));
        assert(power(b, e1) == b * power(b, (e1 - 1) as nat));
        assert(b * (power(b, (e1 - 1) as nat) * power(b, e2)) == (b * power(b, (e1 - 1) as nat)) * power(b, e2)) by (nonlinear_arith);
    } else {
        assert(power(b, 0) == 1);
    }
}

proof fn lemma_digit_single(c: u8)
    ensures
        digits_value(seq![c]) == (c - 48) as nat,
{
    assert(seq![c].drop_last() =~= Seq::<u8>::empty());
    assert(digits_value(Seq::<u8>::empty()) == 0);
}

proof fn lemma_power_positive(b: nat, e: nat)
    requires
        b > 0,
    ensures
        power(b, e) > 0,
    decreases e,
{
    if e > 0 {
        lemma_power_positive(b, (e - 1) as nat);
        assert(b * power(b, (e - 1) as nat) > 0) by (nonlinear_arith)
            requires b > 0, power(b, (e - 1) as nat) > 0;
    }
}

proof fn lemma_power_le(b: nat, e1: nat, e2: nat)
    requires
        b > 0,
        e1 <= e2,
    ensures
        power(b, e1) <= power(b, e2),
    decreases e2,
{
    if e1 < e2 {
        lemma_power_le(b, e1, (e2 - 1) as nat);
        lemma_power_positive(b, (e2 - 1) as nat);
        assert(power(b, (e2 - 1) as nat) <= b * power(b, (e2 - 1) as nat)) by (nonlinear_arith)
            requires b > 0, power(b, (e2 - 1) as nat) > 0;
    }
}

/// Digits appended after `s` shift its value.
proof fn lemma_digits_append(s: Seq<u8>, t: Seq<u8>)
    ensures
        digits_value(s + t) == digits_value(s) * power(10, t.len()) + digits_value(t),
    decreases t.len(),
{
    if t.len() == 0 {
        assert(s + t =~= s);
        assert(power(10, 0) == 1);
        assert(digits_value(t) == 0);
    } else {
        let t2 = t.drop_last();
        lemma_digits_append(s, t2);
        assert((s + t).drop_last() =~= s + t2);
        assert((s + t).last() == t.last());
        assert(digits_value(s + t) == digits_value(s + t2) * 10 + (t.last() - 48) as nat);
        assert(digits_value(t) == digits_value(t2) * 10 + (t.last() - 48) as nat);
        assert(power(10, t.len()) == 10 * power(10, t2.len()));
        let a = digits_value(s);
        let b = power(10, t2.len());
        let c = digits_value(t2);
        assert((a * b + c) * 10 == a * (10 * b) + c * 10) by (nonlinear_arith);
    }
}

/// A run of `0` digits is worth nothing.
proof fn lemma_digits_zeros(z: Seq<u8>)
    requires
        forall|i: int| 0 <= i < z.len() ==> z[i] == 48,
    ensures
        digits_value(z) == 0,
    decreases z.len(),
{
    if z.len() > 0 {
        lemma_digits_zeros(z.drop_last());
    }
}

/// `k` digits are worth less than `10^k`.
proof fn lemma_digits_upper(s: Seq<u8>)
    requires
        all_digits(s),
    ensures
        digits_value(s) < power(10, s.len()),
    decreases s.len(),
{
    if s.len() > 0 {
        let s2 = s.drop_last();
        lemma_digits_upper(s2);
        assert(is_digit(s[s.len() - 1]));
        let a = digits_value(s2);
        let b = power(10, s2.len());
        assert(a * 10 + 9 < b * 10) by (nonlinear_arith) requires a < b;
    }
}

/// `k` digits without a leading zero are worth at least `10^(k-1)`.
proof fn lemma_digits_lower(s: Seq<u8>)
    requires
        all_digits(s),
        s.len() >= 1,
        s[0] != 48,
    ensures
        digits_value(s) >= power(10, (s.len() - 1) as nat),
    decreases s.len(),
{
    if s.len() == 1 {
        assert(s.drop_last().len() == 0);
        assert(is_digit(s[0]));
    } else {
        let s2 = s.drop_last();
        assert(s2[0] == s[0]);
        lemma_digits_lower(s2);
        let a = digits_value(s2);
        let b = power(10, (s2.len() - 1) as nat);
        assert(a * 10 >= b * 10) by (nonlinear_arith) requires a >= b;
        assert(power(10, (s.len() - 1) as nat) == 10 * b);
    }
}

/// Of two equally long digit strings that agree before `k`, the one with
/// the smaller digit at `k` is worth less.
proof fn lemma_digits_lex(x: Seq<u8>, y: Seq<u8>, k: int)
    requires
        x.len() == y.len(),
        all_digits(x),
        all_digits(y),
        0 <= k < x.len(),
        x.take(k) == y.take(k),
        x[k] < y[k],
    ensures
        digits_value(x) < digits_value(y),
{
    let r = (x.len() - k - 1) as nat;
    let xh = x.take(k + 1);
    let yh = y.take(k + 1);
    let xt = x.skip(k + 1);
    let yt = y.skip(k + 1);
    assert(x =~= xh + xt);
    assert(y =~= yh + yt);
    lemma_digits_append(xh, xt);
    lemma_digits_append(yh, yt);
    assert(xh.drop_last() =~= x.take(k));
    assert(yh.drop_last() =~= y.take(k));
    assert(all_digits(xt)) by { assert forall|i: int| 0 <= i < xt.len() implies is_digit(#[trigger] xt[i]) by { assert(xt[i] == x[k + 1 + i]); } }
    lemma_digits_upper(xt);
    let dx = digits_value(xh);
    let dy = digits_value(yh);
    assert(dx + 1 <= dy);
    let pr = power(10, r);
    let ex = digits_value(xt);
    let ey = digits_value(yt);
    assert(dx * pr + ex < dy * pr + ey) by (nonlinear_arith)
        requires dx + 1 <= dy, ex < pr, ey >= 0;
}

/// Multiply a decimal digit string by a single digit `k`.
fn times_digit(x: &Vec<u8>, k: u8) -> (r: Vec<u8>)
    requires
        all_digits(x@),
        k <= 9,
    ensures
        all_digits(r@),
        digits_value(r@) == digits_value(x@) * k,
        r@.len() >= x@.len(),
{
    let n = x.len();
    let mut r: Vec<u8> = Vec::new();
    let mut carry: u8 = 0;
    let mut i: usize = n;
    assert(x@.skip(n as int) =~= Seq::<u8>::empty());
    assert(r@ =~= Seq::<u8>::empty());
    assert(digits_value(Seq::<u8>::empty()) == 0);
    assert(power(10, 0) == 1);
    while i > 0
        invariant
            0 <= i <= n,
            n == x@.len(),
            all_digits(x@),
            k <= 9,
            carry <= 8,
            all_digits(r@),
            r@.len() == n - i,
            digits_value(r@) + carry * power(10, r@.len()) == digits_value(x@.skip(i as int)) * k,
        decreases i,
    {
        let xi = x[i - 1];
        assert(is_digit(x@[i - 1]));
        let dgt: u8 = xi - 48;
        let prod: u8 = if k == 0 { 0 } else {
            assert(dgt * k <= 81) by (nonlinear_arith) requires dgt <= 9, k <= 9;
            dgt * k
        };
        assert(prod == (xi - 48) * k) by (nonlinear_arith) requires prod == if k == 0 { 0 } else { dgt * k }, dgt == xi - 48;
        let t: u8 = prod + carry;
        let d: u8 = t % 10 + 48;
        let ghost old_r = r@;
        r.insert(0, d);
        carry = t / 10;
        proof {
            assert(r@ =~= seq![d] + old_r);
            lemma_digits_append(seq![d], old_r);
            lemma_digit_single(d);
            assert(x@.skip(i - 1) =~= seq![xi] + x@.skip(i as int));
            lemma_digits_append(seq![xi], x@.skip(i as int));
            lemma_digit_single(xi);
            let pw = power(10, old_r.len());
            assert(power(10, r@.len()) == 10 * pw);
            let dr = digits_value(old_r);
            let c0 = (t - (xi - 48) * k) as int;
            let dx = digits_value(x@.skip(i as int));
            assert((t % 10) * pw + dr + (t / 10) * (10 * pw) == ((xi - 48) * pw + dx) * k) by (nonlinear_arith)
                requires dr + c0 * pw == dx * k, t == (xi - 48) * k + c0;
            assert forall|j: int| 0 <= j < r@.len() implies is_digit(#[trigger] r@[j]) by {
                if j > 0 { assert(r@[j] == old_r[j - 1]); }
            }
        }
        i = i - 1;
    }
    assert(x@.skip(0) =~= x@);
    if carry > 0 {
        let ghost old_r = r@;
        let cd: u8 = carry + 48;
        r.insert(0, cd);
        proof {
            assert(r@ =~= seq![cd] + old_r);
            lemma_digits_append(seq![cd], old_r);
            lemma_digit_single(cd);
            assert forall|j: int| 0 <= j < r@.len() implies is_digit(#[trigger] r@[j]) by {
                if j > 0 { assert(r@[j] == old_r[j - 1]); }
            }
        }
    }
    r
}

/// The decimal digits of `start * 5^n`.
fn times_pow5(start: &Vec<u8>, n: u32) -> (r: Vec<u8>)
    requires
        all_digits(start@),
    ensures
        all_digits(r@),
        digits_value(r@) == digits_value(start@) * power(5, n as nat),
{
    let mut r = times_digit(start, 1);
    let mut i: u32 = 0;
    while i < n
        invariant
            0 <= i <= n,
            all_digits(r@),
            digits_value(r@) == digits_value(start@) * power(5, i as nat),
        decreases n - i,
    {
        r = times_digit(&r, 5);
        proof {
            let a = digits_value(start@);
            let b = power(5, i as nat);
            assert(power(5, (i + 1) as nat) == 5 * b);
            assert(a * b * 5 == a * (5 * b)) by (nonlinear_arith);
        }
        i = i + 1;
    }
    r
}


/// The decimal digits of a `u64`, most significant first (none for zero).
fn u64_digits(v: u64) -> (r: Vec<u8>)
    ensures
        all_digits(r@),
        digits_value(r@) == v,
{
    let mut r: Vec<u8> = Vec::new();
    let mut rest: u64 = v;
    assert(r@ =~= Seq::<u8>::empty());
    assert(power(10, 0) == 1);
    assert(digits_value(r@) == 0);
    while rest > 0
        invariant
            all_digits(r@),
            digits_value(r@) + rest * power(10, r@.len()) == v,
        decreases rest,
    {
        let d: u8 = (rest % 10) as u8 + 48;
        let ghost old_r = r@;
        r.insert(0, d);
        proof {
            assert(r@ =~= seq![d] + old_r);
            lemma_digits_append(seq![d], old_r);
            lemma_digit_single(d);
            let pw = power(10, old_r.len());
            assert(power(10, r@.len()) == 10 * pw);
            assert((rest % 10) * pw + digits_value(old_r) + (rest / 10) * (10 * pw) == digits_value(old_r) + rest * pw) by (nonlinear_arith);
            assert forall|j: int| 0 <= j < r@.len() implies is_digit(#[trigger] r@[j]) by {
                if j > 0 { assert(r@[j] == old_r[j - 1]); }
            }
        }
        rest = rest / 10;
    }
    r
}

/// The digits of `n` without leading zeros: same value; empty exactly when
/// the value is zero; otherwise starting with a non-zero digit.
fn strip_leading_zeros(d: &Vec<u8>) -> (r: Vec<u8>)
    requires
        all_digits(d@),
    ensures
        all_digits(r@),
        digits_value(r@) == digits_value(d@),
        r@.len() <= d@.len(),
        r@.len() == 0 <==> digits_value(d@) == 0,
        r@.len() > 0 ==> r@[0] != 48,
{
    let mut z: usize = 0;
    while z < d.len() && d[z] == 48
        invariant
            0 <= z <= d@.len(),
            forall|k: int| 0 <= k < z ==> d@[k] == 48,
        decreases d@.len() - z,
    {
        z = z + 1;
    }
    let mut r: Vec<u8> = Vec::new();
    let mut k: usize = z;
    while k < d.len()
        invariant
            z <= k <= d@.len(),
            forall|j: int| 0 <= j < z ==> d@[j] == 48,
            r@ == d@.subrange(z as int, k as int),
        decreases d@.len() - k,
    {
        r.push(d[k]);
        proof { assert(r@ =~= d@.subrange(z as int, k + 1)); }
        k = k + 1;
    }
    proof {
        let zs = d@.take(z as int);
        assert(d@ =~= zs + r@);
        lemma_digits_append(zs, r@);
        lemma_digits_zeros(zs);
        assert forall|j: int| 0 <= j < r@.len() implies is_digit(#[trigger] r@[j]) by {
            assert(r@[j] == d@[z + j]);
        }
        if r@.len() > 0 {
            assert(r@[0] == d@[z as int]);
            lemma_digits_lower(r@);
            lemma_power_positive(10, (r@.len() - 1) as nat);
        } else {
            assert(r@ =~= Seq::<u8>::empty());
        }
    }
    r
}

/// Where the digit run starting at `i` ends.
fn run_end(s: &Vec<u8>, i: usize) -> (j: usize)
    requires
        i <= s@.len(),
    ensures
        j == digit_run(s@, i as nat),
        i <= j <= s@.len(),
        forall|k: int| i <= k < j ==> is_digit(#[trigger] s@[k]),
        j < s@.len() ==> !is_digit(s@[j as int]),
{
    let mut j: usize = i;
    while j < s.len() && 48 <= s[j] && s[j] <= 57
        invariant
            i <= j <= s@.len(),
            digit_run(s@, i as nat) == digit_run(s@, j as nat),
            forall|k: int| i <= k < j ==> is_digit(#[trigger] s@[k]),
        decreases s@.len() - j,
    {
        j = j + 1;
    }
    j
}

/// Whether `s` spells `word` ignoring ASCII case.
fn spells(s: &Vec<u8>, word: &[u8]) -> (r: bool)
    ensures
        r == matches_word(s@, word@),
{
    if s.len() != word.len() {
        return false;
    }
    let mut i: usize = 0;
    while i < s.len()
        invariant
            0 <= i <= s@.len(),
            s@.len() == word@.len(),
            forall|k: int| 0 <= k < i ==> lower(#[trigger] s@[k]) == word@[k],
        decreases s@.len() - i,
    {
        let c = s[i];
        let lc = if 65 <= c && c <= 90 { c + 32 } else { c };
        if lc != word[i] {
            return false;
        }
        i = i + 1;
    }
    true
}

fn is_special_word(s: &Vec<u8>) -> (r: bool)
    ensures
        r == special_word(s@),
{
    let inf = "inf";
    let infinity = "infinity";
    let nan = "nan";
    proof {
        reveal_strlit("inf");
        reveal_strlit("infinity");
        reveal_strlit("nan");
    }
    assert(vstd::string::is_ascii(inf));
    assert(vstd::string::is_ascii(infinity));
    assert(vstd::string::is_ascii(nan));
    let w1 = inf.as_bytes();
    let w2 = infinity.as_bytes();
    let w3 = nan.as_bytes();
    assert(w1@ =~= ascii("inf"@));
    assert(w2@ =~= ascii("infinity"@));
    assert(w3@ =~= ascii("nan"@));
    spells(s, w1) || spells(s, w2) || spells(s, w3)
}

/// Exponents beyond this magnitude decide the comparison on their own.
pub const EXPONENT_CAP: u128 = 1_180_591_620_717_411_303_424;

/// The parts of a decimal number as the decision needs them.
struct DecimalParts {
    digits: Vec<u8>,
    frac_len: usize,
    exp_neg: bool,
    /// The exponent's magnitude, when at most `EXPONENT_CAP`.
    exp: u128,
    /// The exponent's magnitude exceeds `EXPONENT_CAP`.
    exp_over: bool,
}

/// Value of the digits `s[c..d]`, or that it exceeds `EXPONENT_CAP`.
fn capped_value(s: &Vec<u8>, c: usize, d: usize) -> (r: (u128, bool))
    requires
        c <= d <= s@.len(),
        forall|k: int| c <= k < d ==> is_digit(#[trigger] s@[k]),
    ensures
        r.1 == (digits_value(s@.subrange(c as int, d as int)) > EXPONENT_CAP),
        !r.1 ==> r.0 == digits_value(s@.subrange(c as int, d as int)),
{
    let ghost full = s@.subrange(c as int, d as int);
    assert(all_digits(full)) by {
        assert forall|k: int| 0 <= k < full.len() implies is_digit(#[trigger] full[k]) by { assert(full[k] == s@[c + k]); }
    }
    let mut acc: u128 = 0;
    let mut i: usize = c;
    assert(full.take(0) =~= Seq::<u8>::empty());
    while i < d
        invariant
            c <= i <= d <= s@.len(),
            full == s@.subrange(c as int, d as int),
            all_digits(full),
            acc <= EXPONENT_CAP,
            acc == digits_value(full.take((i - c) as int)),
        decreases d - i,
    {
        proof {
            assert(full[i - c] == s@[i as int]);
            assert(full.take((i - c) + 1).drop_last() =~= full.take((i - c) as int));
            assert(is_digit(full[i - c]));
        }
        let dg = s[i] - 48;
        acc = acc * 10 + dg as u128;
        i = i + 1;
        if acc > EXPONENT_CAP {
            proof { crate::text::lemma_digits_value_prefix(full, (i - c) as int); }
            return (acc, true);
        }
    }
    assert(full.take((d - c) as int) =~= full);
    (acc, false)
}

/// Parse `( D+ | D+ '.' D* | D* '.' D+ ) ( [eE] [+-]? D+ )?`.
fn parse_decimal(s: &Vec<u8>) -> (r: Option<DecimalParts>)
    ensures
        match decimal_parts(s@) {
            None => r is None,
            Some((ds, p)) => r matches Some(parts) && {
                &&& parts.digits@ == ds
                &&& all_digits(ds)
                &&& parts.frac_len <= s@.len()
                &&& !parts.exp_over ==> parts.exp <= EXPONENT_CAP
                &&& !parts.exp_over ==> p == (if parts.exp_neg { -(parts.exp as int) } else { parts.exp as int }) - parts.frac_len
                &&& parts.exp_over && parts.exp_neg ==> p < -(EXPONENT_CAP as int)
                &&& parts.exp_over && !parts.exp_neg ==> p > EXPONENT_CAP - parts.frac_len
            },
        },
{
    let n = s.len();
    let a = run_end(s, 0);
    let has_dot = a < n && s[a] == 46;
    let b = if has_dot { run_end(s, a + 1) } else { a };
    let mut digits: Vec<u8> = Vec::new();
    let mut k: usize = 0;
    while k < a
        invariant
            0 <= k <= a <= n,
            n == s@.len(),
            forall|j: int| 0 <= j < a ==> is_digit(#[trigger] s@[j]),
            digits@ == s@.subrange(0, k as int),
        decreases a - k,
    {
        digits.push(s[k]);
        proof { assert(digits@ =~= s@.subrange(0, k + 1)); }
        k = k + 1;
    }
    let frac_len: usize = if has_dot { b - a - 1 } else { 0 };
    if has_dot {
        let mut k: usize = a + 1;
        while k < b
            invariant
                a + 1 <= k <= b <= n,
                n == s@.len(),
                digits@ == s@.subrange(0, a as int) + s@.subrange(a + 1, k as int),
            decreases b - k,
        {
            digits.push(s[k]);
            proof { assert(digits@ =~= s@.subrange(0, a as int) + s@.subrange(a + 1, k + 1)); }
            k = k + 1;
        }
    }
    let ghost int_digits = s@.subrange(0, a as int);
    let ghost frac_digits = if has_dot { s@.subrange(a + 1, b as int) } else { Seq::<u8>::empty() };
    proof {
        if !has_dot {
            assert(digits@ =~= int_digits + frac_digits);
        }
        assert(digits@ =~= int_digits + frac_digits);
        assert(all_digits(digits@)) by {
            assert forall|j: int| 0 <= j < digits@.len() implies is_digit(#[trigger] digits@[j]) by {
                if j < a {
                    assert(digits@[j] == s@[j]);
                } else {
                    assert(digits@[j] == s@[j + 1]);
                }
            }
        }
    }
    if digits.len() == 0 {
        return None;
    }
    if b == n {
        return Some(DecimalParts { digits, frac_len, exp_neg: false, exp: 0, exp_over: false });
    }
    if !(s[b] == 101 || s[b] == 69) {
        return None;
    }
    let signed = b + 1 < n && (s[b + 1] == 43 || s[b + 1] == 45);
    let c = if signed { b + 2 } else { b + 1 };
    let d = run_end(s, c);
    if !(d > c && d == n) {
        return None;
    }
    let exp_neg = signed && s[b + 1] == 45;
    let (exp, exp_over) = capped_value(s, c, d);
    Some(DecimalParts { digits, frac_len, exp_neg, exp, exp_over })
}

/// Decide `m * 10^p <= b * 10^q` by orders of magnitude when they differ.
proof fn lemma_scaled_by_magnitude(m: nat, l: nat, p: int, b: nat, lb: nat, q: int)
    requires
        l >= 1,
        lb >= 1,
        power(10, (l - 1) as nat) <= m < power(10, l),
        power(10, (lb - 1) as nat) <= b < power(10, lb),
    ensures
        l + p < lb + q ==> scaled_le(m, p, b, q),
        l + p > lb + q ==> !scaled_le(m, p, b, q),
{
    if p >= q {
        let d = (p - q) as nat;
        let pd = power(10, d);
        lemma_power_positive(10, d);
        if l + p < lb + q {
            lemma_power_adds(10, l, d);
            lemma_power_le(10, l + d, (lb - 1) as nat);
            assert(m * pd < power(10, l) * pd) by (nonlinear_arith) requires m < power(10, l), pd > 0;
        }
        if l + p > lb + q {
            lemma_power_adds(10, (l - 1) as nat, d);
            lemma_power_le(10, lb, ((l - 1) as nat + d) as nat);
            assert(m * pd >= power(10, (l - 1) as nat) * pd) by (nonlinear_arith)
                requires m >= power(10, (l - 1) as nat), pd > 0;
        }
    } else {
        let d = (q - p) as nat;
        let pd = power(10, d);
        lemma_power_positive(10, d);
        if l + p < lb + q {
            lemma_power_le(10, l, ((lb - 1) as nat + d) as nat);
            lemma_power_adds(10, (lb - 1) as nat, d);
            assert(power(10, (lb - 1) as nat) * pd <= b * pd) by (nonlinear_arith)
                requires power(10, (lb - 1) as nat) <= b, pd > 0;
        }
        if l + p > lb + q {
            lemma_power_le(10, lb + d, (l - 1) as nat);
            lemma_power_adds(10, lb, d);
            assert(b * pd < power(10, lb) * pd) by (nonlinear_arith) requires b < power(10, lb), pd > 0;
        }
    }
}

/// With equal orders of magnitude, compare the values padded to a common
/// number of digits `k`.
proof fn lemma_scaled_aligned(m: nat, l: nat, p: int, b: nat, lb: nat, q: int, k: nat)
    requires
        l + p == lb + q,
        k == if l >= lb { l } else { lb },
    ensures
        scaled_le(m, p, b, q) == (m * power(10, (k - l) as nat) <= b * power(10, (k - lb) as nat)),
{
    assert(power(10, 0) == 1);
    if p >= q {
        assert(k == lb);
        assert((p - q) as nat == (k - l) as nat);
        assert((k - lb) as nat == 0);
        assert(b * power(10, (k - lb) as nat) == b);
    } else {
        assert(k == l);
        assert((q - p) as nat == (k - lb) as nat);
        assert((k - l) as nat == 0);
        assert(m * power(10, (k - l) as nat) == m);
    }
}

/// `x` followed by zeros up to `k` digits: `x * 10^(k - |x|)`.
fn pad_zeros(x: &Vec<u8>, k: usize) -> (r: Vec<u8>)
    requires
        all_digits(x@),
        x@.len() <= k,
    ensures
        all_digits(r@),
        r@.len() == k,
        r@.take(x@.len() as int) == x@,
        digits_value(r@) == digits_value(x@) * power(10, (k - x@.len()) as nat),
{
    let mut r: Vec<u8> = Vec::new();
    let mut i: usize = 0;
    while i < x.len()
        invariant
            0 <= i <= x@.len(),
            r@ == x@.take(i as int),
        decreases x@.len() - i,
    {
        r.push(x[i]);
        proof { assert(r@ =~= x@.take(i + 1)); }
        i = i + 1;
    }
    assert(x@.take(x@.len() as int) =~= x@);
    while r.len() < k
        invariant
            x@.len() <= r@.len() <= k,
            r@.take(x@.len() as int) == x@,
            forall|j: int| x@.len() <= j < r@.len() ==> r@[j] == 48,
        decreases k - r@.len(),
    {
        let ghost before = r@;
        r.push(48);
        proof { assert(r@.take(x@.len() as int) =~= before.take(x@.len() as int)); }
    }
    proof {
        let zs = r@.skip(x@.len() as int);
        assert(r@ =~= x@ + zs);
        lemma_digits_append(x@, zs);
        lemma_digits_zeros(zs);
        assert forall|j: int| 0 <= j < r@.len() implies is_digit(#[trigger] r@[j]) by {
            if j < x@.len() {
                assert(r@[j] == x@[j]);
            }
        }
    }
    r
}

/// `digits_value(x) <= digits_value(y)` for digit strings of one length.
fn digits_le(x: &Vec<u8>, y: &Vec<u8>) -> (r: bool)
    requires
        x@.len() == y@.len(),
        all_digits(x@),
        all_digits(y@),
    ensures
        r == (digits_value(x@) <= digits_value(y@)),
{
    let mut i: usize = 0;
    while i < x.len()
        invariant
            0 <= i <= x@.len(),
            x@.len() == y@.len(),
            all_digits(x@),
            all_digits(y@),
            x@.take(i as int) == y@.take(i as int),
        decreases x@.len() - i,
    {
        if x[i] != y[i] {
            proof {
                if x@[i as int] < y@[i as int] {
                    lemma_digits_lex(x@, y@, i as int);
                } else {
                    lemma_digits_lex(y@, x@, i as int);
                }
            }
            return x[i] < y[i];
        }
        proof { assert(x@.take(i + 1) =~= y@.take(i + 1)); }
        i = i + 1;
    }
    assert(x@ =~= x@.take(x@.len() as int));
    assert(y@ =~= y@.take(y@.len() as int));
    true
}

/// The digits of `bound * 10^q`'s `bound`: `5^1075` below zero, `(2^53 + 1) * 5^53` above.
fn bound_digits(neg: bool) -> (r: Vec<u8>)
    ensures
        all_digits(r@),
        digits_value(r@) == if neg { neg_bound() } else { pos_bound() },
{
    if neg {
        let one: Vec<u8> = vec![49u8];
        proof { lemma_digit_single(49u8); assert(one@ =~= seq![49u8]); }
        let r = times_pow5(&one, 1075);
        assert(digits_value(one@) * power(5, 1075) == power(5, 1075));
        r
    } else {
        let start = u64_digits(9_007_199_254_740_993);
        assert(power(2, 53) == 9_007_199_254_740_992) by {
            reveal_with_fuel(power, 54);
        }
        times_pow5(&start, 53)
    }
}

/// Decide whether text denotes a number whose nearest `f64` lies in
/// `[0.0, 1.0]` (`-0.0` included), as `f64::from_str` followed by a range
/// check would: `NotANumber` outside the grammar, `Outside` for `inf`,
/// `nan` and values rounding beyond the interval.
pub fn check_unit_interval(s: &[u8]) -> (r: UnitIntervalText)
    ensures
        r == unit_interval_text(s@),
{
    let neg = s.len() > 0 && s[0] == 45;
    let start: usize = if s.len() > 0 && (s[0] == 43 || s[0] == 45) { 1 } else { 0 };
    let mut rest: Vec<u8> = Vec::new();
    let mut i: usize = start;
    while i < s.len()
        invariant
            start <= i <= s@.len(),
            rest@ == s@.subrange(start as int, i as int),
        decreases s@.len() - i,
    {
        rest.push(s[i]);
        proof { assert(rest@ =~= s@.subrange(start as int, i + 1)); }
        i = i + 1;
    }
    let ghost spec_rest = if s@.len() > 0 && (s@[0] == 43 || s@[0] == 45) { s@.drop_first() } else { s@ };
    assert(rest@ =~= spec_rest);
    if is_special_word(&rest) {
        return UnitIntervalText::Outside;
    }
    let parts = match parse_decimal(&rest) {
        None => return UnitIntervalText::NotANumber,
        Some(p) => p,
    };
    let ghost ds = decimal_parts(rest@)->Some_0.0;
    let ghost p = decimal_parts(rest@)->Some_0.1;
    let m_digits = strip_leading_zeros(&parts.digits);
    if m_digits.len() == 0 {
        return UnitIntervalText::Inside;
    }
    let raw_bound = bound_digits(neg);
    let b_digits = strip_leading_zeros(&raw_bound);
    let ghost bound: nat = if neg { neg_bound() } else { pos_bound() };
    let ghost q: int = if neg { -1075 } else { -53 };
    let ghost m = digits_value(ds);
    proof {
        lemma_power_positive(5, 1075);
        lemma_power_positive(5, 53);
        lemma_power_positive(2, 53);
        assert(pos_bound() > 0) by (nonlinear_arith)
            requires power(2, 53) > 0, power(5, 53) > 0, pos_bound() == (power(2, 53) + 1) * power(5, 53);
        assert(b_digits@.len() > 0);
        lemma_digits_lower(m_digits@);
        lemma_digits_upper(m_digits@);
        lemma_digits_lower(b_digits@);
        lemma_digits_upper(b_digits@);
    }
    let l = m_digits.len();
    let lb = b_digits.len();
    if parts.exp_over {
        proof {
            lemma_scaled_by_magnitude(m, l as nat, p, bound, lb as nat, q);
        }
        return if parts.exp_neg { UnitIntervalText::Inside } else { UnitIntervalText::Outside };
    }
    let e: i128 = if parts.exp_neg { -(parts.exp as i128) } else { parts.exp as i128 };
    let mag: i128 = l as i128 + e - parts.frac_len as i128;
    let mag_b: i128 = if neg { lb as i128 - 1075 } else { lb as i128 - 53 };
    proof {
        lemma_scaled_by_magnitude(m, l as nat, p, bound, lb as nat, q);
    }
    if mag < mag_b {
        return UnitIntervalText::Inside;
    }
    if mag > mag_b {
        return UnitIntervalText::Outside;
    }
    let k = if l >= lb { l } else { lb };
    let xs = pad_zeros(&m_digits, k);
    let ys = pad_zeros(&b_digits, k);
    proof {
        lemma_scaled_aligned(m, l as nat, p, bound, lb as nat, q, k as nat);
    }
    if digits_le(&xs, &ys) {
        UnitIntervalText::Inside
    } else {
        UnitIntervalText::Outside
    }
}


proof fn lemma_power_product(a: nat, b: nat, e: nat)
    ensures
        power(a * b, e) == power(a, e) * power(b, e),
    decreases e,
{
    let ab: nat = a * b;
    if e > 0 {
        lemma_power_product(a, b, (e - 1) as nat);
        let pa = power(a, (e - 1) as nat);
        let pb = power(b, (e - 1) as nat);
        assert(power(ab, e) == ab * power(ab, (e - 1) as nat));
        assert(power(ab, (e - 1) as nat) == pa * pb);
        assert(power(a, e) == a * pa);
        assert(power(b, e) == b * pb);
        assert(ab * (pa * pb) == (a * pa) * (b * pb)) by (nonlinear_arith) requires ab == a * b;
    } else {
        assert(power(ab, 0) == 1 && power(a, 0) == 1 && power(b, 0) == 1);
    }
}

proof fn lemma_digit_run_all(s: Seq<u8>, i: nat)
    requires
        all_digits(s),
        i <= s.len(),
    ensures
        digit_run(s, i) == s.len(),
    decreases s.len() - i,
{
    if i < s.len() {
        assert(is_digit(s[i as int]));
        lemma_digit_run_all(s, i + 1);
    }
}

/// A digit string is no special word (`inf`, `infinity`, `nan`).
proof fn lemma_digits_not_special(s: Seq<u8>)
    requires
        all_digits(s),
        s.len() > 0,
    ensures
        !special_word(s),
{
    reveal_strlit("inf");
    reveal_strlit("infinity");
    reveal_strlit("nan");
    assert(is_digit(s[0]));
    assert(lower(s[0]) == s[0]);
    assert(ascii("inf"@)[0] == 105u8);
    assert(ascii("infinity"@)[0] == 105u8);
    assert(ascii("nan"@)[0] == 110u8);
}

/// Whole numbers against the unit interval: plain decimal digits denote a
/// number inside `[0, 1]` exactly when their value is 0 or 1, and behind a
/// minus sign exactly when it is 0 (`-0` is `-0.0`); a leading `+` changes
/// nothing.
pub proof fn law_unit_interval_integers(d: Seq<u8>)
    requires
        d.len() > 0,
        all_digits(d),
    ensures
        unit_interval_text(d) == UnitIntervalText::Inside <==> digits_value(d) <= 1,
        unit_interval_text(d) != UnitIntervalText::NotANumber,
        unit_interval_text(seq![43u8] + d) == unit_interval_text(d),
        unit_interval_text(seq![45u8] + d) == UnitIntervalText::Inside <==> digits_value(d) == 0,
{
    lemma_digits_not_special(d);
    lemma_digit_run_all(d, 0);
    assert(d.subrange(0, d.len() as int) =~= d);
    assert(d + Seq::<u8>::empty() =~= d);
    assert(decimal_parts(d) == Some((d, 0int)));
    let plus = seq![43u8] + d;
    let minus = seq![45u8] + d;
    assert(plus.drop_first() =~= d);
    assert(minus.drop_first() =~= d);
    assert(plus[0] == 43u8);
    assert(minus[0] == 45u8);
    let m = digits_value(d);
    let p2 = power(2, 53);
    let p5 = power(5, 53);
    lemma_power_product(2, 5, 53);
    lemma_power_positive(5, 53);
    lemma_power_le(2, 1, 53);
    assert(power(2, 1) == 2) by { assert(power(2, 0) == 1); }
    assert(power(10, 53) == p2 * p5);
    if m > 0 {
        assert(scaled_le(m, 0, pos_bound(), -53) == (m * power(10, 53) <= pos_bound()));
        assert((m * (p2 * p5) <= (p2 + 1) * p5) <==> m <= 1) by (nonlinear_arith)
            requires p5 > 0, p2 >= 2, m > 0;
        let q2 = power(2, 1075);
        let q5 = power(5, 1075);
        lemma_power_product(2, 5, 1075);
        lemma_power_positive(5, 1075);
        lemma_power_le(2, 1, 1075);
        assert(scaled_le(m, 0, neg_bound(), -1075) == (m * power(10, 1075) <= q5));
        assert(!(m * (q2 * q5) <= q5)) by (nonlinear_arith)
            requires q5 > 0, q2 >= 2, m > 0;
    }
}

} // verus!
