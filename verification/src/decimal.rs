//! Exact decimal numbers for descriptor values.
//!
//! A descriptor number is written with ASCII digits and at most one decimal
//! point (`2`, `2.4`, `100`). `Decimal` keeps such a number exactly, as its
//! integer digits and its fractional digits in canonical form: no leading
//! zeros before the point, no trailing zeros after it. A token that is not a
//! well-formed number (more than one point, or no digit at all) degrades to
//! zero, mirroring the parser's policy of never failing.

use core::cmp::Ordering;
use vstd::prelude::*;

use crate::chars::is_digit;
use crate::chars::is_num_char;
use crate::chars::digit_val;
use crate::chars::digit_char;

verus! {

/// The mathematical content of a `Decimal`: the digits before and after the
/// decimal point. The value stood for is
/// `digits_val(int_digits) + digits_val(frac_digits) / pow10(frac_digits.len())`.
pub struct DecView {
    pub int_digits: Seq<char>,
    pub frac_digits: Seq<char>,
}

/// A non-negative decimal number, kept exactly.
#[derive(Debug)]
pub struct Decimal {
    int_part: Vec<char>,
    frac_part: Vec<char>,
}

impl View for Decimal {
    type V = DecView;

    closed spec fn view(&self) -> DecView {
        DecView { int_digits: self.int_part@, frac_digits: self.frac_part@ }
    }
}

impl DeepView for Decimal {
    type V = DecView;

    open spec fn deep_view(&self) -> DecView {
        self.view()
    }
}

/// Canonical form: digits only, no leading zero in the integer part, no
/// trailing zero in the fractional part.
pub open spec fn dec_canonical(d: DecView) -> bool {
    &&& forall|j: int| 0 <= j < d.int_digits.len() ==> is_digit(#[trigger] d.int_digits[j])
    &&& forall|j: int| 0 <= j < d.frac_digits.len() ==> is_digit(#[trigger] d.frac_digits[j])
    &&& d.int_digits.len() > 0 ==> digit_val(d.int_digits[0]) != 0
    &&& d.frac_digits.len() > 0 ==> digit_val(d.frac_digits[d.frac_digits.len() - 1]) != 0
}

impl Decimal {
    #[verifier::type_invariant]
    pub closed spec fn wf(self) -> bool {
        dec_canonical(self@)
    }
}

/// The number written by a sequence of digit characters, read in base ten;
/// the empty sequence writes zero.
pub open spec fn digits_val(s: Seq<char>) -> int
    decreases s.len(),
{
    if s.len() == 0 {
        0
    } else {
        digits_val(s.drop_last()) * 10 + digit_val(s.last())
    }
}

/// Ten to the `k`-th power.
pub open spec fn pow10(k: nat) -> int
    decreases k,
{
    if k == 0 {
        1
    } else {
        10 * pow10((k - 1) as nat)
    }
}

/// The value of `d` scaled by `pow10(k)`, an integer whenever `k` is at least
/// the number of fractional digits.
pub open spec fn dec_scaled(d: DecView, k: nat) -> int
    recommends
        d.frac_digits.len() <= k,
{
    digits_val(d.int_digits) * pow10(k) + digits_val(d.frac_digits) * pow10(
        (k - d.frac_digits.len()) as nat,
    )
}

/// Numeric order on decimals: both sides scaled to a common power of ten.
pub open spec fn dec_lt(x: DecView, y: DecView) -> bool {
    let k = if x.frac_digits.len() >= y.frac_digits.len() {
        x.frac_digits.len()
    } else {
        y.frac_digits.len()
    };
    dec_scaled(x, k) < dec_scaled(y, k)
}

/// Numeric equality on decimals.
pub open spec fn dec_eq_val(x: DecView, y: DecView) -> bool {
    let k = if x.frac_digits.len() >= y.frac_digits.len() {
        x.frac_digits.len()
    } else {
        y.frac_digits.len()
    };
    dec_scaled(x, k) == dec_scaled(y, k)
}

/// The numeric comparison of two decimals, as an `Ordering`.
pub open spec fn dec_ord(x: DecView, y: DecView) -> core::cmp::Ordering {
    if dec_lt(x, y) {
        core::cmp::Ordering::Less
    } else if dec_lt(y, x) {
        core::cmp::Ordering::Greater
    } else {
        core::cmp::Ordering::Equal
    }
}

pub proof fn lemma_pow10_pos(k: nat)
    ensures
        pow10(k) >= 1,
    decreases k,
{
    if k > 0 {
        lemma_pow10_pos((k - 1) as nat);
    }
}

pub proof fn lemma_pow10_mono(a: nat, b: nat)
    requires
        a <= b,
    ensures
        pow10(a) <= pow10(b),
    decreases b,
{
    if a < b {
        lemma_pow10_mono(a, (b - 1) as nat);
        lemma_pow10_pos((b - 1) as nat);
    }
}

pub proof fn lemma_pow10_add(a: nat, b: nat)
    ensures
        pow10(a + b) == pow10(a) * pow10(b),
    decreases a,
{
    if a == 0 {
    } else {
        lemma_pow10_add((a - 1) as nat, b);
        assert(pow10(a + b) == 10 * pow10((a - 1) as nat + b));
        assert(10 * (pow10((a - 1) as nat) * pow10(b)) == (10 * pow10((a - 1) as nat)) * pow10(
            b,
        )) by (nonlinear_arith);
    }
}

/// A sequence of digits writes a value below `pow10` of its length.
pub proof fn lemma_digits_val_bound(s: Seq<char>)
    requires
        forall|j: int| 0 <= j < s.len() ==> is_digit(#[trigger] s[j]),
    ensures
        0 <= digits_val(s) < pow10(s.len()),
    decreases s.len(),
{
    if s.len() > 0 {
        lemma_digits_val_bound(s.drop_last());
        assert(digit_val(s.last()) <= 9);
        assert(pow10(s.len()) == 10 * pow10((s.len() - 1) as nat));
    }
}

/// A digit sequence with no leading zero writes at least `pow10(len - 1)`.
pub proof fn lemma_digits_val_lower(s: Seq<char>)
    requires
        s.len() > 0,
        digit_val(s[0]) != 0,
        forall|j: int| 0 <= j < s.len() ==> is_digit(#[trigger] s[j]),
    ensures
        digits_val(s) >= pow10((s.len() - 1) as nat),
    decreases s.len(),
{
    if s.len() == 1 {
        assert(digits_val(s.drop_last()) == 0);
        assert(s.last() == s[0]);
        assert(digit_val(s[0]) >= 1);
        assert(digits_val(s) >= 1);
    } else {
        assert(s.drop_last()[0] == s[0]);
        lemma_digits_val_lower(s.drop_last());
        assert(is_digit(s.last()));
        assert(digit_val(s.last()) >= 0);
        assert(digits_val(s) >= digits_val(s.drop_last()) * 10);
        assert(pow10((s.len() - 1) as nat) == 10 * pow10((s.len() - 2) as nat));
    }
}

/// Concatenation of digit strings: the left part is shifted by the length of
/// the right part.
pub proof fn lemma_digits_val_concat(u: Seq<char>, v: Seq<char>)
    ensures
        digits_val(u + v) == digits_val(u) * pow10(v.len()) + digits_val(v),
    decreases v.len(),
{
    if v.len() == 0 {
        assert(u + v =~= u);
    } else {
        lemma_digits_val_concat(u, v.drop_last());
        assert((u + v).drop_last() =~= u + v.drop_last());
        assert((u + v).last() == v.last());
        assert(pow10(v.len()) == 10 * pow10((v.len() - 1) as nat));
        assert((digits_val(u) * pow10((v.len() - 1) as nat) + digits_val(v.drop_last())) * 10
            == digits_val(u) * (10 * pow10((v.len() - 1) as nat)) + digits_val(v.drop_last()) * 10)
            by (nonlinear_arith);
    }
}

/// The fractional digits of a decimal, scaled so that `k` digits would stand
/// after the point.
pub open spec fn frac_scaled(f: Seq<char>, k: nat) -> int
    recommends
        f.len() <= k,
{
    digits_val(f) * pow10((k - f.len()) as nat)
}

/// Index of the first decimal point in a token, or its length if none occurs.
pub open spec fn dot_pos(t: Seq<char>) -> int
    decreases t.len(),
{
    if t.len() == 0 {
        0
    } else if t[0] == '.' {
        0
    } else {
        1 + dot_pos(t.drop_first())
    }
}

/// A token writes a well-formed number when it has at least one digit, only
/// digits and points, and at most one point.
pub open spec fn wf_token(t: Seq<char>) -> bool {
    &&& t.len() > 0
    &&& forall|j: int| 0 <= j < t.len() ==> is_num_char(#[trigger] t[j])
    &&& exists|j: int| 0 <= j < t.len() && is_digit(#[trigger] t[j])
    &&& forall|j: int| dot_pos(t) < j < t.len() ==> #[trigger] t[j] != '.'
}

/// The digits before the decimal point.
pub open spec fn int_raw(t: Seq<char>) -> Seq<char> {
    t.take(dot_pos(t))
}

/// The digits after the decimal point.
pub open spec fn frac_raw(t: Seq<char>) -> Seq<char> {
    if dot_pos(t) < t.len() {
        t.skip(dot_pos(t) + 1)
    } else {
        Seq::empty()
    }
}

/// Leading zeros removed.
pub open spec fn strip_lead(s: Seq<char>) -> Seq<char>
    decreases s.len(),
{
    if s.len() > 0 && digit_val(s[0]) == 0 {
        strip_lead(s.drop_first())
    } else {
        s
    }
}

/// Trailing zeros removed.
pub open spec fn strip_trail(s: Seq<char>) -> Seq<char>
    decreases s.len(),
{
    if s.len() > 0 && digit_val(s.last()) == 0 {
        strip_trail(s.drop_last())
    } else {
        s
    }
}

/// The decimal written by a numeric descriptor token. A malformed token (no
/// digit, or a second decimal point) degrades to zero rather than to an
/// error, as the parser never fails.
pub open spec fn token_to_dec(t: Seq<char>) -> DecView {
    if wf_token(t) {
        DecView { int_digits: strip_lead(int_raw(t)), frac_digits: strip_trail(frac_raw(t)) }
    } else {
        DecView { int_digits: Seq::empty(), frac_digits: Seq::empty() }
    }
}

pub proof fn lemma_dot_pos(t: Seq<char>)
    ensures
        0 <= dot_pos(t) <= t.len(),
        dot_pos(t) < t.len() ==> t[dot_pos(t)] == '.',
        forall|j: int| 0 <= j < dot_pos(t) ==> t[j] != '.',
    decreases t.len(),
{
    if t.len() > 0 && t[0] != '.' {
        lemma_dot_pos(t.drop_first());
        assert forall|j: int| 0 <= j < dot_pos(t) implies t[j] != '.' by {
            if j > 0 {
                assert(t.drop_first()[j - 1] == t[j]);
            }
        }
        if dot_pos(t) < t.len() {
            assert(t.drop_first()[dot_pos(t) - 1] == t[dot_pos(t)]);
        }
    }
}

pub proof fn lemma_strip_lead_skip(s: Seq<char>, k: int)
    requires
        0 <= k <= s.len(),
        forall|j: int| 0 <= j < k ==> digit_val(#[trigger] s[j]) == 0,
        k < s.len() ==> digit_val(s[k]) != 0,
    ensures
        strip_lead(s) == s.skip(k),
    decreases k,
{
    if k == 0 {
        assert(s.skip(0) =~= s);
    } else {
        lemma_strip_lead_skip(s.drop_first(), k - 1);
        assert(s.drop_first().skip(k - 1) =~= s.skip(k));
    }
}

pub proof fn lemma_strip_trail_take(s: Seq<char>, k: int)
    requires
        0 <= k <= s.len(),
        forall|j: int| k <= j < s.len() ==> digit_val(#[trigger] s[j]) == 0,
        k > 0 ==> digit_val(s[k - 1]) != 0,
    ensures
        strip_trail(s) == s.take(k),
    decreases s.len(),
{
    if s.len() > k {
        lemma_strip_trail_take(s.drop_last(), k);
        assert(s.drop_last().take(k) =~= s.take(k));
    } else {
        assert(s.take(k) =~= s);
    }
}

/// A run of zero digits writes zero.
pub proof fn lemma_digits_val_zeros(s: Seq<char>)
    requires
        forall|j: int| 0 <= j < s.len() ==> digit_val(#[trigger] s[j]) == 0,
    ensures
        digits_val(s) == 0,
    decreases s.len(),
{
    if s.len() > 0 {
        lemma_digits_val_zeros(s.drop_last());
    }
}

/// Strings of equal length writing digits of equal value write equal numbers.
pub proof fn lemma_digits_val_congruent(s: Seq<char>, t: Seq<char>)
    requires
        s.len() == t.len(),
        forall|i: int| 0 <= i < s.len() ==> digit_val(#[trigger] s[i]) == digit_val(t[i]),
    ensures
        digits_val(s) == digits_val(t),
    decreases s.len(),
{
    if s.len() > 0 {
        lemma_digits_val_congruent(s.drop_last(), t.drop_last());
    }
}

/// Digit strings of equal length compare as their first differing digit.
pub proof fn lemma_digits_val_lex(s: Seq<char>, t: Seq<char>, j: int)
    requires
        s.len() == t.len(),
        0 <= j < s.len(),
        forall|i: int| 0 <= i < j ==> digit_val(#[trigger] s[i]) == digit_val(t[i]),
        digit_val(s[j]) < digit_val(t[j]),
        forall|i: int| 0 <= i < s.len() ==> is_digit(#[trigger] s[i]),
        forall|i: int| 0 <= i < t.len() ==> is_digit(#[trigger] t[i]),
    ensures
        digits_val(s) < digits_val(t),
{
    let n = s.len() as int;
    let m = (n - j - 1) as nat;
    assert(s =~= s.take(j + 1) + s.skip(j + 1));
    assert(t =~= t.take(j + 1) + t.skip(j + 1));
    lemma_digits_val_concat(s.take(j + 1), s.skip(j + 1));
    lemma_digits_val_concat(t.take(j + 1), t.skip(j + 1));
    assert(s.take(j + 1).drop_last() =~= s.take(j));
    assert(t.take(j + 1).drop_last() =~= t.take(j));
    lemma_digits_val_congruent(s.take(j), t.take(j));
    assert(digits_val(s.take(j + 1)) == digits_val(s.take(j)) * 10 + digit_val(s[j]));
    assert(digits_val(t.take(j + 1)) == digits_val(t.take(j)) * 10 + digit_val(t[j]));
    assert(digits_val(s.take(j + 1)) + 1 <= digits_val(t.take(j + 1)));
    assert(forall|i: int| 0 <= i < s.skip(j + 1).len() ==> is_digit(#[trigger] s.skip(j + 1)[i]));
    assert(forall|i: int| 0 <= i < t.skip(j + 1).len() ==> is_digit(#[trigger] t.skip(j + 1)[i]));
    lemma_digits_val_bound(s.skip(j + 1));
    lemma_digits_val_bound(t.skip(j + 1));
    let a = digits_val(s.take(j + 1));
    let b = digits_val(t.take(j + 1));
    assert(a * pow10(m) + digits_val(s.skip(j + 1)) < b * pow10(m) + digits_val(t.skip(j + 1)))
        by (nonlinear_arith)
        requires
            a + 1 <= b,
            0 <= digits_val(s.skip(j + 1)) < pow10(m),
            0 <= digits_val(t.skip(j + 1)),
            pow10(m) >= 1,
    {
    }
    lemma_pow10_pos(m);
}

/// The scaled fractional part is non-negative and below `pow10(k)`.
pub proof fn lemma_frac_scaled_bound(f: Seq<char>, k: nat)
    requires
        f.len() <= k,
        forall|j: int| 0 <= j < f.len() ==> is_digit(#[trigger] f[j]),
    ensures
        0 <= frac_scaled(f, k) < pow10(k),
{
    lemma_digits_val_bound(f);
    lemma_pow10_pos((k - f.len()) as nat);
    assert(digits_val(f) * pow10((k - f.len()) as nat) < pow10(f.len()) * pow10(
        (k - f.len()) as nat,
    )) by (nonlinear_arith)
        requires
            digits_val(f) < pow10(f.len()),
            pow10((k - f.len()) as nat) >= 1,
    {
    }
    assert(digits_val(f) * pow10((k - f.len()) as nat) >= 0) by (nonlinear_arith)
        requires
            digits_val(f) >= 0,
            pow10((k - f.len()) as nat) >= 1,
    {
    }
    lemma_pow10_add(f.len(), (k - f.len()) as nat);
}

/// Rescaling: the value scaled to more digits is the value scaled to fewer,
/// times the matching power of ten.
pub proof fn lemma_dec_scaled_rescale(d: DecView, k1: nat, k2: nat)
    requires
        d.frac_digits.len() <= k1 <= k2,
    ensures
        dec_scaled(d, k2) == dec_scaled(d, k1) * pow10((k2 - k1) as nat),
{
    let lf = d.frac_digits.len();
    let iv = digits_val(d.int_digits);
    let fv = digits_val(d.frac_digits);
    lemma_pow10_add((k1 - lf) as nat, (k2 - k1) as nat);
    lemma_pow10_add(k1, (k2 - k1) as nat);
    assert((iv * pow10(k1) + fv * pow10((k1 - lf) as nat)) * pow10((k2 - k1) as nat) == iv * (
    pow10(k1) * pow10((k2 - k1) as nat)) + fv * (pow10((k1 - lf) as nat) * pow10(
        (k2 - k1) as nat,
    ))) by (nonlinear_arith);
}

/// The numeric order of two decimals reads off at any common scale.
pub proof fn lemma_dec_lt_common(x: DecView, y: DecView, k: nat)
    requires
        x.frac_digits.len() <= k,
        y.frac_digits.len() <= k,
    ensures
        dec_lt(x, y) <==> dec_scaled(x, k) < dec_scaled(y, k),
{
    let m = if x.frac_digits.len() >= y.frac_digits.len() {
        x.frac_digits.len()
    } else {
        y.frac_digits.len()
    };
    lemma_dec_scaled_rescale(x, m, k);
    lemma_dec_scaled_rescale(y, m, k);
    lemma_pow10_pos((k - m) as nat);
    assert(dec_scaled(x, m) < dec_scaled(y, m) <==> dec_scaled(x, m) * pow10((k - m) as nat)
        < dec_scaled(y, m) * pow10((k - m) as nat)) by (nonlinear_arith)
        requires
            pow10((k - m) as nat) >= 1,
    {
    }
}

/// The numeric order on decimals is a strict order: irreflexive, asymmetric
/// and transitive.
pub proof fn lemma_dec_lt_strict(x: DecView, y: DecView, z: DecView)
    ensures
        !dec_lt(x, x),
        dec_lt(x, y) ==> !dec_lt(y, x),
        dec_lt(x, y) && dec_lt(y, z) ==> dec_lt(x, z),
{
    let k = if x.frac_digits.len() >= y.frac_digits.len() {
        if x.frac_digits.len() >= z.frac_digits.len() {
            x.frac_digits.len()
        } else {
            z.frac_digits.len()
        }
    } else {
        if y.frac_digits.len() >= z.frac_digits.len() {
            y.frac_digits.len()
        } else {
            z.frac_digits.len()
        }
    };
    lemma_dec_lt_common(x, y, k);
    lemma_dec_lt_common(y, x, k);
    lemma_dec_lt_common(y, z, k);
    lemma_dec_lt_common(x, z, k);
    lemma_dec_lt_common(x, x, k);
}

/// The longer of two fractional digit strings.
pub open spec fn frac_max_len(a: Seq<char>, b: Seq<char>) -> nat {
    if a.len() >= b.len() {
        a.len()
    } else {
        b.len()
    }
}

/// Decides whether a digit character writes zero.
fn zero_digit(c: char) -> (b: bool)
    ensures
        b == (digit_val(c) == 0),
{
    c as u32 == 48
}

fn cmp_int_digits(x: &Vec<char>, y: &Vec<char>) -> (r: Ordering)
    requires
        forall|j: int| 0 <= j < x@.len() ==> is_digit(#[trigger] x@[j]),
        forall|j: int| 0 <= j < y@.len() ==> is_digit(#[trigger] y@[j]),
        x@.len() > 0 ==> digit_val(x@[0]) != 0,
        y@.len() > 0 ==> digit_val(y@[0]) != 0,
    ensures
        (r == Ordering::Less) == (digits_val(x@) < digits_val(y@)),
        (r == Ordering::Greater) == (digits_val(x@) > digits_val(y@)),
        (r == Ordering::Equal) == (digits_val(x@) == digits_val(y@)),
{
    if x.len() < y.len() {
        proof {
            lemma_digits_val_bound(x@);
            lemma_digits_val_lower(y@);
            lemma_pow10_mono(x@.len(), (y@.len() - 1) as nat);
        }
        Ordering::Less
    } else if y.len() < x.len() {
        proof {
            lemma_digits_val_bound(y@);
            lemma_digits_val_lower(x@);
            lemma_pow10_mono(y@.len(), (x@.len() - 1) as nat);
        }
        Ordering::Greater
    } else {
        let n = x.len();
        let mut j: usize = 0;
        while j < n
            invariant
                n == x@.len(),
                n == y@.len(),
                0 <= j <= n,
                forall|i: int| 0 <= i < j ==> digit_val(#[trigger] x@[i]) == digit_val(y@[i]),
                forall|i: int| 0 <= i < x@.len() ==> is_digit(#[trigger] x@[i]),
                forall|i: int| 0 <= i < y@.len() ==> is_digit(#[trigger] y@[i]),
            decreases n - j,
        {
            let ux = x[j] as u32;
            let uy = y[j] as u32;
            if ux < uy {
                proof {
                    lemma_digits_val_lex(x@, y@, j as int);
                }
                return Ordering::Less;
            }
            if uy < ux {
                proof {
                    lemma_digits_val_lex(y@, x@, j as int);
                }
                return Ordering::Greater;
            }
            j += 1;
        }
        proof {
            lemma_digits_val_congruent(x@, y@);
        }
        Ordering::Equal
    }
}

fn cmp_frac_digits(x: &Vec<char>, y: &Vec<char>) -> (r: Ordering)
    requires
        forall|j: int| 0 <= j < x@.len() ==> is_digit(#[trigger] x@[j]),
        forall|j: int| 0 <= j < y@.len() ==> is_digit(#[trigger] y@[j]),
    ensures
        (r == Ordering::Less) == (frac_scaled(x@, frac_max_len(x@, y@)) < frac_scaled(
            y@,
            frac_max_len(x@, y@),
        )),
        (r == Ordering::Greater) == (frac_scaled(x@, frac_max_len(x@, y@)) > frac_scaled(
            y@,
            frac_max_len(x@, y@),
        )),
        (r == Ordering::Equal) == (frac_scaled(x@, frac_max_len(x@, y@)) == frac_scaled(
            y@,
            frac_max_len(x@, y@),
        )),
{
    let n = if x.len() >= y.len() {
        x.len()
    } else {
        y.len()
    };
    let ghost k = frac_max_len(x@, y@);
    let ghost px = Seq::new(k, |i: int| if i < x@.len() { x@[i] } else { '0' });
    let ghost py = Seq::new(k, |i: int| if i < y@.len() { y@[i] } else { '0' });
    proof {
        assert(px =~= x@ + Seq::new((k - x@.len()) as nat, |i: int| '0'));
        assert(py =~= y@ + Seq::new((k - y@.len()) as nat, |i: int| '0'));
        lemma_digits_val_concat(x@, Seq::new((k - x@.len()) as nat, |i: int| '0'));
        lemma_digits_val_concat(y@, Seq::new((k - y@.len()) as nat, |i: int| '0'));
        lemma_digits_val_zeros(Seq::new((k - x@.len()) as nat, |i: int| '0'));
        lemma_digits_val_zeros(Seq::new((k - y@.len()) as nat, |i: int| '0'));
        assert(digits_val(px) == frac_scaled(x@, k));
        assert(digits_val(py) == frac_scaled(y@, k));
        assert(forall|i: int| 0 <= i < k ==> is_digit(#[trigger] px[i]));
        assert(forall|i: int| 0 <= i < k ==> is_digit(#[trigger] py[i]));
    }
    let mut j: usize = 0;
    while j < n
        invariant
            0 <= j <= n,
            n == k,
            k == frac_max_len(x@, y@),
            px == Seq::new(k, |i: int| if i < x@.len() { x@[i] } else { '0' }),
            py == Seq::new(k, |i: int| if i < y@.len() { y@[i] } else { '0' }),
            x@.len() <= n,
            y@.len() <= n,
            digits_val(px) == frac_scaled(x@, k),
            digits_val(py) == frac_scaled(y@, k),
            forall|i: int| 0 <= i < j ==> digit_val(#[trigger] px[i]) == digit_val(py[i]),
            forall|i: int| 0 <= i < k ==> is_digit(#[trigger] px[i]),
            forall|i: int| 0 <= i < k ==> is_digit(#[trigger] py[i]),
        decreases n - j,
    {
        let ux = if j < x.len() {
            x[j] as u32
        } else {
            48
        };
        let uy = if j < y.len() {
            y[j] as u32
        } else {
            48
        };
        proof {
            assert(digit_val(px[j as int]) == ux - 48);
            assert(digit_val(py[j as int]) == uy - 48);
        }
        if ux < uy {
            proof {
                lemma_digits_val_lex(px, py, j as int);
            }
            return Ordering::Less;
        }
        if uy < ux {
            proof {
                lemma_digits_val_lex(py, px, j as int);
            }
            return Ordering::Greater;
        }
        j += 1;
    }
    proof {
        lemma_digits_val_congruent(px, py);
    }
    Ordering::Equal
}

impl Decimal {
    /// The decimal written by the token `v[a..b]`; what is not a well-formed
    /// number degrades to zero.
    pub fn from_chars(v: &Vec<char>, a: usize, b: usize) -> (d: Decimal)
        requires
            a <= b <= v@.len(),
        ensures
            d@ == token_to_dec(v@.subrange(a as int, b as int)),
    {
        let ghost t = v@.subrange(a as int, b as int);
        let mut dp = a;
        while dp < b && v[dp] != '.'
            invariant
                a <= dp <= b <= v@.len(),
                t == v@.subrange(a as int, b as int),
                forall|i: int| 0 <= i < dp - a ==> t[i] != '.',
            decreases b - dp,
        {
            dp += 1;
        }
        proof {
            lemma_dot_pos(t);
            if dot_pos(t) < dp - a {
                assert(t[dot_pos(t)] == '.');
                assert(false);
            }
            if dot_pos(t) > dp - a {
                assert(dp < b);
                assert(t[dp - a] == '.');
                assert(false);
            }
            assert(dot_pos(t) == dp - a);
        }
        let mut has_digit = false;
        let mut all_num = true;
        let mut extra_dot = false;
        let mut j = a;
        while j < b
            invariant
                a <= j <= b <= v@.len(),
                a <= dp <= b,
                t == v@.subrange(a as int, b as int),
                has_digit == (exists|i: int| 0 <= i < j - a && is_digit(#[trigger] t[i])),
                all_num == (forall|i: int| 0 <= i < j - a ==> is_num_char(#[trigger] t[i])),
                extra_dot == (exists|i: int|
                    0 <= i < j - a && #[trigger] t[i] == '.' && i != dp - a),
            decreases b - j,
        {
            let c = v[j];
            proof {
                assert(c == t[j - a]);
            }
            if digit_char(c) {
                has_digit = true;
            } else if c == '.' {
                if j != dp {
                    extra_dot = true;
                }
            } else {
                all_num = false;
            }
            j += 1;
        }
        if a < b && all_num && has_digit && !extra_dot {
            proof {
                assert forall|i: int| dot_pos(t) < i < t.len() implies #[trigger] t[i] != '.' by {
                    if t[i] == '.' {
                        assert(i != dp - a);
                    }
                }
                assert(wf_token(t));
            }
            let mut si = a;
            while si < dp && zero_digit(v[si])
                invariant
                    a <= si <= dp <= b <= v@.len(),
                    t == v@.subrange(a as int, b as int),
                    forall|i: int| 0 <= i < si - a ==> digit_val(#[trigger] t[i]) == 0,
                decreases dp - si,
            {
                si += 1;
            }
            let mut ip: Vec<char> = Vec::new();
            let mut j2 = si;
            proof {
                assert(ip@ =~= v@.subrange(si as int, si as int));
            }
            while j2 < dp
                invariant
                    si <= j2 <= dp <= v@.len(),
                    ip@ == v@.subrange(si as int, j2 as int),
                decreases dp - j2,
            {
                ip.push(v[j2]);
                j2 += 1;
                proof {
                    assert(v@.subrange(si as int, j2 as int) =~= v@.subrange(
                        si as int,
                        j2 - 1,
                    ).push(v@[j2 - 1]));
                }
            }
            proof {
                assert(int_raw(t) =~= v@.subrange(a as int, dp as int));
                lemma_strip_lead_skip(int_raw(t), si - a);
                assert(int_raw(t).skip(si - a) =~= v@.subrange(si as int, dp as int));
            }
            let mut fp: Vec<char> = Vec::new();
            if dp < b {
                let ghost f = frac_raw(t);
                proof {
                    assert(f =~= v@.subrange(dp + 1, b as int));
                }
                let mut e = b;
                while e > dp + 1 && zero_digit(v[e - 1])
                    invariant
                        dp + 1 <= e <= b <= v@.len(),
                        f == frac_raw(t),
                        f =~= v@.subrange(dp + 1, b as int),
                        forall|i: int|
                            e - dp - 1 <= i < b - dp - 1 ==> digit_val(#[trigger] f[i]) == 0,
                    decreases e,
                {
                    e -= 1;
                }
                let mut j3 = dp + 1;
                proof {
                    assert(fp@ =~= v@.subrange(dp + 1, dp + 1));
                }
                while j3 < e
                    invariant
                        dp + 1 <= j3 <= e <= v@.len(),
                        fp@ == v@.subrange(dp + 1, j3 as int),
                    decreases e - j3,
                {
                    fp.push(v[j3]);
                    j3 += 1;
                    proof {
                        assert(v@.subrange(dp + 1, j3 as int) =~= v@.subrange(
                            dp + 1,
                            j3 - 1,
                        ).push(v@[j3 - 1]));
                    }
                }
                proof {
                    lemma_strip_trail_take(f, e - dp - 1);
                    assert(f.take(e - dp - 1) =~= v@.subrange(dp + 1, e as int));
                }
            } else {
                proof {
                    assert(frac_raw(t) =~= Seq::<char>::empty());
                    assert(strip_trail(frac_raw(t)) =~= fp@);
                }
            }
            let d = Decimal { int_part: ip, frac_part: fp };
            proof {
                assert forall|i: int| 0 <= i < d@.int_digits.len() implies is_digit(
                    #[trigger] d@.int_digits[i],
                ) by {
                    assert(d@.int_digits[i] == t[si - a + i]);
                    assert(is_num_char(t[si - a + i]));
                }
                assert forall|i: int| 0 <= i < d@.frac_digits.len() implies is_digit(
                    #[trigger] d@.frac_digits[i],
                ) by {
                    assert(d@.frac_digits[i] == t[dp - a + 1 + i]);
                    assert(is_num_char(t[dp - a + 1 + i]));
                    assert(dot_pos(t) < dp - a + 1 + i < t.len());
                }
                assert(dec_canonical(d@));
                assert(d@ == token_to_dec(t));
            }
            d
        } else {
            proof {
                if a < b && all_num && has_digit {
                    let i = choose|i: int| 0 <= i < t.len() && #[trigger] t[i] == '.' && i != dp - a;
                    assert(!wf_token(t));
                }
                assert(!wf_token(t));
            }
            let d = Decimal { int_part: Vec::new(), frac_part: Vec::new() };
            proof {
                assert(d@.int_digits =~= Seq::<char>::empty());
                assert(d@.frac_digits =~= Seq::<char>::empty());
            }
            d
        }
    }

    /// The decimal written by a piece of text; what is not a well-formed
    /// number degrades to zero.
    pub fn from_text(text: &str) -> (d: Decimal)
        ensures
            d@ == token_to_dec(text@),
    {
        let v = crate::text::chars_of(text);
        let n = v.len();
        let d = Decimal::from_chars(&v, 0, n);
        proof {
            assert(v@.subrange(0, n as int) =~= text@);
        }
        d
    }

    /// Numeric comparison of two decimals.
    pub fn cmp_value(&self, other: &Decimal) -> (r: Ordering)
        ensures
            r == dec_ord(self@, other@),
    {
        proof {
            use_type_invariant(self);
            use_type_invariant(other);
        }
        let ghost k = frac_max_len(self@.frac_digits, other@.frac_digits);
        proof {
            lemma_frac_scaled_bound(self@.frac_digits, k);
            lemma_frac_scaled_bound(other@.frac_digits, k);
            lemma_pow10_pos(k);
        }
        let ri = cmp_int_digits(&self.int_part, &other.int_part);
        let ghost ia = digits_val(self@.int_digits);
        let ghost ib = digits_val(other@.int_digits);
        let ghost fa = frac_scaled(self@.frac_digits, k);
        let ghost fb = frac_scaled(other@.frac_digits, k);
        proof {
            assert(dec_scaled(self@, k) == ia * pow10(k) + fa);
            assert(dec_scaled(other@, k) == ib * pow10(k) + fb);
            assert(ia < ib ==> ia * pow10(k) + fa < ib * pow10(k) + fb) by (nonlinear_arith)
                requires
                    0 <= fa < pow10(k),
                    0 <= fb < pow10(k),
                    pow10(k) >= 1,
            {
            }
            assert(ia > ib ==> ia * pow10(k) + fa > ib * pow10(k) + fb) by (nonlinear_arith)
                requires
                    0 <= fa < pow10(k),
                    0 <= fb < pow10(k),
                    pow10(k) >= 1,
            {
            }
            assert(ia == ib ==> ia * pow10(k) == ib * pow10(k));
        }
        match ri {
            Ordering::Less => Ordering::Less,
            Ordering::Greater => Ordering::Greater,
            Ordering::Equal => {
                let rf = cmp_frac_digits(&self.frac_part, &other.frac_part);
                rf
            },
        }
    }
}

impl PartialEq for Decimal {
    /// Two decimals are equal when they are written with the same digits;
    /// canonical form makes this numeric equality.
    fn eq(&self, other: &Self) -> (r: bool) {
        eq_chars(&self.int_part, &other.int_part) && eq_chars(&self.frac_part, &other.frac_part)
    }
}

impl vstd::std_specs::cmp::PartialEqSpecImpl for Decimal {
    open spec fn obeys_eq_spec() -> bool {
        true
    }

    open spec fn eq_spec(&self, other: &Self) -> bool {
        self@ == other@
    }
}

impl Clone for Decimal {
    /// An equal decimal.
    fn clone(&self) -> (r: Self)
        ensures
            r@ == self@,
    {
        proof {
            use_type_invariant(self);
        }
        let r = Decimal { int_part: copy_chars(&self.int_part), frac_part: copy_chars(&self.frac_part) };
        proof {
            assert(r@ == self@);
        }
        r
    }
}

fn eq_chars(x: &Vec<char>, y: &Vec<char>) -> (b: bool)
    ensures
        b == (x@ == y@),
{
    if x.len() != y.len() {
        proof {
            assert(x@ != y@);
        }
        return false;
    }
    let n = x.len();
    let mut j: usize = 0;
    while j < n
        invariant
            0 <= j <= n,
            n == x@.len(),
            n == y@.len(),
            forall|i: int| 0 <= i < j ==> x@[i] == y@[i],
        decreases n - j,
    {
        if x[j] != y[j] {
            proof {
                assert(x@[j as int] != y@[j as int]);
            }
            return false;
        }
        j += 1;
    }
    proof {
        assert(x@ =~= y@);
    }
    true
}

fn copy_chars(x: &Vec<char>) -> (r: Vec<char>)
    ensures
        r@ == x@,
{
    let n = x.len();
    let mut r: Vec<char> = Vec::new();
    let mut j: usize = 0;
    while j < n
        invariant
            0 <= j <= n,
            n == x@.len(),
            r@ == x@.subrange(0, j as int),
        decreases n - j,
    {
        r.push(x[j]);
        j += 1;
        proof {
            assert(x@.subrange(0, j as int) =~= x@.subrange(0, j - 1).push(x@[j - 1]));
        }
    }
    proof {
        assert(x@.subrange(0, n as int) =~= x@);
    }
    r
}

} // verus!
