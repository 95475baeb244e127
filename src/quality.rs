//! Preference weights as exact decimal numerals.
//!
//! A weight is kept as the digits that the client wrote, split at the decimal
//! point, with a sign.  Two weights are compared by bringing both to a common
//! number of fractional digits, which makes the comparison exact.
//!
//! Weights are exact numbers here, not binary floating-point values, so a few
//! numerals rank differently from their nearest floats: two numerals that
//! round to the same float (`0.1` and `0.100000001`, or `1e39` and `1e40`,
//! which both overflow) are told apart by their exact values, and `inf` or
//! `NaN` are no numerals, so they count as weight zero, in keeping with a
//! weight being finite.  A zero keeps the sign it was written with: `-0` and
//! `0` rank as a tie but are not the same weight.
use vstd::prelude::*;

use crate::text::{chars_of, find_char, index_of, lemma_index_of, slice_chars, string_of};

verus! {

/// `10` raised to `n`.
pub open spec fn pow10(n: nat) -> int
    decreases n,
{
    if n == 0 {
        1
    } else {
        10 * pow10((n - 1) as nat)
    }
}

/// The integer that a sequence of decimal digits (most significant first) denotes.
pub open spec fn digits_value(d: Seq<u8>) -> int
    decreases d.len(),
{
    if d.len() == 0 {
        0
    } else {
        digits_value(d.drop_last()) * 10 + d.last() as int
    }
}

pub open spec fn all_digits(d: Seq<u8>) -> bool {
    forall|i: int| 0 <= i < d.len() ==> d[i] < 10
}

pub open spec fn zeros(n: nat) -> Seq<u8> {
    Seq::new(n, |i: int| 0u8)
}

/// What a weight denotes: a sign, the digits before the point and the digits after it.
pub struct Decimal {
    pub negative: bool,
    pub whole: Seq<u8>,
    pub frac: Seq<u8>,
}

/// The digits of a decimal read as one integer, ignoring the point and the sign.
pub open spec fn magnitude(q: Decimal) -> int {
    digits_value(q.whole + q.frac)
}

/// The signed value of `q` multiplied by `10` raised to `s` (for `s` at least the
/// number of fractional digits of `q`, this is an integer).
pub open spec fn scaled(q: Decimal, s: nat) -> int {
    let m = magnitude(q) * pow10((s - q.frac.len()) as nat);
    if q.negative {
        -m
    } else {
        m
    }
}

/// The number of fractional digits at which two decimals are compared.
pub open spec fn common_scale(a: Decimal, b: Decimal) -> nat {
    if a.frac.len() >= b.frac.len() {
        a.frac.len()
    } else {
        b.frac.len()
    }
}

/// `a` denotes a smaller number than `b`.
pub open spec fn decimal_lt(a: Decimal, b: Decimal) -> bool {
    scaled(a, common_scale(a, b)) < scaled(b, common_scale(a, b))
}

/// `a` and `b` denote the same number (whatever zeros or sign of zero they were written with).
pub open spec fn decimal_eq(a: Decimal, b: Decimal) -> bool {
    scaled(a, common_scale(a, b)) == scaled(b, common_scale(a, b))
}

/// `a` and `b` are the same weight: the same number, written with the same sign.
pub open spec fn decimal_same(a: Decimal, b: Decimal) -> bool {
    decimal_eq(a, b) && a.negative == b.negative
}

/// The decimal `1`, the weight of a tag that states none.
pub open spec fn decimal_one() -> Decimal {
    Decimal { negative: false, whole: seq![1u8], frac: Seq::empty() }
}

/// The decimal `0`, the weight of a tag whose stated weight cannot be read.
pub open spec fn decimal_zero() -> Decimal {
    Decimal { negative: false, whole: seq![0u8], frac: Seq::empty() }
}

pub open spec fn decimal_wf(q: Decimal) -> bool {
    &&& all_digits(q.whole)
    &&& all_digits(q.frac)
}

pub proof fn lemma_pow10_positive(n: nat)
    ensures
        pow10(n) > 0,
    decreases n,
{
    if n > 0 {
        lemma_pow10_positive((n - 1) as nat);
    }
}

pub proof fn lemma_pow10_adds(a: nat, b: nat)
    ensures
        pow10(a + b) == pow10(a) * pow10(b),
    decreases b,
{
    if b > 0 {
        lemma_pow10_adds(a, (b - 1) as nat);
        assert(pow10(a + b) == 10 * pow10((a + b - 1) as nat));
        assert(pow10(a) * (10 * pow10((b - 1) as nat)) == 10 * (pow10(a) * pow10(
            (b - 1) as nat,
        ))) by (nonlinear_arith);
    }
}

pub proof fn lemma_digits_concat(s: Seq<u8>, t: Seq<u8>)
    ensures
        digits_value(s + t) == digits_value(s) * pow10(t.len()) + digits_value(t),
    decreases t.len(),
{
    if t.len() == 0 {
        assert(s + t =~= s);
    } else {
        let t0 = t.drop_last();
        lemma_digits_concat(s, t0);
        assert((s + t).drop_last() =~= s + t0);
        assert((s + t).last() == t.last());
        let v = digits_value(s);
        let p = pow10(t0.len());
        assert(pow10(t.len()) == 10 * p);
        assert((v * p + digits_value(t0)) * 10 + t.last() as int == v * (10 * p) + (digits_value(
            t0,
        ) * 10 + t.last() as int)) by (nonlinear_arith);
    }
}

pub proof fn lemma_zeros_value(n: nat)
    ensures
        digits_value(zeros(n)) == 0,
    decreases n,
{
    if n > 0 {
        assert(zeros(n).drop_last() =~= zeros((n - 1) as nat));
        lemma_zeros_value((n - 1) as nat);
    }
}

pub proof fn lemma_digits_bound(d: Seq<u8>)
    requires
        all_digits(d),
    ensures
        0 <= digits_value(d) < pow10(d.len()),
    decreases d.len(),
{
    if d.len() > 0 {
        let d0 = d.drop_last();
        assert(all_digits(d0));
        lemma_digits_bound(d0);
        let v = digits_value(d0);
        let p = pow10(d0.len());
        assert(d.last() < 10);
        assert(v * 10 + (d.last() as int) < 10 * p) by (nonlinear_arith)
            requires
                v < p,
                d.last() < 10,
        ;
    }
}

/// A digit sequence with a nonzero digit denotes a positive integer.
pub proof fn lemma_digits_nonzero(d: Seq<u8>, i: int)
    requires
        all_digits(d),
        0 <= i < d.len(),
        d[i] != 0,
    ensures
        digits_value(d) > 0,
{
    let head = d.take(i + 1);
    let tail = d.skip(i + 1);
    assert(d =~= head + tail);
    lemma_digits_concat(head, tail);
    assert(head.drop_last() =~= d.take(i));
    assert(all_digits(d.take(i)));
    assert(all_digits(tail));
    lemma_digits_bound(d.take(i));
    lemma_digits_bound(tail);
    lemma_pow10_positive(tail.len());
    let hv = digits_value(head);
    assert(hv > 0);
    assert(hv * pow10(tail.len()) > 0) by (nonlinear_arith)
        requires
            hv > 0,
            pow10(tail.len()) > 0,
    ;
}

/// Equal-length digit sequences are ordered by their first differing digit.
pub proof fn lemma_digits_first_difference(a: Seq<u8>, b: Seq<u8>, i: int)
    requires
        all_digits(a),
        all_digits(b),
        a.len() == b.len(),
        0 <= i < a.len(),
        a.take(i) == b.take(i),
        a[i] < b[i],
    ensures
        digits_value(a) < digits_value(b),
{
    let ha = a.take(i + 1);
    let hb = b.take(i + 1);
    let ta = a.skip(i + 1);
    let tb = b.skip(i + 1);
    assert(a =~= ha + ta);
    assert(b =~= hb + tb);
    lemma_digits_concat(ha, ta);
    lemma_digits_concat(hb, tb);
    assert(ha.drop_last() =~= a.take(i));
    assert(hb.drop_last() =~= b.take(i));
    assert(all_digits(ta));
    assert(all_digits(tb));
    lemma_digits_bound(ta);
    lemma_digits_bound(tb);
    let p = pow10(ta.len());
    let va = digits_value(ha);
    let vb = digits_value(hb);
    assert(va + 1 <= vb);
    assert(va * p + digits_value(ta) < vb * p + digits_value(tb)) by (nonlinear_arith)
        requires
            va + 1 <= vb,
            0 <= digits_value(ta) < p,
            0 <= digits_value(tb),
    ;
}

/// Raising the scale by `k` multiplies the scaled value by `10` raised to `k`.
pub proof fn lemma_scaled_up(q: Decimal, s: nat, k: nat)
    requires
        s >= q.frac.len(),
    ensures
        scaled(q, s + k) == scaled(q, s) * pow10(k),
{
    let e = (s - q.frac.len()) as nat;
    lemma_pow10_adds(e, k);
    assert(((s + k) - q.frac.len()) as nat == e + k);
    let m = magnitude(q);
    assert(m * (pow10(e) * pow10(k)) == (m * pow10(e)) * pow10(k)) by (nonlinear_arith);
    assert(-(m * pow10(e)) * pow10(k) == -((m * pow10(e)) * pow10(k))) by (nonlinear_arith);
}

/// Decimals compare the same way at every scale that holds both.
pub proof fn lemma_compare_at_scale(a: Decimal, b: Decimal, s: nat)
    requires
        s >= a.frac.len(),
        s >= b.frac.len(),
    ensures
        decimal_lt(a, b) <==> scaled(a, s) < scaled(b, s),
        decimal_eq(a, b) <==> scaled(a, s) == scaled(b, s),
{
    let c = common_scale(a, b);
    let k = (s - c) as nat;
    lemma_scaled_up(a, c, k);
    lemma_scaled_up(b, c, k);
    lemma_pow10_positive(k);
    let x = scaled(a, c);
    let y = scaled(b, c);
    let p = pow10(k);
    assert(x < y <==> x * p < y * p) by (nonlinear_arith)
        requires
            p > 0,
    ;
    assert(x == y <==> x * p == y * p) by (nonlinear_arith)
        requires
            p > 0,
    ;
}

/// A preference weight.
#[derive(Debug)]
pub struct Quality {
    negative: bool,
    whole: Vec<u8>,
    frac: Vec<u8>,
}

impl View for Quality {
    type V = Decimal;

    closed spec fn view(&self) -> Decimal {
        Decimal { negative: self.negative, whole: self.whole@, frac: self.frac@ }
    }
}

/// `c` is one of the characters `0` to `9`.
pub open spec fn is_digit_char(c: char) -> bool {
    '0' <= c && c <= '9'
}

/// The digit that a digit character stands for.
pub open spec fn digit_of(c: char) -> u8 {
    (c as u32 - '0' as u32) as u8
}

pub open spec fn digits_of(s: Seq<char>) -> Seq<u8> {
    s.map_values(|c: char| digit_of(c))
}

pub open spec fn has_sign(s: Seq<char>) -> bool {
    s.len() > 0 && (s[0] == '+' || s[0] == '-')
}

/// The numeral without its sign.
pub open spec fn unsigned_part(s: Seq<char>) -> Seq<char> {
    if has_sign(s) {
        s.drop_first()
    } else {
        s
    }
}

/// The position of the exponent mark (`e` or `E`) in `u`, or its length.
pub open spec fn exponent_mark(u: Seq<char>) -> int {
    let a = index_of(u, 'e');
    let b = index_of(u, 'E');
    if a <= b {
        a
    } else {
        b
    }
}

/// `m` is a mantissa: digits with at most one decimal point among them, and
/// at least one digit.
pub open spec fn is_mantissa(m: Seq<char>) -> bool {
    &&& m.len() > 0
    &&& m != seq!['.']
    &&& forall|i: int| 0 <= i < m.len() ==> is_digit_char(m[i]) || m[i] == '.'
    &&& forall|i: int, j: int| 0 <= i < j < m.len() && m[i] == '.' ==> m[j] != '.'
}

/// The digits of a mantissa before its point.
pub open spec fn mantissa_whole(m: Seq<char>) -> Seq<u8> {
    digits_of(m.take(index_of(m, '.')))
}

/// The digits of a mantissa after its point.
pub open spec fn mantissa_frac(m: Seq<char>) -> Seq<u8> {
    let k = index_of(m, '.');
    if k < m.len() {
        digits_of(m.skip(k + 1))
    } else {
        Seq::empty()
    }
}

/// `x` is an exponent: an optional sign, then at least one digit.
pub open spec fn is_exponent(x: Seq<char>) -> bool {
    let y = unsigned_part(x);
    y.len() > 0 && forall|i: int| 0 <= i < y.len() ==> is_digit_char(y[i])
}

/// Exponents larger than this are read as this, so that a weight never takes
/// more than this many padding digits.  Unless its mantissa is itself
/// written with hundreds of digits, a weight whose exponent reaches the cap
/// is far outside the range of a float either way.
pub const EXPONENT_LIMIT: u64 = 1000;

/// How far an exponent moves the point: its digits' value, capped at
/// `EXPONENT_LIMIT`.
pub open spec fn exponent_size(x: Seq<char>) -> nat {
    let v = digits_value(digits_of(unsigned_part(x)));
    if v < EXPONENT_LIMIT {
        v as nat
    } else {
        EXPONENT_LIMIT as nat
    }
}

/// The exponent moves the point to the left.
pub open spec fn exponent_negative(x: Seq<char>) -> bool {
    has_sign(x) && x[0] == '-'
}

/// The digits before and after the point once the point is moved `n` places
/// to the right (to the left when `left`), padding with zeros where the
/// digits run out.
pub open spec fn shift_point(whole: Seq<u8>, frac: Seq<u8>, left: bool, n: nat) -> (Seq<u8>, Seq<u8>) {
    if !left {
        if n <= frac.len() {
            (whole + frac.take(n as int), frac.skip(n as int))
        } else {
            (whole + frac + zeros((n - frac.len()) as nat), Seq::empty())
        }
    } else {
        if n <= whole.len() {
            (whole.take(whole.len() - n), whole.skip(whole.len() - n) + frac)
        } else {
            (Seq::empty(), zeros((n - whole.len()) as nat) + whole + frac)
        }
    }
}

/// `s` is a decimal numeral: an optional sign, a mantissa, and optionally an
/// exponent mark followed by an exponent.
pub open spec fn is_numeral(s: Seq<char>) -> bool {
    let u = unsigned_part(s);
    let k = exponent_mark(u);
    is_mantissa(u.take(k)) && (k == u.len() || is_exponent(u.skip(k + 1)))
}

/// The digits of a numeral before and after its point, once the exponent has
/// moved the point.
pub open spec fn numeral_digits(s: Seq<char>) -> (Seq<u8>, Seq<u8>) {
    let u = unsigned_part(s);
    let k = exponent_mark(u);
    let m = u.take(k);
    if k < u.len() {
        let x = u.skip(k + 1);
        shift_point(mantissa_whole(m), mantissa_frac(m), exponent_negative(x), exponent_size(x))
    } else {
        (mantissa_whole(m), mantissa_frac(m))
    }
}

/// The decimal that a numeral denotes.
pub open spec fn numeral_value(s: Seq<char>) -> Decimal {
    let d = numeral_digits(s);
    let negative = has_sign(s) && s[0] == '-';
    Decimal { negative, whole: d.0, frac: d.1 }
}

impl Quality {
    #[verifier::type_invariant]
    spec fn wf(&self) -> bool {
        decimal_wf(self@)
    }

    /// The weight `1`.
    pub fn one() -> (r: Quality)
        ensures
            r@ == decimal_one(),
    {
        let mut whole: Vec<u8> = Vec::new();
        whole.push(1u8);
        let r = Quality { negative: false, whole, frac: Vec::new() };
        assert(r@.whole =~= seq![1u8]);
        assert(r@.frac =~= Seq::<u8>::empty());
        r
    }

    /// The weight `0`.
    pub fn zero() -> (r: Quality)
        ensures
            r@ == decimal_zero(),
    {
        let mut whole: Vec<u8> = Vec::new();
        whole.push(0u8);
        let r = Quality { negative: false, whole, frac: Vec::new() };
        assert(r@.whole =~= seq![0u8]);
        assert(r@.frac =~= Seq::<u8>::empty());
        r
    }

    /// The digits of `self` laid out over `width` places before the point and
    /// `scale` places after it.
    fn padded(&self, width: usize, scale: usize) -> (r: Vec<u8>)
        requires
            self.whole.len() <= width,
            self.frac.len() <= scale,
        ensures
            r@ == zeros((width - self.whole.len()) as nat) + self.whole@ + self.frac@ + zeros(
                (scale - self.frac.len()) as nat,
            ),
    {
        let mut r: Vec<u8> = Vec::new();
        let lead = width - self.whole.len();
        let mut i: usize = 0;
        while i < lead
            invariant
                i <= lead,
                r@ == zeros(i as nat),
            decreases lead - i,
        {
            r.push(0u8);
            i = i + 1;
            assert(r@ =~= zeros(i as nat));
        }
        let ghost base = r@;
        let mut j: usize = 0;
        while j < self.whole.len()
            invariant
                j <= self.whole.len(),
                r@ == base + self.whole@.take(j as int),
            decreases self.whole.len() - j,
        {
            r.push(self.whole[j]);
            j = j + 1;
            assert(r@ =~= base + self.whole@.take(j as int));
        }
        assert(self.whole@.take(self.whole.len() as int) =~= self.whole@);
        let ghost base2 = r@;
        let mut k: usize = 0;
        while k < self.frac.len()
            invariant
                k <= self.frac.len(),
                r@ == base2 + self.frac@.take(k as int),
            decreases self.frac.len() - k,
        {
            r.push(self.frac[k]);
            k = k + 1;
            assert(r@ =~= base2 + self.frac@.take(k as int));
        }
        assert(self.frac@.take(self.frac.len() as int) =~= self.frac@);
        let ghost base3 = r@;
        let trail = scale - self.frac.len();
        let mut m: usize = 0;
        while m < trail
            invariant
                m <= trail,
                r@ == base3 + zeros(m as nat),
            decreases trail - m,
        {
            r.push(0u8);
            m = m + 1;
            assert(r@ =~= base3 + zeros(m as nat));
        }
        r
    }

    /// Compares the numbers that two weights denote.
    pub fn compare(&self, other: &Quality) -> (r: core::cmp::Ordering)
        ensures
            (r == core::cmp::Ordering::Less) == decimal_lt(self@, other@),
            (r == core::cmp::Ordering::Greater) == decimal_lt(other@, self@),
            (r == core::cmp::Ordering::Equal) == decimal_eq(self@, other@),
    {
        let width = if self.whole.len() >= other.whole.len() {
            self.whole.len()
        } else {
            other.whole.len()
        };
        let scale = if self.frac.len() >= other.frac.len() {
            self.frac.len()
        } else {
            other.frac.len()
        };
        proof {
            use_type_invariant(self);
            use_type_invariant(other);
        }
        let pa = self.padded(width, scale);
        let pb = other.padded(width, scale);
        proof {
            lemma_padded_value(self@, width as nat, scale as nat);
            lemma_padded_value(other@, width as nat, scale as nat);
            lemma_compare_at_scale(self@, other@, scale as nat);
            lemma_compare_at_scale(other@, self@, scale as nat);
            lemma_digits_bound(pa@);
            lemma_digits_bound(pb@);
        }
        let m = compare_digits(&pa, &pb);
        if !self.negative && !other.negative {
            m
        } else if self.negative && other.negative {
            match m {
                core::cmp::Ordering::Less => core::cmp::Ordering::Greater,
                core::cmp::Ordering::Greater => core::cmp::Ordering::Less,
                core::cmp::Ordering::Equal => core::cmp::Ordering::Equal,
            }
        } else {
            let nonzero_a = has_nonzero(&pa);
            let nonzero_b = has_nonzero(&pb);
            proof {
                if nonzero_a {
                    let t = choose|t: int| 0 <= t < pa.len() && pa[t] != 0;
                    lemma_digits_nonzero(pa@, t);
                } else {
                    assert(pa@ =~= zeros(pa.len() as nat));
                    lemma_zeros_value(pa.len() as nat);
                }
                if nonzero_b {
                    let t = choose|t: int| 0 <= t < pb.len() && pb[t] != 0;
                    lemma_digits_nonzero(pb@, t);
                } else {
                    assert(pb@ =~= zeros(pb.len() as nat));
                    lemma_zeros_value(pb.len() as nat);
                }
            }
            if !nonzero_a && !nonzero_b {
                core::cmp::Ordering::Equal
            } else if self.negative {
                core::cmp::Ordering::Less
            } else {
                core::cmp::Ordering::Greater
            }
        }
    }
}

pub proof fn lemma_padded_value(q: Decimal, width: nat, scale: nat)
    requires
        decimal_wf(q),
        q.whole.len() <= width,
        q.frac.len() <= scale,
    ensures
        ({
            let p = zeros((width - q.whole.len()) as nat) + q.whole + q.frac + zeros(
                (scale - q.frac.len()) as nat,
            );
            &&& all_digits(p)
            &&& p.len() == width + scale
            &&& digits_value(p) == magnitude(q) * pow10((scale - q.frac.len()) as nat)
            &&& scaled(q, scale) == if q.negative {
                -digits_value(p)
            } else {
                digits_value(p)
            }
        }),
{
    let z1 = zeros((width - q.whole.len()) as nat);
    let z2 = zeros((scale - q.frac.len()) as nat);
    let e = (scale - q.frac.len()) as nat;
    let p = z1 + q.whole + q.frac + z2;
    assert(z1 + q.whole + q.frac =~= z1 + (q.whole + q.frac));
    lemma_digits_concat(z1, q.whole + q.frac);
    lemma_zeros_value(z1.len());
    lemma_digits_concat(z1 + q.whole + q.frac, z2);
    lemma_zeros_value(z2.len());
    lemma_pow10_positive(e);
    assert(all_digits(p)) by {
        assert forall|i: int| 0 <= i < p.len() implies p[i] < 10 by {
            if i < z1.len() {
            } else if i < z1.len() + q.whole.len() {
                assert(p[i] == q.whole[i - z1.len()]);
            } else if i < z1.len() + q.whole.len() + q.frac.len() {
                assert(p[i] == q.frac[i - z1.len() - q.whole.len()]);
            } else {
            }
        }
    }
}

fn has_nonzero(d: &Vec<u8>) -> (r: bool)
    ensures
        r == exists|i: int| 0 <= i < d.len() && d[i] != 0,
{
    let mut i: usize = 0;
    while i < d.len()
        invariant
            i <= d.len(),
            forall|t: int| 0 <= t < i ==> d[t] == 0,
        decreases d.len() - i,
    {
        if d[i] != 0 {
            return true;
        }
        i = i + 1;
    }
    false
}

impl Quality {
    /// Reads a decimal numeral written as a string; `None` when `s` is not one.
    pub fn numeral(s: &str) -> (r: Option<Quality>)
        ensures
            r is Some <==> is_numeral(s@),
            r matches Some(q) ==> q@ == numeral_value(s@),
    {
        let chars = chars_of(s);
        Quality::from_numeral(&chars)
    }

    /// Reads a decimal numeral; `None` when `s` is not one.
    pub fn from_numeral(s: &Vec<char>) -> (r: Option<Quality>)
        ensures
            r is Some <==> is_numeral(s@),
            r matches Some(q) ==> q@ == numeral_value(s@),
    {
        let n = s.len();
        let mut start: usize = 0;
        let mut minus = false;
        if n > 0 && (s[0] == '+' || s[0] == '-') {
            start = 1;
            minus = s[0] == '-';
        }
        let u = slice_chars(s, start, n);
        assert(u@ =~= unsigned_part(s@));
        let k1 = find_char(&u, 'e');
        let k2 = find_char(&u, 'E');
        let k = if k1 <= k2 {
            k1
        } else {
            k2
        };
        let m = slice_chars(&u, 0, k);
        assert(m@ =~= u@.take(k as int));
        let parts = read_mantissa(&m);
        if parts.is_none() {
            return None;
        }
        let (whole0, frac0) = parts.unwrap();
        let (whole, frac) = if k < u.len() {
            let x = slice_chars(&u, k + 1, u.len());
            assert(x@ =~= u@.skip(k + 1));
            let exponent = read_exponent(&x);
            if exponent.is_none() {
                return None;
            }
            let (left, size) = exponent.unwrap();
            shift(whole0, frac0, left, size)
        } else {
            (whole0, frac0)
        };
        Some(Quality { negative: minus, whole, frac })
    }
}

/// Reads a mantissa into its digits before and after the point.
fn read_mantissa(m: &Vec<char>) -> (r: Option<(Vec<u8>, Vec<u8>)>)
    ensures
        r is Some <==> is_mantissa(m@),
        r matches Some(p) ==> p.0@ == mantissa_whole(m@) && p.1@ == mantissa_frac(m@) && all_digits(
            p.0@,
        ) && all_digits(p.1@),
{
    let n = m.len();
    if n == 0 {
        return None;
    }
    let ghost u = m@;
    let mut whole: Vec<u8> = Vec::new();
    let mut frac: Vec<u8> = Vec::new();
    let mut seen_point = false;
    let ghost mut kd: int = 0;
    let mut i: usize = 0;
    while i < n
        invariant
            n == m.len(),
            i <= n,
            u == m@,
            !seen_point ==> forall|t: int| 0 <= t < i ==> is_digit_char(u[t]),
            !seen_point ==> whole@ == digits_of(u.take(i as int)),
            !seen_point ==> frac@.len() == 0,
            seen_point ==> 0 <= kd < i,
            seen_point ==> u[kd] == '.',
            seen_point ==> forall|t: int| 0 <= t < kd ==> is_digit_char(u[t]),
            seen_point ==> forall|t: int| kd < t < i ==> is_digit_char(u[t]),
            seen_point ==> whole@ == digits_of(u.take(kd)),
            seen_point ==> frac@ == digits_of(u.subrange(kd + 1, i as int)),
            all_digits(whole@),
            all_digits(frac@),
        decreases n - i,
    {
        let c = m[i];
        let ghost j = i as int;
        if c == '.' {
            if seen_point {
                assert(0 <= kd < j < u.len() && u[kd] == '.' && u[j] == '.');
                return None;
            }
            seen_point = true;
            proof {
                kd = j;
                assert(u.subrange(kd + 1, j + 1) =~= Seq::<char>::empty());
            }
        } else if '0' <= c && c <= '9' {
            let d = (c as u32 - '0' as u32) as u8;
            if seen_point {
                frac.push(d);
                assert(u.subrange(kd + 1, j + 1) =~= u.subrange(kd + 1, j).push(c));
                assert(frac@ =~= digits_of(u.subrange(kd + 1, j + 1)));
            } else {
                whole.push(d);
                assert(u.take(j + 1) =~= u.take(j).push(c));
                assert(whole@ =~= digits_of(u.take(j + 1)));
            }
        } else {
            assert(!(is_digit_char(u[j]) || u[j] == '.'));
            return None;
        }
        i = i + 1;
    }
    if whole.len() == 0 && frac.len() == 0 {
        proof {
            if seen_point {
                assert(kd == 0);
                assert(u.len() == 1) by {
                    if u.len() > 1 {
                        assert(u.subrange(kd + 1, u.len() as int).len() > 0);
                    }
                }
                assert(u =~= seq!['.']);
            } else {
                assert(u.take(u.len() as int) =~= u);
            }
        }
        return None;
    }
    proof {
        if seen_point {
            lemma_index_of(u, '.', kd);
            assert(u.skip(kd + 1) =~= u.subrange(kd + 1, u.len() as int));
        } else {
            lemma_index_of(u, '.', u.len() as int);
            assert(u.take(u.len() as int) =~= u);
            assert(frac@ =~= Seq::<u8>::empty());
        }
    }
    Some((whole, frac))
}

/// Reads an exponent into its direction and its size, capped at `EXPONENT_LIMIT`.
fn read_exponent(x: &Vec<char>) -> (r: Option<(bool, u64)>)
    ensures
        r is Some <==> is_exponent(x@),
        r matches Some(p) ==> p.0 == exponent_negative(x@) && p.1 as nat == exponent_size(x@),
{
    let n = x.len();
    let mut start: usize = 0;
    let mut left = false;
    if n > 0 && (x[0] == '+' || x[0] == '-') {
        start = 1;
        left = x[0] == '-';
    }
    let ghost y = unsigned_part(x@);
    assert(y =~= x@.skip(start as int));
    if start == n {
        return None;
    }
    let mut size: u64 = 0;
    let mut i: usize = start;
    assert(digits_of(y.take(0)) =~= Seq::<u8>::empty());
    while i < n
        invariant
            n == x.len(),
            start <= i <= n,
            y == x@.skip(start as int),
            y == unsigned_part(x@),
            forall|t: int| 0 <= t < i - start ==> is_digit_char(y[t]),
            all_digits(digits_of(y.take(i - start))),
            size <= EXPONENT_LIMIT,
            size as int == if digits_value(digits_of(y.take(i - start))) < EXPONENT_LIMIT {
                digits_value(digits_of(y.take(i - start)))
            } else {
                EXPONENT_LIMIT as int
            },
        decreases n - i,
    {
        let c = x[i];
        let ghost j = i - start;
        assert(y[j] == c);
        if !('0' <= c && c <= '9') {
            assert(!is_digit_char(y[j]));
            return None;
        }
        let d = (c as u32 - '0' as u32) as u64;
        let ghost prev = digits_of(y.take(j));
        let ghost next = digits_of(y.take(j + 1));
        proof {
            assert(y.take(j + 1) =~= y.take(j).push(c));
            assert(next.drop_last() =~= prev);
            assert(next.last() as int == d);
            assert(all_digits(next));
            lemma_digits_bound(prev);
        }
        if size < EXPONENT_LIMIT {
            let grown = size * 10 + d;
            size = if grown < EXPONENT_LIMIT {
                grown
            } else {
                EXPONENT_LIMIT
            };
        } else {
            assert(digits_value(next) >= EXPONENT_LIMIT) by (nonlinear_arith)
                requires
                    digits_value(prev) >= EXPONENT_LIMIT,
                    digits_value(next) == digits_value(prev) * 10 + d,
                    d >= 0,
            ;
        }
        i = i + 1;
    }
    assert(y.take(n - start) =~= y);
    Some((left, size))
}

fn append_digits(out: &mut Vec<u8>, src: &Vec<u8>, from: usize, to: usize)
    requires
        from <= to <= src.len(),
    ensures
        final(out)@ == old(out)@ + src@.subrange(from as int, to as int),
{
    let ghost base = out@;
    let mut i: usize = from;
    while i < to
        invariant
            from <= i <= to <= src.len(),
            out@ == base + src@.subrange(from as int, i as int),
        decreases to - i,
    {
        out.push(src[i]);
        i = i + 1;
        assert(out@ =~= base + src@.subrange(from as int, i as int));
    }
}

fn append_zeros(out: &mut Vec<u8>, count: u64)
    ensures
        final(out)@ == old(out)@ + zeros(count as nat),
{
    let ghost base = out@;
    let mut i: u64 = 0;
    while i < count
        invariant
            i <= count,
            out@ == base + zeros(i as nat),
        decreases count - i,
    {
        out.push(0u8);
        i = i + 1;
        assert(out@ =~= base + zeros(i as nat));
    }
}

/// Moves the point `n` places (see `shift_point`).
fn shift(whole: Vec<u8>, frac: Vec<u8>, left: bool, n: u64) -> (r: (Vec<u8>, Vec<u8>))
    requires
        all_digits(whole@),
        all_digits(frac@),
    ensures
        (r.0@, r.1@) == shift_point(whole@, frac@, left, n as nat),
        all_digits(r.0@),
        all_digits(r.1@),
{
    let mut a: Vec<u8> = Vec::new();
    let mut b: Vec<u8> = Vec::new();
    let wl = whole.len();
    let fl = frac.len();
    if !left {
        append_digits(&mut a, &whole, 0, wl);
        if n <= fl as u64 {
            let cut = n as usize;
            append_digits(&mut a, &frac, 0, cut);
            append_digits(&mut b, &frac, cut, fl);
        } else {
            append_digits(&mut a, &frac, 0, fl);
            append_zeros(&mut a, n - fl as u64);
        }
    } else {
        if n <= wl as u64 {
            let cut = wl - n as usize;
            append_digits(&mut a, &whole, 0, cut);
            append_digits(&mut b, &whole, cut, wl);
            append_digits(&mut b, &frac, 0, fl);
        } else {
            append_zeros(&mut b, n - wl as u64);
            append_digits(&mut b, &whole, 0, wl);
            append_digits(&mut b, &frac, 0, fl);
        }
    }
    assert(whole@.subrange(0, wl as int) =~= whole@);
    assert(frac@.subrange(0, fl as int) =~= frac@);
    proof {
        let sp = shift_point(whole@, frac@, left, n as nat);
        if !left {
            if n <= fl {
                assert(frac@.subrange(0, n as int) =~= frac@.take(n as int));
                assert(frac@.subrange(n as int, fl as int) =~= frac@.skip(n as int));
            }
        } else {
            if n <= wl {
                assert(whole@.subrange(0, wl - n) =~= whole@.take(wl - n));
                assert(whole@.subrange(wl - n, wl as int) =~= whole@.skip(wl - n));
            }
        }
        assert(a@ =~= sp.0);
        assert(b@ =~= sp.1);
        assert(all_digits(a@)) by {
            assert forall|i: int| 0 <= i < a@.len() implies a@[i] < 10 by {
                if !left && n > fl && i >= wl + fl {
                    assert(a@[i] == 0);
                }
            }
        }
        assert(all_digits(b@)) by {
            assert forall|i: int| 0 <= i < b@.len() implies b@[i] < 10 by {
                if left && n > wl && i < n - wl {
                    assert(b@[i] == 0);
                }
            }
        }
    }
    (a, b)
}

/// The character of a decimal digit.
pub open spec fn digit_char(d: u8) -> char {
    (d + 48) as char
}

/// How a weight is written: its sign when negative, the digits before the
/// point, and the point with the digits after it when there are any.
pub open spec fn numeral_text(q: Decimal) -> Seq<char> {
    let sign = if q.negative {
        seq!['-']
    } else {
        Seq::empty()
    };
    let tail = if q.frac.len() > 0 {
        seq!['.'] + q.frac.map_values(|d: u8| digit_char(d))
    } else {
        Seq::empty()
    };
    sign + q.whole.map_values(|d: u8| digit_char(d)) + tail
}

fn push_digits(out: &mut Vec<char>, digits: &Vec<u8>)
    requires
        all_digits(digits@),
    ensures
        final(out)@ == old(out)@ + digits@.map_values(|d: u8| digit_char(d)),
{
    let ghost start = out@;
    let mut i: usize = 0;
    while i < digits.len()
        invariant
            i <= digits.len(),
            all_digits(digits@),
            out@ == start + digits@.take(i as int).map_values(|d: u8| digit_char(d)),
        decreases digits.len() - i,
    {
        let d = digits[i];
        out.push((d + 48) as char);
        i = i + 1;
        assert(out@ =~= start + digits@.take(i as int).map_values(|d: u8| digit_char(d)));
    }
    assert(digits@.take(i as int) =~= digits@);
}

impl Quality {
    /// The weight written as a decimal numeral.
    pub fn to_numeral(&self) -> (r: String)
        ensures
            r@ == numeral_text(self@),
    {
        proof {
            use_type_invariant(self);
        }
        let mut out: Vec<char> = Vec::new();
        if self.negative {
            out.push('-');
        }
        push_digits(&mut out, &self.whole);
        if self.frac.len() > 0 {
            out.push('.');
            push_digits(&mut out, &self.frac);
        }
        assert(out@ =~= numeral_text(self@));
        string_of(out.as_slice())
    }
}

impl PartialEq for Quality {
    fn eq(&self, other: &Quality) -> (r: bool) {
        if self.negative != other.negative {
            return false;
        }
        match self.compare(other) {
            core::cmp::Ordering::Equal => true,
            _ => false,
        }
    }
}

impl vstd::std_specs::cmp::PartialEqSpecImpl for Quality {
    open spec fn obeys_eq_spec() -> bool {
        true
    }

    open spec fn eq_spec(&self, other: &Quality) -> bool {
        decimal_same(self@, other@)
    }
}

/// Compares the integers that two digit sequences of one length denote.
fn compare_digits(a: &Vec<u8>, b: &Vec<u8>) -> (r: core::cmp::Ordering)
    requires
        a.len() == b.len(),
        all_digits(a@),
        all_digits(b@),
    ensures
        (r == core::cmp::Ordering::Less) == (digits_value(a@) < digits_value(b@)),
        (r == core::cmp::Ordering::Greater) == (digits_value(a@) > digits_value(b@)),
        (r == core::cmp::Ordering::Equal) == (digits_value(a@) == digits_value(b@)),
{
    let mut i: usize = 0;
    while i < a.len()
        invariant
            i <= a.len(),
            a.len() == b.len(),
            all_digits(a@),
            all_digits(b@),
            a@.take(i as int) == b@.take(i as int),
        decreases a.len() - i,
    {
        if a[i] < b[i] {
            proof {
                lemma_digits_first_difference(a@, b@, i as int);
            }
            return core::cmp::Ordering::Less;
        }
        if a[i] > b[i] {
            proof {
                lemma_digits_first_difference(b@, a@, i as int);
            }
            return core::cmp::Ordering::Greater;
        }
        assert(a@.take(i + 1) =~= a@.take(i as int).push(a[i as int]));
        assert(b@.take(i + 1) =~= b@.take(i as int).push(b[i as int]));
        i = i + 1;
    }
    assert(a@ =~= a@.take(i as int));
    assert(b@ =~= b@.take(i as int));
    core::cmp::Ordering::Equal
}

} // verus!
