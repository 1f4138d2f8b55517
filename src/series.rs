//! The series spigot: e as the sum of `1/k!`, each term kept as a fraction
//! whose next decimal digit is peeled off on every step.
use vstd::prelude::*;

use num::BigUint;
use rayon::iter::{IntoParallelRefMutIterator, ParallelIterator};

use crate::bignum::{
    nat_clone, nat_div, nat_from, nat_inc, nat_mul, nat_mul_assign, nat_of, nat_sub_assign, nat_to_u32,
};

verus! {

/// The next decimal digit of a fraction `(numerator, denominator)`.
pub open spec fn digit_of(f: (nat, nat)) -> nat {
    (10 * f.0) / f.1
}

/// The fraction once its next digit has been taken off: the numerator
/// becomes the remainder of ten times itself.
pub open spec fn advanced(f: (nat, nat)) -> (nat, nat) {
    ((10 * f.0) % f.1, f.1)
}

/// Sum of the next digits of all the fractions.
pub open spec fn pool_sum(s: Seq<(nat, nat)>) -> nat
    decreases s.len(),
{
    if s.len() == 0 {
        0
    } else {
        pool_sum(s.drop_last()) + digit_of(s.last())
    }
}

/// A digit buffer read as integers.
pub open spec fn cells(v: Seq<u8>) -> Seq<int> {
    v.map_values(|x: u8| x as int)
}

/// Every digit after the leading one is a decimal digit.
pub open spec fn cells_ok(b: Seq<int>) -> bool {
    &&& b.len() >= 1
    &&& 0 <= b[0] <= 255
    &&& forall|k: int| 1 <= k < b.len() ==> 0 <= #[trigger] b[k] <= 9
}

/// Moves the overflow of position `j` leftward until a position holds a
/// decimal digit. The leading position, the integer part, keeps at most 255.
pub open spec fn carry_from(b: Seq<int>, j: int) -> Seq<int>
    decreases j,
{
    if 1 <= j < b.len() && b[j] >= 10 {
        let up = if j == 1 {
            if b[0] + b[1] / 10 > 255 {
                255
            } else {
                b[0] + b[1] / 10
            }
        } else {
            b[j - 1] + b[j] / 10
        };
        carry_from(b.update(j - 1, up).update(j, b[j] % 10), j - 1)
    } else {
        b
    }
}

/// Adds `digit`, one decimal digit at a time from the right, at position
/// `index` and leftward, carrying after each; gives the buffer and the
/// position left of the last one written.
pub open spec fn add_digit_sum(b: Seq<int>, index: int, digit: nat) -> (Seq<int>, int)
    decreases digit,
{
    if digit == 0 || index <= 0 || index >= b.len() {
        (b, index)
    } else {
        add_digit_sum(
            carry_from(b.update(index, b[index] + digit % 10), index),
            index - 1,
            digit / 10,
        )
    }
}

proof fn lemma_cells(v: Seq<u8>)
    ensures
        cells(v).len() == v.len(),
        forall|k: int| 0 <= k < v.len() ==> #[trigger] cells(v)[k] == v[k] as int,
{
}

/// Carries from position `index` leftward, in place.
fn carry_left(digits: &mut Vec<u8>, index: usize)
    requires
        1 <= index < old(digits)@.len(),
        old(digits)@[index as int] <= 18,
        forall|k: int| 1 <= k < old(digits)@.len() && k != index ==> #[trigger] old(digits)@[k] <= 9,
    ensures
        cells(final(digits)@) == carry_from(cells(old(digits)@), index as int),
        cells_ok(cells(final(digits)@)),
        final(digits)@.len() == old(digits)@.len(),
{
    let mut j: usize = index;
    while j >= 1 && digits[j] >= 10
        invariant
            j < digits@.len(),
            digits@.len() == old(digits)@.len(),
            carry_from(cells(digits@), j as int) == carry_from(cells(old(digits)@), index as int),
            j >= 1 ==> digits@[j as int] <= 18,
            forall|k: int| 1 <= k < digits@.len() && k != j ==> #[trigger] digits@[k] <= 9,
        decreases j,
    {
        let ghost b = cells(digits@);
        let c = digits[j] / 10;
        let up = if j == 1 {
            digits[0].saturating_add(c)
        } else {
            digits[j - 1] + c
        };
        digits.set(j - 1, up);
        let low = digits[j] % 10;
        digits.set(j, low);
        assert(cells(digits@) =~= b.update(j - 1, up as int).update(j as int, b[j as int] % 10));
        j = j - 1;
    }
    proof {
        lemma_cells(digits@);
    }
}

/// Appends a zero position and adds `digit` there, carrying leftward; gives
/// the position left of the last one written.
fn fold_digit(digits: &mut Vec<u8>, sum: u64) -> (index: usize)
    requires
        old(digits)@.len() < usize::MAX,
        cells_ok(cells(old(digits)@)),
    ensures
        (cells(final(digits)@), index as int) == add_digit_sum(
            cells(old(digits)@).push(0),
            old(digits)@.len() as int,
            sum as nat,
        ),
        cells_ok(cells(final(digits)@)),
        final(digits)@.len() == old(digits)@.len() + 1,
        index < final(digits)@.len(),
{
    digits.push(0);
    assert(cells(digits@) =~= cells(old(digits)@).push(0));
    proof {
        lemma_cells(digits@);
        lemma_cells(old(digits)@);
    }
    let mut index: usize = digits.len() - 1;
    let mut digit = sum;
    while digit > 0 && index > 0
        invariant
            index < digits@.len(),
            digits@.len() == old(digits)@.len() + 1,
            cells_ok(cells(digits@)),
            add_digit_sum(cells(digits@), index as int, digit as nat) == add_digit_sum(
                cells(old(digits)@).push(0),
                old(digits)@.len() as int,
                sum as nat,
            ),
        decreases digit,
    {
        let ghost b = cells(digits@);
        proof {
            lemma_cells(digits@);
        }
        let v = digits[index] + (digit % 10) as u8;
        digits.set(index, v);
        assert(cells(digits@) =~= b.update(index as int, b[index as int] + digit % 10));
        assert forall|k: int| 1 <= k < digits@.len() && k != index implies #[trigger] digits@[k] <= 9 by {
            assert(b[k] <= 9);
        }
        digit = digit / 10;
        carry_left(digits, index);
        index = index - 1;
    }
    index
}

pub open spec fn factorial(n: nat) -> nat
    decreases n,
{
    if n == 0 {
        1
    } else {
        n * factorial((n - 1) as nat)
    }
}

/// The state of the series spigot: the last factorial index `i`, the shared
/// numerator (ten to the power of the decimal places reached), the running
/// factorial `denominator`, the pool of active terms, the pending term that
/// is not active yet, the digit buffer and the precision index.
pub struct SeriesModel {
    pub i: nat,
    pub numerator: nat,
    pub denominator: nat,
    pub terms: Seq<(nat, nat)>,
    pub pending: (nat, nat),
    pub digits: Seq<int>,
    pub precision_index: int,
}

/// The start: `2.5` for `1/0! + 1/1! + 1/2!`, active terms for `1/3!` to
/// `1/9!`, and `1/10!` pending.
pub open spec fn series_start() -> SeriesModel {
    SeriesModel {
        i: 10,
        numerator: 10,
        denominator: factorial(10),
        terms: Seq::new(7, |j: int| (10nat, factorial((j + 3) as nat))),
        pending: (10, factorial(10)),
        digits: seq![2int, 5int],
        precision_index: 0,
    }
}

/// One step: every active term and the pending one give up a digit; a
/// pending term with a nonzero digit becomes active and the next factorial
/// term becomes pending; the sum of the digits is added at a new position.
pub open spec fn series_step(s: SeriesModel) -> SeriesModel {
    let d = digit_of(s.pending);
    let numerator = 10 * s.numerator;
    let moved = s.terms.map_values(|f: (nat, nat)| advanced(f));
    let buf = s.digits.push(0);
    let folded = add_digit_sum(buf, s.digits.len() as int, pool_sum(s.terms) + d);
    if d > 0 {
        SeriesModel {
            i: s.i + 1,
            numerator,
            denominator: s.denominator * (s.i + 1),
            terms: moved.push(advanced(s.pending)),
            pending: (numerator, s.denominator * (s.i + 1)),
            digits: folded.0,
            precision_index: folded.1,
        }
    } else {
        SeriesModel {
            i: s.i,
            numerator,
            denominator: s.denominator,
            terms: moved,
            pending: advanced(s.pending),
            digits: folded.0,
            precision_index: folded.1,
        }
    }
}

/// The state after `n` steps.
pub open spec fn series_run(n: nat) -> SeriesModel
    decreases n,
{
    if n == 0 {
        series_start()
    } else {
        series_step(series_run((n - 1) as nat))
    }
}

/// The character of a decimal digit.
pub open spec fn digit_char(d: int) -> char {
    ((d + 48) as u8) as char
}

/// `2.` and the digits of a buffer after its leading one.
pub open spec fn digits_text(b: Seq<int>) -> Seq<char> {
    seq!['2', '.'] + b.subrange(1, b.len() as int).map_values(|d: int| digit_char(d))
}

/// What the series spigot prints after `n` steps.
pub open spec fn series_text(n: nat) -> Seq<char> {
    let m = series_run(n);
    digits_text(m.digits.subrange(0, m.precision_index + 1))
}

/// What each term needs for its digits: a positive denominator and a
/// numerator below ten times it.
pub open spec fn term_ok(f: (nat, nat)) -> bool {
    f.1 > 0 && f.0 < 10 * f.1
}

/// The invariant of the fractions of the series spigot.
pub open spec fn fractions_ok(s: SeriesModel) -> bool {
    &&& s.i >= 10
    &&& s.denominator > 0
    &&& s.pending == (s.numerator, s.denominator)
    &&& s.numerator < 10 * s.denominator
    &&& forall|k: int| 0 <= k < s.terms.len() ==> term_ok(#[trigger] s.terms[k])
}

proof fn lemma_pool_sum_bound(s: Seq<(nat, nat)>)
    requires
        forall|k: int| 0 <= k < s.len() ==> term_ok(#[trigger] s[k]),
    ensures
        pool_sum(s) <= 99 * s.len(),
    decreases s.len(),
{
    if s.len() > 0 {
        let f = s.last();
        assert(term_ok(s[s.len() - 1]));
        assert(forall|k: int| 0 <= k < s.drop_last().len() ==> s.drop_last()[k] == s[k]);
        lemma_pool_sum_bound(s.drop_last());
        lemma_digit_below_hundred(f);
    }
}

proof fn lemma_digit_below_hundred(f: (nat, nat))
    requires
        term_ok(f),
    ensures
        digit_of(f) < 100,
{
    assert(10 * f.0 < f.1 * 100);
    vstd::arithmetic::div_mod::lemma_multiply_divide_lt((10 * f.0) as int, f.1 as int, 100);
}

proof fn lemma_step_fractions(s: SeriesModel)
    requires
        fractions_ok(s),
    ensures
        fractions_ok(series_step(s)),
        series_step(s).terms.len() <= s.terms.len() + 1,
{
    let d = digit_of(s.pending);
    let n = s.numerator;
    let den = s.denominator;
    let t = series_step(s);
    assert forall|k: int| 0 <= k < s.terms.len() implies term_ok(#[trigger] advanced(s.terms[k])) by {
        assert(term_ok(s.terms[k]));
    }
    assert(term_ok(advanced(s.pending)));
    if d > 0 {
        assert(n < den * (s.i + 1)) by (nonlinear_arith)
            requires
                n < 10 * den,
                s.i >= 10,
        ;
        assert(den * (s.i + 1) > 0) by (nonlinear_arith)
            requires
                den > 0,
        ;
        assert forall|k: int| 0 <= k < t.terms.len() implies term_ok(#[trigger] t.terms[k]) by {
            if k < s.terms.len() {
                assert(t.terms[k] == advanced(s.terms[k]));
            }
        }
    } else {
        assert(10 * n < den) by {
            if 10 * n >= den {
                vstd::arithmetic::div_mod::lemma_div_is_ordered(den as int, (10 * n) as int, den as int);
                vstd::arithmetic::div_mod::lemma_div_basics(den as int);
            }
        }
        vstd::arithmetic::div_mod::lemma_small_mod((10 * n) as nat, den);
        assert forall|k: int| 0 <= k < t.terms.len() implies term_ok(#[trigger] t.terms[k]) by {
            assert(t.terms[k] == advanced(s.terms[k]));
        }
    }
}

/// Relies on `String::from_utf8`: ASCII bytes are valid UTF-8, one character
/// per byte, of the same code.
#[verifier::external_body]
fn ascii_string(bytes: Vec<u8>) -> (r: String)
    requires
        forall|k: int| 0 <= k < bytes@.len() ==> #[trigger] bytes@[k] < 128,
    ensures
        r@ == bytes@.map_values(|b: u8| b as char),
{
    match String::from_utf8(bytes) {
        Ok(s) => s,
        Err(_) => String::new(),
    }
}

/// `2.` followed by the digits of the buffer after its leading one.
fn e_digits(digits: &[u8]) -> (r: String)
    requires
        digits@.len() >= 1,
        forall|k: int| 1 <= k < digits@.len() ==> #[trigger] digits@[k] <= 9,
    ensures
        r@ == digits_text(cells(digits@)),
{
    let mut buf: Vec<u8> = vec![50u8, 46u8];
    let mut k: usize = 1;
    while k < digits.len()
        invariant
            1 <= k <= digits@.len(),
            forall|m: int| 1 <= m < digits@.len() ==> #[trigger] digits@[m] <= 9,
            buf@.len() == k + 1,
            buf@[0] == 50,
            buf@[1] == 46,
            forall|m: int| 1 <= m < k ==> #[trigger] buf@[m + 1] == digits@[m] + 48,
        decreases digits@.len() - k,
    {
        buf.push(digits[k] + 48);
        k += 1;
    }
    proof {
        lemma_cells(digits@);
        let want = digits_text(cells(digits@));
        assert forall|m: int| 0 <= m < buf@.len() implies #[trigger] buf@[m] < 128 by {
            if m >= 2 {
                assert(buf@[(m - 1) + 1] == digits@[m - 1] + 48);
            }
        }
        let got = buf@.map_values(|b: u8| b as char);
        assert forall|m: int| 0 <= m < buf@.len() implies #[trigger] got[m] == want[m] by {
            if m >= 2 {
                assert(buf@[(m - 1) + 1] == digits@[m - 1] + 48);
            }
        }
        assert(got =~= want);
    }
    ascii_string(buf)
}

/// A term `numerator / denominator` of the series.
pub struct Fraction {
    numerator: BigUint,
    denominator: BigUint,
}

impl View for Fraction {
    type V = (nat, nat);

    closed spec fn view(&self) -> (nat, nat) {
        (nat_of(self.numerator), nat_of(self.denominator))
    }
}

/// The fractions of a pool, as pairs of numbers.
pub open spec fn pool_view(terms: Seq<Fraction>) -> Seq<(nat, nat)> {
    terms.map_values(|f: Fraction| f@)
}

/// A fraction whose next digit can be taken: a positive denominator and a
/// digit that fits in a `u32`.
pub open spec fn digit_ready(f: (nat, nat)) -> bool {
    f.1 > 0 && digit_of(f) <= u32::MAX
}

impl Fraction {
    /// The fraction `numerator / denominator`.
    pub fn new(numerator: BigUint, denominator: BigUint) -> (r: Fraction)
        ensures
            r@ == (nat_of(numerator), nat_of(denominator)),
    {
        Fraction { numerator, denominator }
    }

    /// Takes off the next decimal digit and returns it.
    pub fn next_digit(&mut self) -> (d: u32)
        requires
            digit_ready(old(self)@),
        ensures
            d == digit_of(old(self)@),
            final(self)@ == advanced(old(self)@),
    {
        let ghost n0 = nat_of(self.numerator);
        let ghost den = nat_of(self.denominator);
        let ten = nat_from(10);
        nat_mul_assign(&mut self.numerator, &ten);
        let q = nat_div(&self.numerator, &self.denominator);
        let d = nat_to_u32(&q).unwrap();
        assert(nat_of(self.numerator) == 10 * n0);
        assert(d == (10 * n0) / den);
        proof {
            vstd::arithmetic::div_mod::lemma_fundamental_div_mod((10 * n0) as int, den as int);
            assert(den * d <= 10 * n0) by (nonlinear_arith)
                requires
                    den * d + (10 * n0) % den == 10 * n0,
                    (10 * n0) % den >= 0,
            ;
        }
        match d {
            0 => {
                assert(den * d == 0) by (nonlinear_arith)
                    requires
                        d == 0,
                ;
            },
            1 => {
                assert(den * d == den) by (nonlinear_arith)
                    requires
                        d == 1,
                ;
                nat_sub_assign(&mut self.numerator, &self.denominator);
            },
            _ => {
                let m = nat_mul(&self.denominator, &nat_from(d));
                nat_sub_assign(&mut self.numerator, &m);
                assert(nat_of(self.numerator) == 10 * n0 - den * d);
            },
        }
        assert(nat_of(self.numerator) == 10 * n0 - den * d);
        d
    }
}

/// Relies on rayon's `par_iter_mut`, `map` and `sum`: every fraction of the
/// pool gives up its next digit exactly once, and the digits are added up.
#[verifier::external_body]
fn pool_digit_sum(terms: &mut Vec<Fraction>) -> (r: u64)
    requires
        forall|k: int| 0 <= k < old(terms)@.len() ==> digit_ready(#[trigger] old(terms)@[k]@),
        pool_sum(pool_view(old(terms)@)) <= u64::MAX,
    ensures
        r == pool_sum(pool_view(old(terms)@)),
        pool_view(final(terms)@) == pool_view(old(terms)@).map_values(|f: (nat, nat)| advanced(f)),
{
    terms.par_iter_mut().map(|term| u64::from(term.next_digit())).sum::<u64>()
}

} // verus!

verus! {

/// The largest number of steps that `calc_e` takes: the buffer length stays
/// within a 32-bit `usize`, and the digit sum of a step within a `u64`.
pub const MAX_PRECISION: usize = 0xffff_0000;

/// The digits of e by the series spigot run for `precision` steps: `2.` and
/// the buffer's digits up to the precision index of the last step; the
/// positions after it may still change by carries and are left out.
pub fn calc_e(precision: usize) -> (r: String)
    requires
        precision <= MAX_PRECISION,
    ensures
        r@ == series_text(precision as nat),
{
    let mut digits: Vec<u8> = vec![2u8, 5u8];
    let mut terms: Vec<Fraction> = Vec::new();
    let mut i = nat_from(2);
    let mut numerator = nat_from(10);
    let mut denominator = nat_from(2);
    proof {
        reveal_with_fuel(factorial, 3);
    }
    let mut k: u32 = 3;
    while k < 10
        invariant
            3 <= k <= 10,
            nat_of(i) == k - 1,
            nat_of(numerator) == 10,
            nat_of(denominator) == factorial((k - 1) as nat),
            pool_view(terms@) =~= Seq::new((k - 3) as nat, |j: int| (10nat, factorial((j + 3) as nat))),
        decreases 10 - k,
    {
        nat_inc(&mut i);
        nat_mul_assign(&mut denominator, &i);
        assert(nat_of(denominator) == factorial(k as nat)) by {
            lemma_mul_commutes(factorial((k - 1) as nat), k as nat);
        }
        let ghost before = terms@;
        terms.push(Fraction::new(nat_clone(&numerator), nat_clone(&denominator)));
        assert(pool_view(terms@) =~= pool_view(before).push((10nat, factorial(k as nat))));
        k += 1;
    }
    nat_inc(&mut i);
    nat_mul_assign(&mut denominator, &i);
    assert(nat_of(denominator) == factorial(10)) by {
        lemma_mul_commutes(factorial(9), 10);
    }
    let mut next_term = Fraction::new(nat_clone(&numerator), nat_clone(&denominator));
    let mut current_precision_index: usize = 0;
    let mut p: usize = 0;
    proof {
        lemma_cells(digits@);
        assert(cells(digits@) =~= seq![2int, 5int]);
        let s0 = series_start();
        assert(pool_view(terms@) =~= s0.terms);
        assert forall|j: int| 0 <= j < s0.terms.len() implies term_ok(#[trigger] s0.terms[j]) by {
            lemma_factorial_grows((j + 3) as nat);
        }
        lemma_factorial_grows(10);
    }
    while p < precision
        invariant
            p <= precision <= MAX_PRECISION,
            nat_of(i) == series_run(p as nat).i,
            nat_of(numerator) == series_run(p as nat).numerator,
            nat_of(denominator) == series_run(p as nat).denominator,
            pool_view(terms@) == series_run(p as nat).terms,
            next_term@ == series_run(p as nat).pending,
            cells(digits@) == series_run(p as nat).digits,
            current_precision_index == series_run(p as nat).precision_index,
            fractions_ok(series_run(p as nat)),
            terms@.len() <= 7 + p,
            digits@.len() == p + 2,
            cells_ok(cells(digits@)),
            current_precision_index < digits@.len(),
        decreases precision - p,
    {
        let ghost s = series_run(p as nat);
        let ghost old_terms = terms@;
        proof {
            lemma_step_fractions(s);
            lemma_pool_sum_bound(s.terms);
            assert forall|j: int| 0 <= j < terms@.len() implies digit_ready(#[trigger] terms@[j]@) by {
                assert(pool_view(terms@)[j] == terms@[j]@);
                lemma_digit_below_hundred(s.terms[j]);
            }
            lemma_digit_below_hundred(s.pending);
        }
        let mut digit = pool_digit_sum(&mut terms);
        let d = next_term.next_digit();
        let ten = nat_from(10);
        nat_mul_assign(&mut numerator, &ten);
        if d > 0 {
            digit = digit + d as u64;
            let ghost moved = terms@;
            terms.push(next_term);
            assert(pool_view(terms@) =~= pool_view(moved).push(advanced(s.pending)));
            nat_inc(&mut i);
            nat_mul_assign(&mut denominator, &i);
            next_term = Fraction::new(nat_clone(&numerator), nat_clone(&denominator));
        }
        let index = fold_digit(&mut digits, digit);
        current_precision_index = index;
        p += 1;
        assert(series_run(p as nat) == series_step(s));
    }
    let ghost full = digits@;
    let mut out = digits;
    out.truncate(current_precision_index + 1);
    proof {
        lemma_cells(full);
        lemma_cells(out@);
        assert(cells(out@) =~= cells(full).subrange(0, current_precision_index + 1));
        assert forall|k: int| 1 <= k < out@.len() implies #[trigger] out@[k] <= 9 by {
            assert(cells(full)[k] <= 9);
        }
    }
    e_digits(out.as_slice())
}

/// With no steps the series spigot prints the integer part alone: `2.`.
pub proof fn lemma_no_steps_text()
    ensures
        series_text(0) == seq!['2', '.'],
{
    let b = series_start().digits.subrange(0, 1);
    assert(b.subrange(1, b.len() as int).map_values(|d: int| digit_char(d)) =~= Seq::<char>::empty());
    assert(series_text(0) =~= seq!['2', '.']);
}

proof fn lemma_factorial_grows(n: nat)
    ensures
        factorial(n) >= 1,
        factorial(n) >= n,
    decreases n,
{
    if n > 0 {
        lemma_factorial_grows((n - 1) as nat);
        assert(n * factorial((n - 1) as nat) >= n) by (nonlinear_arith)
            requires
                factorial((n - 1) as nat) >= 1,
        ;
    }
}

proof fn lemma_mul_commutes(a: nat, b: nat)
    ensures
        a * b == b * a,
{
}

} // verus!
