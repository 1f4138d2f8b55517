use e_spigot::continued_fraction::{cf_digits, cf_term, ContinuedFractionDigits};
use e_spigot::series::{calc_e, Fraction};
use num::BigUint;

const E_DIGITS: &str = "271828182845904523536028747135266249775724709369995957496696";

fn digits_text(v: &[u8]) -> String {
    v.iter().map(|d| char::from(b'0' + *d)).collect()
}

#[test]
fn cf_term_first_twelve() {
    let terms: Vec<u64> = (0..12).map(cf_term).collect();
    assert_eq!(terms, vec![2, 1, 2, 1, 1, 4, 1, 1, 6, 1, 1, 8]);
}

#[test]
fn cf_term_later_terms() {
    assert_eq!(cf_term(14), 10);
    assert_eq!(cf_term(15), 1);
    assert_eq!(cf_term(299), 200);
}

#[test]
fn cf_first_twenty_digits() {
    assert_eq!(
        cf_digits(20),
        vec![2, 7, 1, 8, 2, 8, 1, 8, 2, 8, 4, 5, 9, 0, 4, 5, 2, 3, 5, 3]
    );
}

#[test]
fn cf_sixty_digits() {
    assert_eq!(digits_text(&cf_digits(60)), E_DIGITS);
}

#[test]
fn cf_next_digit_pulls_one_at_a_time() {
    let mut e = ContinuedFractionDigits::new();
    assert_eq!(e.next_digit(), Some(2));
    assert_eq!(e.next_digit(), Some(7));
    assert_eq!(e.next_digit(), Some(1));
    assert_eq!(e.take_digits(3), vec![8, 2, 8]);
}

#[test]
fn cf_extract_waits_for_terms() {
    let mut e = ContinuedFractionDigits::new();
    assert_eq!(e.extract(), None);
    e.absorb();
    assert_eq!(e.extract(), None);
    e.absorb();
    assert_eq!(e.extract(), None);
    e.absorb();
    assert_eq!(e.extract(), Some(2));
    e.produce(2);
    assert_eq!(e.extract(), None);
}

#[test]
fn series_known_outputs() {
    assert_eq!(calc_e(1), "2.");
    assert_eq!(calc_e(2), "2.7");
    assert_eq!(calc_e(5), "2.7182");
    assert_eq!(calc_e(10), "2.718281828");
    assert_eq!(calc_e(20), "2.7182818284590452353");
    assert_eq!(
        calc_e(50),
        "2.718281828459045235360287471352662497757247093699"
    );
}

#[test]
fn series_matches_continued_fraction() {
    for n in [0usize, 1, 2, 3, 10, 100, 500] {
        let text = calc_e(n);
        assert!(text.starts_with("2."));
        let shown = &text[2..];
        let cf = digits_text(&cf_digits(n + 1));
        assert!(shown.len() <= n);
        assert_eq!(shown, &cf[1..1 + shown.len()], "precision {}", n);
    }
}

#[test]
fn series_thousand_digits_agree() {
    let text = calc_e(1000);
    let shown = &text[2..];
    assert_eq!(shown.len(), 997);
    let cf = digits_text(&cf_digits(1001));
    assert_eq!(shown, &cf[1..998]);
}

#[test]
fn fresh_runs_agree() {
    assert_eq!(calc_e(80), calc_e(80));
    assert_eq!(cf_digits(40), cf_digits(40));
    let mut a = ContinuedFractionDigits::new();
    let mut b = ContinuedFractionDigits::new();
    assert_eq!(a.take_digits(25), b.take_digits(25));
}

#[test]
fn zero_digits() {
    assert_eq!(calc_e(0), "2.");
    assert!(cf_digits(0).is_empty());
    let mut e = ContinuedFractionDigits::new();
    assert!(e.take_digits(0).is_empty());
    assert_eq!(e.next_digit(), Some(2));
}

#[test]
fn series_precision_index_never_decreases() {
    let mut previous = calc_e(0).len();
    for n in 1..300 {
        let shown = calc_e(n).len();
        assert!(shown >= previous, "precision {}", n);
        previous = shown;
    }
}

#[test]
fn fraction_digits_of_one_seventh() {
    let mut f = Fraction::new(BigUint::from(1u32), BigUint::from(7u32));
    let got: Vec<u32> = (0..6).map(|_| f.next_digit()).collect();
    assert_eq!(got, vec![1, 4, 2, 8, 5, 7]);
}

#[test]
fn fraction_first_digit_may_exceed_nine() {
    let mut f = Fraction::new(BigUint::from(10u32), BigUint::from(6u32));
    assert_eq!(f.next_digit(), 16);
    assert_eq!(f.next_digit(), 6);
}
