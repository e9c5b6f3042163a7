use rust_bot::decimal::{Dec, MAX_MANTISSA};

fn parts(d: Dec) -> (i128, u32) {
    (d.mantissa(), d.scale())
}

fn big(mantissa: i128, scale: u32) -> Dec {
    Dec::from_parts(mantissa, scale).unwrap()
}

#[test]
fn a_sum_has_the_larger_scale() {
    let r = Dec::new(15, 1).checked_add(Dec::new(250, 3)).unwrap();
    assert_eq!(parts(r), (1750, 3));
    let r = Dec::new(15, 1).checked_add(Dec::new(-15, 1)).unwrap();
    assert_eq!(parts(r), (0, 1));
}

#[test]
fn a_sum_with_zero_is_the_other_operand() {
    assert_eq!(parts(Dec::new(0, 7).checked_add(Dec::new(15, 1)).unwrap()), (15, 1));
    assert_eq!(parts(Dec::new(15, 1).checked_add(Dec::new(0, 7)).unwrap()), (15, 1));
}

#[test]
fn a_sum_of_wide_mantissas_is_exact() {
    let r = big(1i128 << 89, 10).checked_add(big(3, 12)).unwrap();
    assert_eq!(parts(r), (100 * (1i128 << 89) + 3, 12));
    let r = big(-(1i128 << 80), 4).checked_add(big(1i128 << 70, 4)).unwrap();
    assert_eq!(parts(r), ((1i128 << 70) - (1i128 << 80), 4));
}

#[test]
fn a_sum_out_of_range_is_none() {
    assert!(big(MAX_MANTISSA, 0).checked_add(Dec::one()).is_none());
}

#[test]
fn a_difference_has_the_larger_scale() {
    let r = Dec::new(1, 0).checked_sub(Dec::new(65, 2)).unwrap();
    assert_eq!(parts(r), (35, 2));
    assert_eq!(parts(Dec::new(0, 7).checked_sub(Dec::new(15, 1)).unwrap()), (-15, 1));
    assert_eq!(parts(Dec::new(15, 1).checked_sub(Dec::new(0, 7)).unwrap()), (15, 1));
}

#[test]
fn a_difference_that_fits_is_exact_whatever_its_operands_need() {
    let r = Dec::new(10, 0).checked_sub(big(50000000000000000000000000001, 28)).unwrap();
    assert_eq!(parts(r), (49999999999999999999999999999, 28));
    let r = Dec::new(10, 0).checked_sub(big(33333333333333333333333333333, 28)).unwrap();
    assert_eq!(parts(r), (66666666666666666666666666667, 28));
    let r = Dec::new(-8, 0).checked_add(big(MAX_MANTISSA, 28)).unwrap();
    assert_eq!(parts(r), (MAX_MANTISSA - 80000000000000000000000000000, 28));
    let r = big(-(1i128 << 90), 4).checked_add(big((1i128 << 90) * 10 - 1, 5)).unwrap();
    assert_eq!(parts(r), (-1, 5));
}

#[test]
fn a_sum_that_does_not_fit_is_rounded_to_the_most_places() {
    // One bit too many at the common scale.
    let r = big(MAX_MANTISSA, 3).checked_add(big(MAX_MANTISSA, 3)).unwrap();
    assert_eq!(parts(r), (15845632502852867518708790067, 2));
    // An exact half goes to the even neighbour, and anything more goes up.
    let ten = 10_000_000_000_000_000_000_000_000_000;
    assert_eq!(parts(big(ten + 2, 0).checked_add(Dec::new(5, 1)).unwrap()), (ten + 2, 0));
    assert_eq!(parts(big(ten + 3, 0).checked_add(Dec::new(5, 1)).unwrap()), (ten + 4, 0));
    assert_eq!(parts(big(ten + 2, 0).checked_add(Dec::new(501, 3)).unwrap()), (ten + 3, 0));
    assert_eq!(parts(big(-ten - 3, 0).checked_sub(Dec::new(5, 1)).unwrap()), (-ten - 4, 0));
    // A sum that rounds to 96 bits and one more is given one place less.
    let r = big(MAX_MANTISSA, 1).checked_add(Dec::new(6, 2)).unwrap();
    assert_eq!(parts(r), (7922816251426433759354395034, 0));
    assert!(big(MAX_MANTISSA, 0).checked_add(Dec::new(5, 1)).is_none());
    assert_eq!(parts(big(MAX_MANTISSA, 0).checked_add(Dec::new(4, 1)).unwrap()), (MAX_MANTISSA, 0));
}

#[test]
fn a_difference_that_does_not_fit_is_rounded_to_the_most_places() {
    let r = big(100_000_000_000_000_000_000, 0).checked_sub(Dec::new(1, 20)).unwrap();
    assert_eq!(parts(r), (10_000_000_000_000_000_000_000_000_000, 8));
    let r = Dec::new(10, 0).checked_sub(Dec::new(1, 28)).unwrap();
    assert_eq!(parts(r), (10_000_000_000_000_000_000_000_000_000, 27));
    let ten = 10_000_000_000_000_000_000_000_000_000;
    assert_eq!(parts(big(ten, 0).checked_sub(Dec::new(50, 1)).unwrap()), (ten - 5, 0));
    assert_eq!(parts(big(ten, 0).checked_sub(Dec::new(55, 1)).unwrap()), (ten - 6, 0));
    assert_eq!(parts(Dec::new(5, 1).checked_sub(big(ten + 2, 0)).unwrap()), (-ten - 2, 0));
}

#[test]
fn a_product_that_does_not_fit_is_rounded_to_the_most_places() {
    assert_eq!(parts(Dec::new(5, 15).checked_mul(Dec::new(3, 14)).unwrap()), (2, 28));
    assert_eq!(parts(Dec::new(5, 15).checked_mul(Dec::new(1, 14)).unwrap()), (0, 28));
    assert_eq!(parts(Dec::new(-5, 15).checked_mul(Dec::new(3, 14)).unwrap()), (-2, 28));
    assert_eq!(parts(Dec::new(51, 15).checked_mul(Dec::new(1, 15)).unwrap()), (1, 28));
    assert_eq!(parts(Dec::new(7, 24).checked_mul(Dec::new(9, 24)).unwrap()), (0, 0));
    assert_eq!(parts(big(1i128 << 40, 24).checked_mul(Dec::new(9, 24)).unwrap()), (0, 28));
    let r = big(1i128 << 95, 10).checked_mul(Dec::new(30, 1)).unwrap();
    assert_eq!(parts(r), (11884224377139650639031592550, 9));
    let r = big(1i128 << 95, 20).checked_mul(big(1i128 << 95, 28)).unwrap();
    assert_eq!(parts(r), (15692754338466701909589473558, 19));
}

#[test]
fn a_product_adds_the_scales() {
    let r = Dec::new(7, 2).checked_mul(Dec::new(-65, 2)).unwrap();
    assert_eq!(parts(r), (-455, 4));
    assert_eq!(parts(Dec::new(0, 5).checked_mul(Dec::new(15, 1)).unwrap()), (0, 0));
    let r = big(1i128 << 60, 3).checked_mul(big(1i128 << 30, 2)).unwrap();
    assert_eq!(parts(r), (1i128 << 90, 5));
    assert!(big(MAX_MANTISSA, 0).checked_mul(Dec::new(2, 0)).is_none());
}

#[test]
fn an_even_quotient_is_exact() {
    assert_eq!(parts(Dec::new(-600, 2).checked_div(Dec::new(4, 1)).unwrap()), (-150, 1));
    assert_eq!(parts(Dec::new(0, 2).checked_div(Dec::new(4, 1)).unwrap()), (0, 0));
    let r = big(3 * (1i128 << 70), 6).checked_div(big(1i128 << 70, 2)).unwrap();
    assert_eq!(parts(r), (3, 4));
    assert!(Dec::one().checked_div(Dec::new(0, 3)).is_none());
}

#[test]
fn an_uneven_quotient_is_rounded() {
    let r = Dec::one().checked_div(Dec::new(3, 0)).unwrap();
    assert_eq!(parts(r), (3333333333333333333333333333, 28));
}

#[test]
fn rounding_goes_to_the_even_neighbour() {
    assert_eq!(parts(Dec::new(25, 1).round()), (2, 0));
    assert_eq!(parts(Dec::new(35, 1).round()), (4, 0));
    assert_eq!(parts(Dec::new(-25, 1).round()), (-2, 0));
    assert_eq!(parts(Dec::new(251, 2).round()), (3, 0));
}

#[test]
fn decimals_compare_by_value() {
    assert!(Dec::new(10, 1) == Dec::new(100, 2));
    assert!(Dec::new(99, 2).less_than(Dec::one()));
    assert!(!Dec::one().less_than(Dec::new(100, 2)));
    assert!(Dec::new(-1, 0).less_than(Dec::new(0, 9)));
}

#[test]
fn a_decimal_is_written_with_all_its_places() {
    assert_eq!(Dec::new(-1050, 3).to_text(), "-1.050");
    assert_eq!(Dec::new(5, 2).to_text(), "0.05");
    assert_eq!(Dec::new(-5, 2).to_text(), "-0.05");
    assert_eq!(Dec::new(120, 0).to_text(), "120");
    assert_eq!(Dec::new(0, 2).to_text(), "0.00");
}

#[test]
fn a_quotient_that_is_a_decimal_number_is_exact() {
    let r = Dec::new(3, 2).checked_div(Dec::new(10, 0)).unwrap();
    assert!(r == Dec::new(3, 3));
    assert!(r.scale() == 3 || r.scale() == 4);
    assert_eq!(parts(Dec::one().checked_div(Dec::new(8, 0)).unwrap()), (125, 3));
    assert_eq!(parts(Dec::new(7, 0).checked_div(Dec::new(2, 3)).unwrap()), (3500, 0));
}

/// Takes the zeros off the end of a mantissa as long as there are places for them.
fn shortest(mut m: i128, mut s: u32) -> (i128, u32) {
    while s > 0 && m % 10 == 0 {
        m /= 10;
        s -= 1;
    }
    (m, s)
}

#[test]
fn exact_quotients_have_their_value_and_at_most_one_spare_zero() {
    let quotients = [1i128, -3, 5, 16, 125, 999_999_937, 1 << 40, -(3 << 33), 7_777_777_777_777];
    let divisors = [
        1i128, 2, 5, 8, 10, 25, 64, 3125, 1 << 20, 1_953_125, 1_000_000_000, 4_294_967_296,
        10_000_000_000, 152_587_890_625, 1 << 50, -(5 << 45), 1_000_000_000_000_000_000, 1 << 66,
        9_313_225_746_154_785_156_250, 1 << 80,
    ];
    let mut seen = 0;
    for q in quotients {
        for b in divisors {
            for qs in 0..=28u32 {
                for bs in (0..=28u32).step_by(4) {
                    let Some(product) = q.checked_mul(b) else { continue };
                    let (am, as_) = shortest(product, qs + bs);
                    let Some(a) = Dec::from_parts(am, as_) else { continue };
                    let r = a.checked_div(big(b, bs)).unwrap();
                    assert!(r == big(q, qs), "{am}e-{as_} / {b}e-{bs} = {r:?}");
                    let places = if as_ >= bs && am % b == 0 {
                        as_ - bs
                    } else {
                        shortest(q, qs).1
                    };
                    let spare = r.scale() - places;
                    assert!(spare <= 1, "{am}e-{as_} / {b}e-{bs} = {r:?}");
                    seen += 1;
                }
            }
        }
    }
    assert!(seen > 10_000);
}

#[test]
fn a_rounded_quotient_is_the_nearest_number() {
    let over = |a: Dec, b: Dec| a.checked_div(b).map(|q| q.to_text());
    let text = |s: &str| Some(s.to_string());
    assert_eq!(over(Dec::new(1, 0), Dec::new(3, 0)), text("0.3333333333333333333333333333"));
    assert_eq!(over(Dec::new(2, 0), Dec::new(3, 0)), text("0.6666666666666666666666666667"));
    assert_eq!(over(Dec::new(-2, 0), Dec::new(3, 0)), text("-0.6666666666666666666666666667"));
    assert_eq!(over(Dec::new(1, 0), Dec::new(7, 0)), text("0.1428571428571428571428571429"));
    assert_eq!(over(Dec::new(100, 0), Dec::new(3, 0)), text("33.333333333333333333333333333"));
    assert_eq!(
        over(big(MAX_MANTISSA, 0), Dec::new(2, 0)),
        text("39614081257132168796771975168"),
        "a half that no place is left for"
    );
    assert!(Dec::new(1, 28).checked_div(Dec::new(3, 0)).unwrap().is_zero());
    assert_eq!(over(big(MAX_MANTISSA, 0), Dec::new(1, 1)), None);
    assert_eq!(over(big(MAX_MANTISSA, 0), Dec::new(99, 2)), None);
}

#[test]
fn rounded_quotients_keep_the_order() {
    let lots = [3, 7, 9_999_999_967, i64::MAX];
    let values = [1, 2, 999_999_999_999, 1_000_000_000_000, i64::MAX - 1, i64::MAX];
    for lot in lots {
        for pair in values.windows(2) {
            let low = Dec::new(pair[0], 10).checked_div(Dec::new(lot, 6)).unwrap();
            let high = Dec::new(pair[1], 10).checked_div(Dec::new(lot, 6)).unwrap();
            assert!(!high.less_than(low), "{} and {} over {lot}", pair[0], pair[1]);
        }
    }
    let edge = big(79_228_162_514_264_337_593_543_950_335, 10);
    let below = edge.checked_div(Dec::new(3, 0)).unwrap();
    let above = edge.checked_div(Dec::new(2_999_999_999, 9)).unwrap();
    assert!(below.less_than(above));
}

/// A number of at least 0 by its decimal digits, the last one first.
type Digits = Vec<u8>;

fn digits_of(m: i128, zeros: u32) -> Digits {
    let mut v = vec![0; zeros as usize];
    let mut n = m.unsigned_abs();
    while n > 0 {
        v.push((n % 10) as u8);
        n /= 10;
    }
    trimmed(v)
}

fn trimmed(mut v: Digits) -> Digits {
    while v.last() == Some(&0) {
        v.pop();
    }
    v
}

fn below(a: &Digits, b: &Digits) -> bool {
    a.len() < b.len() || (a.len() == b.len() && a.iter().rev().lt(b.iter().rev()))
}

fn sum(a: &Digits, b: &Digits) -> Digits {
    let mut v = Vec::new();
    let mut carry = 0;
    for i in 0..a.len().max(b.len()) + 1 {
        let n = a.get(i).unwrap_or(&0) + b.get(i).unwrap_or(&0) + carry;
        v.push(n % 10);
        carry = n / 10;
    }
    trimmed(v)
}

fn difference(a: &Digits, b: &Digits) -> Digits {
    let mut v = Vec::new();
    let mut borrow = 0;
    for i in 0..a.len() {
        let n = 10 + a[i] - b.get(i).unwrap_or(&0) - borrow;
        v.push(n % 10);
        borrow = 1 - n / 10;
    }
    trimmed(v)
}

fn product(a: &Digits, b: &Digits) -> Digits {
    let mut v = Vec::new();
    for (i, d) in b.iter().enumerate() {
        for _ in 0..*d {
            let mut shifted = vec![0; i];
            shifted.extend(a);
            v = sum(&v, &shifted);
        }
    }
    v
}

/// The nearest number without the last `k` digits, an exact half going to the even one.
fn without(v: &Digits, k: usize) -> Digits {
    let q: Digits = v.iter().skip(k).copied().collect();
    let rest = trimmed(v.iter().take(k).copied().collect());
    let mut half = vec![0; k];
    if let Some(top) = half.last_mut() {
        *top = 5;
    }
    let odd = q.first().unwrap_or(&0) % 2 == 1;
    if k > 0 && (below(&half, &rest) || (half == rest && odd)) {
        sum(&q, &vec![1])
    } else {
        trimmed(q)
    }
}

/// `v / 10^s` at the most places, up to `t`, at which it fits.
fn fitted(negative: bool, v: &Digits, s: u32, t: u32) -> Option<(i128, u32)> {
    let most = digits_of(MAX_MANTISSA, 0);
    let t = (0..=t).rev().find(|t| !below(&most, &without(v, (s - t) as usize)))?;
    let m = without(v, (s - t) as usize).iter().rev().fold(0, |n, d| n * 10 + *d as i128);
    Some((if negative { -m } else { m }, t))
}

fn added(a: (i128, u32), b: (i128, u32)) -> Option<(i128, u32)> {
    let s = a.1.max(b.1);
    let (x, y) = (digits_of(a.0, s - a.1), digits_of(b.0, s - b.1));
    if (a.0 < 0) == (b.0 < 0) {
        fitted(a.0 < 0, &sum(&x, &y), s, s)
    } else if below(&x, &y) {
        fitted(b.0 < 0, &difference(&y, &x), s, s)
    } else {
        fitted(a.0 < 0, &difference(&x, &y), s, s)
    }
}

fn multiplied(a: (i128, u32), b: (i128, u32)) -> Option<(i128, u32)> {
    let s = a.1 + b.1;
    if a.0.abs() < 1 << 32 && b.0.abs() < 1 << 32 && s > 47 {
        return Some((0, 0));
    }
    let v = product(&digits_of(a.0, 0), &digits_of(b.0, 0));
    fitted((a.0 < 0) != (b.0 < 0), &v, s, s.min(28))
}

/// The number without places that is nearest to `n / d`, an exact half going to the even
/// one.
fn divided(n: &Digits, d: &Digits) -> Digits {
    let (mut q, mut rest): (Digits, Digits) = (Vec::new(), Vec::new());
    for digit in n.iter().rev() {
        rest.insert(0, *digit);
        rest = trimmed(rest);
        let mut times = 0;
        while !below(&rest, d) {
            rest = difference(&rest, d);
            times += 1;
        }
        q.insert(0, times);
    }
    let q = trimmed(q);
    let twice = sum(&rest, &rest);
    let odd = q.first().unwrap_or(&0) % 2 == 1;
    if below(d, &twice) || (*d == twice && odd) {
        sum(&q, &vec![1])
    } else {
        q
    }
}

/// The digits of `a / b` at the most places at which it fits, and those places.
fn quotient(a: (i128, u32), b: (i128, u32)) -> Option<(Digits, u32)> {
    let most = digits_of(MAX_MANTISSA, 0);
    let d = digits_of(b.0, a.1);
    let whole = divided(&digits_of(a.0, b.1), &d).len() as u32;
    for t in (0..=28.min(30u32.saturating_sub(whole))).rev() {
        let q = divided(&digits_of(a.0, b.1 + t), &d);
        if !below(&most, &q) {
            return Some((q, t));
        }
    }
    None
}

/// Mantissas of all sizes, many of them next to a power of two or of ten.
fn operand(seed: &mut u64) -> (i128, u32) {
    let mut next = || {
        *seed = seed.wrapping_mul(6364136223846793005).wrapping_add(1442695040888963407);
        *seed >> 33
    };
    let wide = ((next() as i128) << 65) ^ ((next() as i128) << 34) ^ next() as i128;
    let m = match next() % 4 {
        0 => (1i128 << (next() % 96)) + (next() % 7) as i128 - 3,
        1 => 10i128.pow((next() % 29) as u32) + (next() % 7) as i128 - 3,
        2 => MAX_MANTISSA - (next() % 9) as i128,
        _ => wide >> (next() % 96),
    };
    let m = m.clamp(1, MAX_MANTISSA);
    (if next() % 2 == 0 { m } else { -m }, (next() % 29) as u32)
}

#[test]
fn amounts_of_every_size_are_exact_or_nearest() {
    let mut seed = 42;
    let (mut rounded, mut none) = (0, 0);
    for _ in 0..20_000 {
        let (a, b) = (operand(&mut seed), operand(&mut seed));
        let (x, y) = (big(a.0, a.1), big(b.0, b.1));
        let total = x.checked_add(y).map(parts);
        assert_eq!(total, added(a, b), "{a:?} + {b:?}");
        assert_eq!(x.checked_sub(y).map(parts), added(a, (-b.0, b.1)), "{a:?} - {b:?}");
        assert_eq!(x.checked_mul(y).map(parts), multiplied(a, b), "{a:?} * {b:?}");
        rounded += total.is_some_and(|t| t.1 < a.1.max(b.1)) as u32;
        none += total.is_none() as u32;
    }
    assert!(rounded > 1_000 && none > 100, "{rounded} rounded, {none} out of range");
}

#[test]
fn quotients_of_every_size_are_exact_or_nearest() {
    let mut seed = 7;
    let (mut halves, mut none) = (0, 0);
    for i in 0..3_000 {
        let (a, mut b) = (operand(&mut seed), operand(&mut seed));
        if i % 3 == 0 {
            // A power of two below the line makes exact halves.
            b.0 = 1 << (b.0.unsigned_abs() % 96);
        }
        let r = big(a.0, a.1).checked_div(big(b.0, b.1)).map(parts);
        match (r, quotient(a, b)) {
            (Some((m, s)), Some((q, t))) => {
                assert!(s <= t, "{a:?} / {b:?}");
                assert_eq!(digits_of(m, t - s), q, "{a:?} / {b:?}");
                assert!(m == 0 || (m < 0) == ((a.0 < 0) != (b.0 < 0)), "{a:?} / {b:?}");
                let n = sum(&digits_of(a.0, b.1 + t), &digits_of(a.0, b.1 + t));
                let d = digits_of(b.0, a.1);
                let odd = divided(&n, &d);
                halves += (odd.first().unwrap_or(&0) % 2 == 1 && product(&odd, &d) == n) as u32;
            }
            (None, None) => none += 1,
            other => panic!("{a:?} / {b:?}: {other:?}"),
        }
    }
    assert!(halves > 10 && none > 100, "{halves} exact halves, {none} out of range");
}
