use realistic::computable::Computable;
use realistic::rational::Rational;
use realistic::reals::Real;
use realistic::simple::{Simple, Symbols};
use realistic::Problem;

#[test]
fn equality_is_symmetric_and_transitive() {
    let a: Real = "6/4".parse().unwrap();
    let b: Real = "3/2".parse().unwrap();
    let c = Real::new(Rational::fraction(-9, -6).unwrap());
    assert!(a == b && b == a);
    assert!(b == c && a == c);
    let r = Rational::fraction(3, 2).unwrap();
    assert!(a == r && r == a);
}

#[test]
fn irrationals_are_never_known_equal() {
    let x = Real::new(Rational::new(2)).sin();
    assert!(x != x.clone());
}

#[test]
fn adding_the_negation_gives_zero() {
    let three_pi = Real::new(Rational::new(3)) * Real::pi();
    let minus = -three_pi.clone();
    assert!((three_pi + minus).definitely_zero());
    let root: Real = 12.into();
    let root = root.sqrt().unwrap();
    assert_eq!(root.clone() + (-root), Real::zero());
}

#[test]
fn times_the_inverse_gives_one() {
    let one: Real = 1.into();
    let r: Real = "-7/3".parse().unwrap();
    assert_eq!(r.clone() * r.inverse().unwrap(), one);
    let root: Real = 18.into();
    let root = root.sqrt().unwrap();
    assert_eq!(root.clone() * root.inverse().unwrap(), one);
    let e = Real::new(Rational::new(5)).exp().unwrap();
    assert_eq!(e.clone() * e.inverse().unwrap(), one);
}

#[test]
fn ln_of_exp_is_the_exponent() {
    let q = Rational::fraction(3, 2).unwrap();
    let x = Real::new(q.clone());
    assert_eq!(x.exp().unwrap().ln().unwrap(), q);
}

#[test]
fn exp_of_ln_is_the_number() {
    for text in ["8", "1/8", "81/16", "7/3", "1"] {
        let x: Real = text.parse().unwrap();
        let back = x.clone().ln().unwrap().exp().unwrap();
        assert_eq!(back, x, "{text}");
    }
}

#[test]
fn rational_text_reads_back() {
    for text in ["0", "-5", "22/7", "-1/1000000000000000000000000"] {
        let r: Rational = text.parse().unwrap();
        assert_eq!(r.to_string(), text);
        let back: Rational = r.to_string().parse().unwrap();
        assert_eq!(back, r);
    }
    let r: Rational = "0.125".parse().unwrap();
    assert_eq!(r.to_string(), "1/8");
}

#[test]
fn real_text_reads_back() {
    let x: Real = "-98760/123450".parse().unwrap();
    assert_eq!(x.to_string(), "-4/5");
    let back: Real = x.to_string().parse().unwrap();
    assert_eq!(back, x);
}

#[test]
fn machine_integers_convert_back() {
    for n in [i64::MIN, -1, 0, 1, i64::MAX] {
        let r: Rational = n.into();
        let back: i64 = r.try_into().unwrap();
        assert_eq!(back, n);
    }
    let r: Rational = u128::MAX.into();
    let back: u128 = r.try_into().unwrap();
    assert_eq!(back, u128::MAX);
}

#[test]
fn square_of_root_is_the_number() {
    for n in [12, 49, 50, 1_000_003] {
        let x: Real = n.into();
        let root = x.clone().sqrt().unwrap();
        assert_eq!(root.clone() * root, x);
    }
    let x: Real = "9/8".parse().unwrap();
    let root = x.clone().sqrt().unwrap();
    assert_eq!(root.clone() * root, x);
}

#[test]
fn sine_and_cosine_of_whole_turns() {
    let five_pi = Real::new(Rational::new(5)) * Real::pi();
    assert_eq!(five_pi.clone().sin(), Real::zero());
    let minus_one: Real = (-1).into();
    assert_eq!(five_pi.cos(), minus_one);
    let minus_four_pi = Real::new(Rational::new(-4)) * Real::pi();
    let one: Real = 1.into();
    assert_eq!(minus_four_pi.cos(), one);
}

#[test]
fn names_read_back_what_was_written() {
    let mut names = Symbols::new();
    names.insert("x", 2.into());
    names.insert("y", 5.into());
    names.insert("x", 3.into());
    let xpr: Simple = "(+ x y 1)".parse().unwrap();
    assert_eq!(xpr.evaluate(&names).unwrap(), Rational::new(9));
    let unknown: Simple = "(+ z 1)".parse().unwrap();
    assert_eq!(unknown.evaluate(&names), Err(Problem::NotFound));
}

#[test]
fn whole_numbers_display_as_their_digits() {
    for n in [0i64, 7, -7, 10, 1000, -120, 123_456_789, i64::MAX, i64::MIN] {
        let real = Real::new(Rational::new(n));
        assert_eq!(real.display(None, false), n.to_string());
        let c = Computable::rational(Rational::new(n));
        assert_eq!(c.display(None, false), n.to_string());
    }
}
