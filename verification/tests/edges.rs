use realistic::computable::Computable;
use realistic::natural::{Integer, Natural};
use realistic::rational::Rational;
use realistic::reals::{Class, Real};
use realistic::reals::text::Scalar;
use realistic::simple::{Simple, Symbols};
use realistic::{Problem, Sign};
use std::sync::atomic::AtomicBool;
use std::sync::Arc;

#[test]
fn every_problem_has_an_input() {
    assert_eq!("1/x".parse::<Rational>(), Err(Problem::ParseError));
    assert_eq!("1/0".parse::<Rational>(), Err(Problem::DivideByZero));
    let minus_four: Real = (-4).into();
    assert_eq!(minus_four.clone().sqrt(), Err(Problem::SqrtNegative));
    assert_eq!(minus_four.clone().ln(), Err(Problem::NotANumber));
    let half_pi = Real::new(Rational::fraction(1, 2).unwrap()) * Real::pi();
    assert_eq!(half_pi.tan(), Err(Problem::NotANumber));
    let third: Real = "1/3".parse().unwrap();
    assert_eq!(minus_four.pow(third), Err(Problem::NotAnInteger));
    let none: Simple = "(- )".parse().unwrap();
    assert_eq!(none.evaluate(&Symbols::new()), Err(Problem::InsufficientParameters));
    let big = Rational::new(1000);
    assert_eq!(<Rational as TryInto<i8>>::try_into(big), Err(Problem::OutOfRange));
    assert_eq!(Rational::from_f32_bits(f32::NEG_INFINITY.to_bits()), Err(Problem::Infinity));
    let zero = Real::zero();
    assert_eq!(Real::pi() / zero, Err(Problem::DivideByZero));
    assert_eq!(Real::zero().powi(Integer::zero()), Err(Problem::NotANumber));
    let whole: Simple = "(exp 1 2)".parse().unwrap();
    assert_eq!(whole.evaluate(&Symbols::new()), Err(Problem::ParseError));
}

#[test]
fn parse_messages() {
    assert_eq!("+ 1 2".parse::<Simple>(), Err("No parenthetical expression"));
    assert_eq!("(% 1 2)".parse::<Simple>(), Err("Unexpected symbol while looking for an operator"));
    assert_eq!("(+1 2)".parse::<Simple>(), Err("No whitespace after operator"));
    assert_eq!("(+ 1 ?)".parse::<Simple>(), Err("Unexpected character while looking for operands ..."));
    assert_eq!("(+ 1/0)".parse::<Simple>(), Err("Attempting to divide by zero"));
    assert_eq!("(+ 1..2)".parse::<Simple>(), Err("Unable to parse number"));
    assert_eq!("(x 1)".parse::<Simple>(), Err("No such operator"));
    assert!("(+ 1_000,000 '5)".parse::<Simple>().is_err());
    let sum: Simple = "(+ 1_000,000 2)".parse().unwrap();
    assert_eq!(sum.evaluate(&Symbols::new()).unwrap(), Rational::new(1_000_002));
}

#[test]
fn literal_arithmetic_is_exact() {
    let names = Symbols::new();
    let xpr: Simple = "(- 1 1/2 1/3)".parse().unwrap();
    assert_eq!(xpr.evaluate(&names).unwrap(), Rational::fraction(1, 6).unwrap());
    let xpr: Simple = "(/ 1 2 3)".parse().unwrap();
    assert_eq!(xpr.evaluate(&names).unwrap(), Rational::fraction(1, 6).unwrap());
    let xpr: Simple = "(/ 1 2 0)".parse().unwrap();
    assert_eq!(xpr.evaluate(&names), Err(Problem::DivideByZero));
    let xpr: Simple = "(*)".parse::<Simple>().err().map(|_| "(* )".parse().unwrap()).unwrap();
    assert_eq!(xpr.evaluate(&names).unwrap(), Rational::new(1));
    let xpr: Simple = "(+ )".parse().unwrap();
    assert_eq!(xpr.evaluate(&names).unwrap(), Real::zero());
    let xpr: Simple = "(- -3)".parse().unwrap();
    assert_eq!(xpr.evaluate(&names).unwrap(), Rational::new(3));
}

#[test]
fn natural_arithmetic() {
    let a = Natural::from_u64(u64::MAX);
    let b = Natural::from_u64(3);
    assert_eq!(a.add(&b).to_u128(), Some(u64::MAX as u128 + 3));
    assert_eq!(a.sub(&b).to_u64(), Some(u64::MAX - 3));
    assert_eq!(a.mul(&b).to_u128(), Some(u64::MAX as u128 * 3));
    let (q, r) = a.div_rem(&Natural::from_u64(10));
    assert_eq!((q.to_u64(), r.to_u64()), (Some(u64::MAX / 10), Some(u64::MAX % 10)));
    assert_eq!(Natural::from_u64(84).gcd(&Natural::from_u64(36)).to_u64(), Some(12));
    assert!(b.less(&a) && !a.less(&b));
    assert!(a.equal(&a.clone()) && !a.equal(&b));
    assert_eq!(b.shl(70).to_u128(), Some(3u128 << 70));
    assert_eq!(Natural::from_u64(99).sqrt_floor().to_u64(), Some(9));
    assert_eq!(Natural::from_u64(1024).bits(), 11);
    assert_eq!(Natural::from_u64(3).pow(40).to_u128(), Some(3u128.pow(40)));
    assert!(Natural::from_u64(6).bit(1) && !Natural::from_u64(6).bit(0));
}

#[test]
fn integer_arithmetic() {
    let a = Integer::from_i64(-7);
    let b = Integer::from_i64(2);
    assert_eq!(a.sign(), Sign::Minus);
    assert!(a.is_odd());
    assert!(a.half_floor().less(&Integer::from_i64(-3)));
    assert!(!a.div_floor(&Natural::from_u64(2)).less(&Integer::from_i64(-4)));
    assert!(a.add(&b).less(&Integer::from_i64(-4)));
    assert!(a.mul(&b).less(&Integer::from_i64(-13)));
    assert!(a.shr(1).less(&Integer::from_i64(-3)));
}

#[test]
fn rational_operations() {
    let x = Rational::fraction(6, -4).unwrap();
    assert_eq!(x.to_string(), "-3/2");
    assert_eq!(x.fract(), Rational::fraction(1, 2).unwrap());
    assert_eq!(x.trunc(), Rational::new(-1));
    assert_eq!(x.shifted_big_integer(0).sign(), Sign::Minus);
    assert_eq!(x.powi(&Integer::from_i64(-3)).unwrap(), Rational::fraction(-8, 27).unwrap());
    assert_eq!(Rational::zero().powi(&Integer::from_i64(-1)), Err(Problem::DivideByZero));
    assert!(Rational::fraction(1, 3).unwrap().prefer_fraction());
    assert!(!Rational::fraction(1, 8).unwrap().prefer_fraction());
    assert_eq!(x.clone() + Rational::one(), Rational::fraction(-1, 2).unwrap());
    assert_eq!(x.clone() - Rational::one(), Rational::fraction(-5, 2).unwrap());
    assert_eq!(x.clone() / x.clone(), Rational::one());
    assert_eq!(-x, Rational::fraction(3, 2).unwrap());
}

#[test]
fn real_queries() {
    let half: Real = "1/2".parse().unwrap();
    assert!(half.is_rational() && !half.is_integer());
    assert!(!half.prefer_fraction());
    let third: Real = "1/3".parse().unwrap();
    assert!(third.prefer_fraction());
    assert!(!Real::pi().is_rational());
    assert!(Real::zero().definitely_not_equal(&Real::pi()));
    assert!(!Real::pi().definitely_not_equal(&Real::e()));
    assert_eq!(Real::pi().best_sign(), Sign::Plus);
    assert_eq!((-Real::e()).best_sign(), Sign::Minus);
    assert_eq!(Real::e().to_string(), "1 x e**(1)");
    assert_eq!(Real::pi().to_string(), "1 Pi");
    let seven: Real = "7/2".parse().unwrap();
    assert_eq!(seven.clone().ln().unwrap().to_string(), "1 x ln(7/2)");
    let two: Real = 2.into();
    assert_eq!(two.clone().sqrt().unwrap().to_string(), "1 √(2)");
    assert_eq!(two.log10().unwrap().to_string(), "1 x log10(2)");
    let sixth = Real::new(Rational::fraction(1, 5).unwrap()) * Real::pi();
    assert_eq!(sixth.clone().sin().to_string(), "1 x sin(1/5 x Pi)");
    assert_eq!(sixth.tan().unwrap().to_string(), "1 x tan(1/5 x Pi)");
    assert_eq!(Real::new(Rational::new(2)).sin().to_string(), "1 x Irrational");
}

#[test]
fn exact_trigonometry() {
    let at = |n: i64, d: i64| Real::new(Rational::fraction(n, d).unwrap()) * Real::pi();
    assert_eq!(at(1, 6).sin(), Rational::fraction(1, 2).unwrap());
    assert_eq!(at(7, 6).sin(), Rational::fraction(-1, 2).unwrap());
    assert_eq!(at(1, 3).sin().to_string(), "1/2 √(3)");
    assert_eq!(at(3, 4).tan().unwrap(), Rational::new(-1));
    assert_eq!(at(1, 6).tan().unwrap().to_string(), "1/3 √(3)");
    assert_eq!(at(1, 3).cos(), Rational::fraction(1, 2).unwrap());
}

#[test]
fn signs_in_text() {
    let x = Computable::rational(Rational::fraction(-5, 4).unwrap());
    assert_eq!(x.display(Some(2), false), "-1.25");
    assert_eq!(x.lower_exp(Some(1), false), "-1.2e0");
    let y = Computable::rational(Rational::fraction(5, 4).unwrap());
    assert_eq!(y.display(None, true), "+1.25");
    assert_eq!(y.upper_exp(None, true), "+1.25E0");
    let r: Real = "1234567/1000".parse().unwrap();
    assert_eq!(r.decimal(Some(1), false), "1234.6");
    let tiny: Real = "1/100000000000".parse().unwrap();
    assert_eq!(tiny.decimal(None, false), "1e-11");
}

#[test]
fn aborting_keeps_the_value() {
    let mut pi = Real::pi();
    pi.abort(Arc::new(AtomicBool::new(false)));
    assert_eq!(pi.lower_exp(Some(4), false), "3.1416e0");
    let mut c = Computable::pi();
    c.abort(Arc::new(AtomicBool::new(false)));
    assert_eq!(c.display(Some(3), false), "3.142");
}

#[test]
fn floats_from_reals() {
    let x: Real = "-1/1024".parse().unwrap();
    assert_eq!(f64::from_bits(x.to_f64_bits()), -1.0 / 1024.0);
    assert_eq!(f64::from_bits(Real::zero().to_f64_bits()), 0.0);
    let huge = Real::new(Rational::new(10)).powi(Integer::from_i64(400)).unwrap();
    assert_eq!(f64::from_bits(huge.to_f64_bits()), f64::INFINITY);
}

#[test]
fn evaluation_meets_the_first_problem() {
    let names = Symbols::new();
    let xpr: Simple = "(+ 1 x)".parse().unwrap();
    assert_eq!(xpr.evaluate(&names), Err(Problem::NotFound));
    let xpr: Simple = "(sqrt (- 0 4))".parse().unwrap();
    assert_eq!(xpr.evaluate(&names), Err(Problem::SqrtNegative));
    let xpr: Simple = "(/ 1 (- 2 2))".parse().unwrap();
    assert_eq!(xpr.evaluate(&names), Err(Problem::DivideByZero));
    let xpr: Simple = "(* (ln 0) y)".parse().unwrap();
    assert_eq!(xpr.evaluate(&names), Err(Problem::NotANumber));
}

#[test]
fn evaluation_with_names_and_functions() {
    let mut names = Symbols::new();
    names.insert("x", Real::new(Rational::new(3)));
    let xpr: Simple = "(- x)".parse().unwrap();
    assert_eq!(xpr.evaluate(&names).unwrap(), Rational::new(-3));
    let xpr: Simple = "(pow x 3)".parse().unwrap();
    assert_eq!(xpr.evaluate(&names).unwrap(), Rational::new(27));
    let xpr: Simple = "(^ (+ x 1) (/ 1 2))".parse().unwrap();
    assert_eq!(xpr.evaluate(&names).unwrap(), Rational::new(2));
    let xpr: Simple = "(/ x)".parse().unwrap();
    assert_eq!(xpr.evaluate(&names).unwrap(), Rational::fraction(1, 3).unwrap());
}

#[test]
fn parse_reads_names_and_numbers_with_separators() {
    let names = Symbols::new();
    let xpr: Simple = "(+ 1_000,000 2'000)".parse().unwrap();
    assert_eq!(xpr.evaluate(&names).unwrap(), Rational::new(1_002_000));
    assert_eq!("(+ 1 2".parse::<Simple>(), Err("Incomplete expression"));
    assert_eq!("(sin\t1)".parse::<Simple>().is_ok(), true);
    assert_eq!("(sinh 1)".parse::<Simple>(), Err("No such operator"));
}

#[test]
fn reals_from_plain_values() {
    assert_eq!(Real::from_scalar(Scalar::Integer(5)).unwrap(), Rational::new(5));
    assert_eq!(Real::from_scalar(Scalar::Integer(i64::MIN as i128)).unwrap(), Rational::new(i64::MIN));
    assert_eq!(Real::from_scalar(Scalar::Integer(i64::MAX as i128 + 1)), Err(Problem::BadInteger));
    assert_eq!(
        Real::from_scalar(Scalar::Float(0.5f64.to_bits())).unwrap(),
        Rational::fraction(1, 2).unwrap()
    );
    assert_eq!(Real::from_scalar(Scalar::Float(f64::NAN.to_bits())), Err(Problem::NotANumber));
    assert_eq!(Real::from_scalar(Scalar::Float(f64::INFINITY.to_bits())), Err(Problem::Infinity));
    assert_eq!(
        Real::from_scalar(Scalar::Text("1/3".to_string())).unwrap(),
        Rational::fraction(1, 3).unwrap()
    );
    assert_eq!(Real::from_scalar(Scalar::Text("x".to_string())), Err(Problem::ParseError));
}

#[test]
fn classes_compare_by_value() {
    assert!(Class::Pi == Class::Pi);
    assert!(Class::Sqrt(Rational::new(2)) == Class::Sqrt(Rational::fraction(4, 2).unwrap()));
    assert!(Class::Sqrt(Rational::new(2)) != Class::Sqrt(Rational::new(3)));
    assert!(Class::Ln(Rational::new(2)) != Class::Exp(Rational::new(2)));
    assert!(Class::Irrational != Class::Irrational);
}

#[test]
fn zero_against_a_difference_that_is_zero() {
    let two = Real::new(Rational::new(2));
    let three = Real::new(Rational::new(3));
    let w = two.sqrt().unwrap() + three.sqrt().unwrap();
    let y = w.clone() - w;
    assert!(!Real::zero().definitely_not_equal(&y));
    assert!(!y.definitely_not_equal(&Real::zero()));
    assert!(Real::zero().definitely_not_equal(&Real::pi()));
    assert!(Real::pi().definitely_not_equal(&Real::zero()));
}

#[test]
fn zero_factor_is_kept_with_the_class_of_one() {
    let r = Real::from_parts(Rational::zero(), Class::Pi, Computable::pi()).unwrap();
    assert!(r.is_rational());
    assert!(r.definitely_zero());
    let s = Real::from_parts(Rational::new(2), Class::Pi, Computable::pi()).unwrap();
    assert!(!s.is_rational());
}

#[test]
fn cosine_is_the_shifted_sine() {
    let third = Real::new(Rational::fraction(1, 3).unwrap()) * Real::pi();
    let half = Real::new(Rational::fraction(1, 2).unwrap()) * Real::pi();
    let c = third.clone().cos();
    let s = (third + half).sin();
    assert_eq!(c.to_string(), s.to_string());
    assert_eq!(c.to_string(), "1/2");
}

#[test]
fn inverse_twice_gives_back() {
    let root = Real::new(Rational::new(3)) * Real::new(Rational::new(2)).sqrt().unwrap();
    let back = root.clone().inverse().unwrap().inverse().unwrap();
    assert_eq!(back.to_string(), root.to_string());
    let e = Real::e();
    assert_eq!(e.clone().inverse().unwrap().inverse().unwrap().to_string(), e.to_string());
}

#[test]
fn logarithm_of_exponential_of_zero() {
    let l = Real::zero().exp().unwrap().ln().unwrap();
    assert!(l.definitely_zero());
}

#[test]
fn parts_out_of_form_are_refused() {
    let four = Class::Sqrt(Rational::new(4));
    assert_eq!(
        Real::from_parts(Rational::one(), four, Computable::pi()).err(),
        Some(Problem::OutOfRange)
    );
    let sixth = Class::SinPi(Rational::fraction(1, 6).unwrap());
    assert_eq!(
        Real::from_parts(Rational::one(), sixth, Computable::pi()).err(),
        Some(Problem::OutOfRange)
    );
    let twenty = Class::Log10(Rational::new(20));
    assert_eq!(
        Real::from_parts(Rational::one(), twenty, Computable::pi()).err(),
        Some(Problem::OutOfRange)
    );
    let two = Class::Sqrt(Rational::new(2));
    assert!(Real::from_parts(Rational::one(), two, Computable::pi()).is_ok());
}

#[test]
fn log_reads_as_the_natural_logarithm() {
    let log: Simple = "(log 5)".parse().unwrap();
    let ln: Simple = "(ln 5)".parse().unwrap();
    let a = log.evaluate(&Symbols::new()).unwrap();
    let b = ln.evaluate(&Symbols::new()).unwrap();
    assert_eq!(a.to_string(), b.to_string());
}

#[test]
fn zero_adds_nothing() {
    let x = Real::new(Rational::new(3)) * Real::pi();
    assert_eq!((x.clone() + Real::zero()).to_string(), x.to_string());
    assert_eq!((Real::zero() + x.clone()).to_string(), x.to_string());
    let q: Real = "5/7".parse().unwrap();
    assert_eq!((q.clone() + Real::zero()).to_string(), q.to_string());
}
