use realistic::rational::Rational;
use realistic::reals::Real;
use realistic::reals::functions::curve;
use realistic::Problem;

fn to_f64(r: &Real) -> f64 {
    f64::from_bits(r.to_f64_bits())
}

fn closest_f64(r: Real, f: f64) -> bool {
    let left = f64::from_bits(f.to_bits() - 1);
    let right = f64::from_bits(f.to_bits() + 1);
    let f: f64 = to_f64(&r);
    if right > left {
        left < f && right > f
    } else {
        left > f && right < f
    }
}

#[test]
fn test_zero() {
    assert_eq!(Real::zero(), Real::zero());
}

#[test]
fn parse() {
    let counting: Real = "123456789".parse().unwrap();
    let answer = Real::new(Rational::new(123456789));
    assert_eq!(counting, answer);
}

#[test]
fn parse_large() {
    let input: Real = "378089444731722233953867379643788100".parse().unwrap();
    let root = Rational::new(614889782588491410);
    let answer = Real::new(root.clone() * root);
    assert_eq!(input, answer);
}

#[test]
fn parse_fraction() {
    let input: Real = "98760/123450".parse().unwrap();
    let answer = Real::new(Rational::fraction(9876, 12345).unwrap());
    assert_eq!(input, answer);
}

#[test]
fn root_divide() {
    let twenty: Real = 20.into();
    let five: Real = 5.into();
    let a = twenty.sqrt().unwrap();
    let b = five.sqrt().unwrap().inverse().unwrap();
    let answer = a * b;
    let two: Real = 2.into();
    assert_eq!(answer, two);
}

#[test]
fn rational() {
    let two: Real = 2.into();
    assert_ne!(two, Real::zero());
    let four: Real = 4.into();
    let answer = four - two;
    let two: Real = 2.into();
    assert_eq!(answer, two);
    let zero = answer - two;
    assert_eq!(zero, Real::zero());
    let six_half: Real = "13/2".parse().unwrap();
    let opposite = six_half.inverse().unwrap();
    let expected: Real = "2/13".parse().unwrap();
    assert_eq!(opposite, expected);
}

#[test]
fn perfect_square() {
    let four: Real = 4.into();
    let two: Real = 2.into();
    let calc = four.sqrt().unwrap() - two;
    assert_eq!(calc, Real::zero());
}

#[test]
fn one_over_e() {
    let one: Real = 1.into();
    let e = Real::e();
    let e_inverse = Real::e().inverse().unwrap();
    let answer = e * e_inverse;
    assert_eq!(one, answer);
    let again = answer.sqrt().unwrap();
    assert_eq!(one, again);
}

#[test]
fn unlike_sqrts() {
    let thirty: Real = 30.into();
    let ten: Real = 10.into();
    let answer = thirty.sqrt().unwrap() * ten.sqrt().unwrap();
    let ten: Real = 10.into();
    let three: Real = 3.into();
    let or = ten * three.sqrt().unwrap();
    assert_eq!(answer, or);
}

#[test]
fn zero_pi() {
    let pi = Real::pi();
    let z1 = pi - Real::pi();
    let pi2 = Real::pi() + Real::pi();
    let z2 = pi2 * Real::zero();
    assert!(z1.definitely_zero());
    assert!(z2.definitely_zero());
    let two_pi = Real::pi() + Real::pi();
    let two: Real = 2.into();
    assert_eq!(two_pi, two * Real::pi());
    assert_ne!(two_pi, Rational::new(2));
}

#[test]
fn ln_zero() {
    let zero = Real::zero();
    assert_eq!(zero.ln(), Err(Problem::NotANumber));
}

#[test]
fn sqrt_exact() {
    let big: Real = 40_000.into();
    let small: Rational = Rational::new(200);
    let answer = big.sqrt().unwrap();
    assert_eq!(answer, small);
}

#[test]
fn square_sqrt() {
    let two: Real = 2.into();
    let three: Real = 3.into();
    let small = three.sqrt().expect("Should be able to sqrt(n)");
    let a = small * two;
    let three: Real = 3.into();
    let small = three.sqrt().expect("Should be able to sqrt(n)");
    let three: Real = 3.into();
    let b = small * three;
    let answer = a * b;
    let eighteen: Rational = Rational::new(18);
    assert_eq!(answer, eighteen);
}

#[test]
fn adding_one_works() {
    let pi = Real::pi();
    let one: Real = 1.into();
    let plus_one = pi + one;
    let float: f64 = to_f64(&plus_one);
    assert_eq!(float, 4.141592653589793);
}

#[test]
fn sin_easy() {
    let pi = Real::pi();
    let zero = Real::zero();
    let two: Real = 2.into();
    let two_pi = pi.clone() * two;
    assert_eq!(zero.clone().sin(), zero);
    assert_eq!(pi.clone().sin(), zero);
    assert_eq!(two_pi.clone().sin(), zero);
}

#[test]
fn cos_easy() {
    let pi = Real::pi();
    let zero = Real::zero();
    let one: Real = 1.into();
    let two: Real = 2.into();
    let two_pi = pi.clone() * two;
    let minus_one: Real = (-1).into();
    assert_eq!(zero.clone().cos(), one);
    assert_eq!(pi.clone().cos(), minus_one);
    assert_eq!(two_pi.clone().cos(), one);
}

#[test]
fn powi() {
    let base: Real = 4.into();
    let five_over_two: Real = "5/2".parse().unwrap();
    let answer = base.pow(five_over_two).unwrap();
    let correct: Real = 32.into();
    assert_eq!(answer, correct);
}

#[test]
fn sqrt_3045512() {
    let n: Real = 3045512.into();
    let sqrt = n.sqrt().unwrap();
    assert_eq!(sqrt.to_string(), "1234 √(2)");
}

#[test]
fn pow_pi() {
    let pi = Real::pi();
    let sq = pi.pow(Real::pi()).unwrap();
    assert!(closest_f64(sq.clone(), 36.46215960720791));
    let sqsq = sq.pow(Real::pi()).unwrap();
    assert!(closest_f64(sqsq, 80662.6659385546));
}

#[test]
fn pow_fract() {
    let frac: Real = "-1.3".parse().unwrap();
    let five: Real = 5.into();
    let answer = frac.pow(five).unwrap();
    assert!(closest_f64(answer, -3.7129299999999996));
}

#[test]
fn pow_of_sine() {
    let sin_10 = Real::new(Rational::new(10)).sin();
    let answer = (sin_10.clone()).pow(Real::new(Rational::new(2))).unwrap();
    assert!(closest_f64(answer, 0.29595896909330400696886606953617752145));
}

#[test]
fn test_exp_pi() {
    let pi = Real::pi();
    assert_eq!(pi.lower_exp(Some(2), false), "3.14e0");
    assert_eq!(pi.upper_exp(Some(4), false), "3.1416E0");
    assert_eq!(pi.lower_exp(Some(8), false), "3.14159265e0");
    assert_eq!(pi.upper_exp(Some(16), false), "3.1415926535897932E0");
    assert_eq!(pi.lower_exp(Some(32), false), "3.14159265358979323846264338327950e0");
    assert_eq!(pi.lower_exp(None, false), "3.1415926535897932384626433832795e0");
}

#[test]
fn ln_division() {
    let fifth = Rational::fraction(2, 10).unwrap();
    let twenty_fifth = Rational::fraction(4, 100).unwrap();
    let ln_5th = Real::new(fifth).ln().unwrap();
    let ln_25th = Real::new(twenty_fifth).ln().unwrap();
    let answer = ln_25th / ln_5th;
    assert_eq!(answer.unwrap(), Rational::new(2));
}

#[test]
fn integer_logs() {
    for (n, log) in [
        (1, 0),
        (10, 1),
        (10_000_000_000_000_000, 16),
        (100_000_000_000_000_000, 17),
        (1000_000_000_000_000_000, 18),
    ] {
        let n = Real::new(Rational::new(n));
        let answer = n.log10().unwrap();
        assert_eq!(answer, Rational::new(log));
    }
}

#[test]
fn curves() {
    let eighty = Rational::fraction(80, 100).unwrap();
    let twenty = Rational::fraction(20, 100).unwrap();
    assert_eq!(curve(eighty), (false, twenty));
    let forty = Rational::fraction(40, 100).unwrap();
    let sixty = Rational::fraction(60, 100).unwrap();
    assert_eq!(curve(sixty), (false, forty));
    let otf = Rational::fraction(124, 100).unwrap();
    let tf = Rational::fraction(24, 100).unwrap();
    assert_eq!(curve(otf), (true, tf));
}
