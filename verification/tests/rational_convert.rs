use realistic::natural::{Integer, Natural};
use realistic::rational::Rational;
use realistic::Problem;

#[test]
fn signed_integers() {
    let one: Rational = i8::MAX.into();
    let two: Rational = i16::MAX.into();
    let three: Rational = i32::MAX.into();
    let four: Rational = i64::MAX.into();
    assert_eq!(one, Rational::new(0x7f));
    assert_eq!(two, Rational::new(0x7fff));
    assert_eq!(three, Rational::new(0x7fff_ffff));
    assert_eq!(four, Rational::new(0x7fff_ffff_ffff_ffff));
}

#[test]
fn unsigned_integers() {
    let one: Rational = u8::MAX.into();
    let two: Rational = u16::MAX.into();
    let three: Rational = u32::MAX.into();
    assert_eq!(one, Rational::new(0xff));
    assert_eq!(two, Rational::new(0xffff));
    assert_eq!(three, Rational::new(0xffff_ffff));
}

#[test]
fn nines() {
    let nine = Rational::new(99);
    let n_i8: i8 = nine.clone().try_into().unwrap();
    let n_u32: u32 = nine.clone().try_into().unwrap();
    let n_i64: i64 = nine.clone().try_into().unwrap();
    let n_u128: u128 = nine.clone().try_into().unwrap();
    assert_eq!(n_i8, 99);
    assert_eq!(n_u32, 99);
    assert_eq!(n_i64, 99);
    assert_eq!(n_u128, 99);
}

#[test]
fn not_int() {
    let almost_pi = Rational::fraction(22, 7).unwrap();
    let problem = <Rational as TryInto<i16>>::try_into(almost_pi).unwrap_err();
    assert_eq!(problem, Problem::NotAnInteger);
    let almost_pi = Rational::fraction(22, 7).unwrap();
    let three: u32 = almost_pi.trunc().try_into().unwrap();
    assert_eq!(three, 3);
}

#[test]
fn huge() {
    let huge = Rational::new(123_456_789);
    let problem = <Rational as TryInto<i16>>::try_into(huge).unwrap_err();
    assert_eq!(problem, Problem::OutOfRange);
}

#[test]
fn negative() {
    let minus_100 = Rational::new(-100);
    let problem = <Rational as TryInto<u8>>::try_into(minus_100).unwrap_err();
    assert_eq!(problem, Problem::OutOfRange);
}

#[test]
fn convert_zero() {
    let f: f32 = 0.0;
    let d: f64 = 0.0;
    let a: Rational = Rational::from_f32_bits(f.to_bits()).unwrap();
    let b: Rational = Rational::from_f64_bits(d.to_bits()).unwrap();
    let zero = Rational::zero();
    assert_eq!(a, zero);
    assert_eq!(b, zero);
}

#[test]
fn half_from_float() {
    let half = 0.5_f32;
    let correct = Rational::fraction(1, 2).unwrap();
    let answer: Rational = Rational::from_f32_bits(half.to_bits()).unwrap();
    assert_eq!(answer, correct);
    let half = 0.5_f64;
    let answer: Rational = Rational::from_f64_bits(half.to_bits()).unwrap();
    assert_eq!(answer, correct);
}

#[test]
fn repr_f32() {
    let f: f32 = 1.23456789;
    let a: Rational = Rational::from_f32_bits(f.to_bits()).unwrap();
    let correct = Rational::fraction(5178153, 4194304).unwrap();
    assert_eq!(a, correct);
}

#[test]
fn repr_f64() {
    let f: f64 = 1.23456789;
    let a: Rational = Rational::from_f64_bits(f.to_bits()).unwrap();
    let correct = Rational::fraction(5559999489367579, 4503599627370496).unwrap();
    assert_eq!(a, correct);
}

#[test]
fn reduced_binary_fraction_f64() {
    let value: Rational = Rational::from_f64_bits(0.75_f64.to_bits()).unwrap();
    assert_eq!(value, Rational::fraction(3, 4).unwrap());
}

#[test]
fn special_floats() {
    assert_eq!(Rational::from_f64_bits(f64::INFINITY.to_bits()), Err(Problem::Infinity));
    assert_eq!(Rational::from_f32_bits(f32::NAN.to_bits()), Err(Problem::NotANumber));
    let tiny = Rational::from_f64_bits(1).unwrap();
    let two = Rational::new(2);
    let mut expected = Rational::one();
    for _ in 0..1074 {
        expected = expected.div(&two);
    }
    assert_eq!(tiny, expected);
    let big = Rational::from_f32_bits((2.0f32).powi(100).to_bits()).unwrap();
    let p = Rational::new(2).powi(&realistic::natural::Integer::from_i64(100)).unwrap();
    assert_eq!(big, p);
}

#[test]
fn reduced_subnormal_f64() {
    let value: Rational = Rational::from_f64_bits(f64::from_bits(2).to_bits()).unwrap();
    let correct = Rational::from_bigint_fraction(
        Integer::from_i64(1),
        Natural::from_u64(1).shl(1073),
    )
    .unwrap();
    assert_eq!(value, correct);
}
