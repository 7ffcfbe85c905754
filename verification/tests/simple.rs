use realistic::reals::Real;
use realistic::simple::{Simple, Symbols};
use realistic::Problem;

#[test]
fn missing_close() {
    let xpr: Result<Simple, &str> = "(+ (* (e 4) (e 6))".parse();
    assert_eq!(xpr, Err("Incomplete expression"))
}

#[test]
fn parse_named_operators() {
    let cases = [
        "(ln 5)",
        "(l 5)",
        "(log 5)",
        "(log10 5)",
        "(exp 5)",
        "(e 5)",
        "(sqrt 5)",
        "(s 5)",
        "(cos 5)",
        "(sin 5)",
        "(tan 5)",
        "(pow 5 2)",
    ];
    for case in cases {
        let parsed: Result<Simple, &str> = case.parse();
        assert!(parsed.is_ok(), "{case}");
    }
}

#[test]
fn two() {
    let empty = Symbols::new();
    let xpr: Simple = "(* 1/3 15/4 1.6)".parse().unwrap();
    let result = xpr.evaluate(&empty).unwrap();
    let ans = result.to_string();
    assert_eq!(ans, "2");
}

#[test]
fn division_zero() {
    let empty = Symbols::new();
    let xpr: Simple = "(/ 0)".parse().unwrap();
    let result = xpr.evaluate(&empty);
    assert_eq!(result, Err(Problem::DivideByZero))
}

#[test]
fn simple_arithmetic() {
    let empty = Symbols::new();
    let xpr: Simple = "(+ 1 (* 2 3) 4)".parse().unwrap();
    let result = xpr.evaluate(&empty).unwrap();
    assert!(result.is_integer());
    let ans = result.to_string();
    assert_eq!(ans, "11");
}

#[test]
fn fractions() {
    let empty = Symbols::new();
    let xpr: Simple = "(/ (+ 1 2) (* 3 4))".parse().unwrap();
    let result = xpr.evaluate(&empty).unwrap();
    let ans = result.to_string();
    assert_eq!(ans, "1/4");
    let decimal = result.lower_exp(None, false);
    assert_eq!(decimal, "2.5e-1");
}

#[test]
fn sqrts() {
    let empty = Symbols::new();
    let xpr: Simple = "(* (√ 40) (√ 90))".parse().unwrap();
    let result = xpr.evaluate(&empty).unwrap();
    let ans = result.to_string();
    assert_eq!(ans, "60");
    let xpr: Simple = "(* (√ 14) (√ 1666350))".parse().unwrap();
    let result = xpr.evaluate(&empty).unwrap();
    let ans = result.to_string();
    assert_eq!(ans, "4830");
}

#[test]
fn sqrt_pi() {
    let empty = Symbols::new();
    let xpr: Simple = "(√ (+ pi pi pi pi))".parse().unwrap();
    let result = xpr.evaluate(&empty).unwrap();
    let ans = result.lower_exp(Some(32), false);
    assert_eq!(ans, "3.54490770181103205459633496668229e0");
}

#[test]
fn pi() {
    let empty = Symbols::new();
    let xpr: Simple = "(* (+ pi pi) (* 3 pi))".parse().unwrap();
    let result = xpr.evaluate(&empty).unwrap();
    let ans = result.lower_exp(Some(32), false);
    assert_eq!(ans, "5.92176264065361517130069459992569e1");
}

#[test]
fn pi_e_4() {
    let empty = Symbols::new();
    let xpr: Simple = "(* pi e 4)".parse().unwrap();
    let result = xpr.evaluate(&empty).unwrap();
    let ans = result.lower_exp(Some(32), false);
    assert_eq!(ans, "3.41589368906942682618542034781863e1");
}

#[test]
fn ln_e() {
    let empty = Symbols::new();
    let xpr: Simple = "(l (* (e 4) (e 6)))".parse().unwrap();
    let result = xpr.evaluate(&empty).unwrap();
    assert!(result.is_integer());
    let ans = result.to_string();
    assert_eq!(ans, "10");
}

#[test]
fn div_pi_e_4() {
    let empty = Symbols::new();
    let xpr: Simple = "(/ pi e 4)".parse().unwrap();
    let result = xpr.evaluate(&empty).unwrap();
    let ans = result.lower_exp(Some(32), false);
    assert_eq!(ans, "2.88931837447730429477523295828174e-1");
}

#[test]
fn e_minus_one() {
    let empty = Symbols::new();
    let xpr: Simple = "(/ e)".parse().unwrap();
    let result = xpr.evaluate(&empty).unwrap();
    let ans = result.lower_exp(Some(32), false);
    assert_eq!(ans, "3.67879441171442321595523770161461e-1");
}

#[test]
fn precision() {
    let empty = Symbols::new();
    let xpr: Simple =
        "(* 35088.93592003040493454779969771102629 35088.93592003040493454779969771102629)"
            .parse()
            .unwrap();
    let result = xpr.evaluate(&empty).unwrap();
    let ans = result.decimal(Some(29), false);
    assert_eq!(ans, "1231233424.00000000000000000000000000032");
}

#[test]
fn tan() {
    let empty = Symbols::new();
    let xpr: Simple = "(/ (* (tan (* pi 3.8)) 7.9) (tan (/ pi 5)))"
        .parse()
        .unwrap();
    let result = xpr.evaluate(&empty).unwrap();
    let m79: Real = "-7.9".parse().unwrap();
    assert_eq!(result, m79);
}
