use eml_sr_fable::assemble::{affine_wrap, monomial_sum_expression, power, term_sum_expression};
use eml_sr_fable::builder::var;
use eml_sr_fable::expression::Real;
use eml_sr_fable::feature::{Feature, Monomial, Term};
use eml_sr_fable::realbits::{
    abs, is_minus_unit_coeff, is_nan, is_near_four, is_near_half, is_near_minus_one, is_near_one,
    is_near_three, is_near_three_halves, is_near_two, is_negative, is_positive, is_unit_coeff, is_zero,
};
use eml_sr_fable::registry::OperatorRegistry;

fn number(v: f64) -> Real {
    Real { bits: v.to_bits(), text: format!("{v}") }
}

fn numbers(v: &[f64]) -> Vec<Real> {
    v.iter().map(|&x| number(x)).collect()
}

fn power_text(e: f64) -> String {
    let reg = OperatorRegistry::with_builtins();
    power(var(0), number(e), &reg).display().to_string()
}

#[test]
fn power_uses_short_forms() {
    assert_eq!(power_text(1.0), "v_{0}");
    assert_eq!(power_text(2.0), "Square(v_{0})");
    assert_eq!(power_text(3.0), "Cube(v_{0})");
    assert_eq!(power_text(4.0), "Square(Square(v_{0}))");
    assert_eq!(power_text(0.5), "Sqrt(v_{0})");
    assert_eq!(power_text(1.5), "Sqrt(Cube(v_{0}))");
    assert_eq!(power_text(2.5), "Pow(v_{0}, 2.5)");
    assert_eq!(power_text(-1.0), "Inv(v_{0})");
    assert_eq!(power_text(-2.5), "Inv(Pow(v_{0}, 2.5))");
    assert_eq!(power_text(2.0 + 1e-13), "Square(v_{0})");
    assert_eq!(power_text(2.0 + 1e-11), format!("Pow(v_{{0}}, {})", 2.0 + 1e-11));
}

#[test]
fn monomial_expressions() {
    let reg = OperatorRegistry::with_builtins();
    let m = Monomial { coeff: number(3.0), exponents: numbers(&[2.0, -1.0, 0.0]) };
    assert_eq!(m.to_expression(&reg).display(), "Times(3, Divide(Square(v_{0}), v_{1}))");
    let m = Monomial { coeff: number(-1.0), exponents: numbers(&[1.0, 0.5]) };
    assert_eq!(m.to_expression(&reg).display(), "Neg(Times(v_{0}, Sqrt(v_{1})))");
    let m = Monomial { coeff: number(1.0), exponents: numbers(&[0.0, -2.0]) };
    assert_eq!(m.to_expression(&reg).display(), "Inv(Square(v_{1}))");
    let m = Monomial { coeff: number(2.5), exponents: numbers(&[0.0, -0.0]) };
    assert_eq!(m.to_expression(&reg).display(), "2.5");
}

#[test]
fn term_expressions() {
    let reg = OperatorRegistry::with_builtins();
    let t = Term { coeff: number(1.0), exponents: numbers(&[0.0, 0.0]), feature: Feature::Sin(0) };
    assert_eq!(t.to_expression(&reg).display(), "Sin(v_{0})");
    let t = Term { coeff: number(2.0), exponents: numbers(&[0.0, 0.0]), feature: Feature::Sin(0) };
    assert_eq!(t.to_expression(&reg).display(), "Times(2, Sin(v_{0}))");
    let t = Term { coeff: number(2.0), exponents: numbers(&[0.0, 1.0]), feature: Feature::Ln(0) };
    assert_eq!(t.to_expression(&reg).display(), "Times(Times(2, v_{1}), Log(v_{0}))");
    let t = Term { coeff: number(2.0), exponents: numbers(&[0.0, 1.0]), feature: Feature::NoFactor };
    assert_eq!(t.to_expression(&reg).display(), "Times(2, v_{1})");
}

#[test]
fn sums_chain_left_to_right() {
    let reg = OperatorRegistry::with_builtins();
    let terms = vec![
        Term { coeff: number(1.0), exponents: numbers(&[1.0]), feature: Feature::NoFactor },
        Term { coeff: number(2.0), exponents: numbers(&[0.0]), feature: Feature::NoFactor },
        Term { coeff: number(1.0), exponents: numbers(&[0.0]), feature: Feature::Cos(0) },
    ];
    assert_eq!(term_sum_expression(&terms, &reg).display(), "Plus(Plus(v_{0}, 2), Cos(v_{0}))");
    let monos = vec![
        Monomial { coeff: number(1.0), exponents: numbers(&[2.0]) },
        Monomial { coeff: number(-1.0), exponents: numbers(&[1.0]) },
    ];
    assert_eq!(monomial_sum_expression(&monos, &reg).display(), "Plus(Square(v_{0}), Neg(v_{0}))");
}

#[test]
fn affine_wrap_omits_trivial_parts() {
    let reg = OperatorRegistry::with_builtins();
    assert_eq!(affine_wrap(var(0), &number(1.0), None, &reg).display(), "v_{0}");
    assert_eq!(affine_wrap(var(0), &number(-1.0), None, &reg).display(), "Neg(v_{0})");
    assert_eq!(affine_wrap(var(0), &number(f64::NAN), None, &reg).display(), "v_{0}");
    assert_eq!(
        affine_wrap(var(0), &number(2.5), Some(number(0.5)), &reg).display(),
        "Plus(Times(2.5, v_{0}), 0.5)"
    );
    assert_eq!(
        affine_wrap(var(0), &number(1.0 + 1e-14), Some(number(-3.0)), &reg).display(),
        "Plus(v_{0}, -3)"
    );
}

fn check_window(center: f64, eps: f64, test: fn(&Real) -> bool) {
    let c = center.to_bits();
    for delta in -20_000i64..=20_000 {
        let b = (c as i64 + delta) as u64;
        let x = f64::from_bits(b);
        assert_eq!(test(&number(x)), (x - center).abs() < eps, "{x} near {center}");
    }
}

#[test]
fn closeness_tests_match_f64() {
    check_window(1.0, 1e-12, is_near_one);
    check_window(2.0, 1e-12, is_near_two);
    check_window(3.0, 1e-12, is_near_three);
    check_window(4.0, 1e-12, is_near_four);
    check_window(0.5, 1e-12, is_near_half);
    check_window(1.5, 1e-12, is_near_three_halves);
    check_window(-1.0, 1e-12, is_near_minus_one);
    check_window(1.0, 1e-15, is_unit_coeff);
    check_window(-1.0, 1e-15, is_minus_unit_coeff);
    for x in [0.0, -0.0, 5.0, -5.0, f64::INFINITY, f64::NEG_INFINITY, f64::NAN, 1e300, -1e-300] {
        assert_eq!(is_near_one(&number(x)), (x - 1.0).abs() < 1e-12);
        assert_eq!(is_near_minus_one(&number(x)), (x + 1.0).abs() <= 1e-12);
        assert_eq!(is_unit_coeff(&number(x)), (x - 1.0).abs() < 1e-15);
    }
}

#[test]
fn sign_tests_match_f64() {
    for x in [0.0, -0.0, 1.5, -1.5, 1e-320, -1e-320, f64::INFINITY, f64::NEG_INFINITY, f64::NAN] {
        let r = number(x);
        assert_eq!(is_zero(&r), x == 0.0);
        assert_eq!(is_negative(&r), x < 0.0);
        assert_eq!(is_positive(&r), x > 0.0);
        assert_eq!(is_nan(&r), x.is_nan());
        let a = abs(&r);
        assert_eq!(a.bits, x.abs().to_bits());
        assert_eq!(a.text, format!("{}", x.abs()));
    }
}
