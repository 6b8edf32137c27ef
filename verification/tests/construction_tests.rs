use eml_sr_fable::builder::{binary, num, unary, var};
use eml_sr_fable::expression::{Expression, Node, Real};
use eml_sr_fable::fable::{deadline_passed, literals_to_params, params_to_literals, redisplay};
use eml_sr_fable::optimizer::Template;
use eml_sr_fable::powerlaw::{invert_expression, Transform};
use eml_sr_fable::pure_eml::{
    affine_arg, assemble_units, build_unit, eml_ln, unit_exprs_with, AffineInits, UnitTemplate,
};
use eml_sr_fable::registry::OperatorRegistry;

fn number(v: f64) -> Real {
    Real { bits: v.to_bits(), text: format!("{v}") }
}

#[test]
fn inverse_transforms_wrap_the_sum() {
    let reg = OperatorRegistry::with_builtins();
    let cases = [
        (Transform::Id, false, "v_{0}"),
        (Transform::Log, false, "Exp(v_{0})"),
        (Transform::InvY, false, "Inv(v_{0})"),
        (Transform::InvY2, false, "Inv(Sqrt(v_{0}))"),
        (Transform::Y2, true, "Neg(Sqrt(v_{0}))"),
        (Transform::Log1p, false, "Subtract(Exp(v_{0}), 1)"),
        (Transform::Logit, false, "Inv(Plus(1, Exp(v_{0})))"),
        (Transform::AsinSqrt, false, "Square(Sin(v_{0}))"),
        (Transform::Atanh, false, "Tanh(v_{0})"),
    ];
    for (t, negate, text) in cases {
        assert_eq!(invert_expression(t, var(0), negate, &reg).display(), text);
    }
}

#[test]
fn pure_grammar_pieces() {
    let reg = OperatorRegistry::pure_eml();
    assert_eq!(eml_ln(var(0), &reg).display(), "Plus(1, Neg(EML(0, v_{0})))");
    let inits = AffineInits {
        intercept: number(0.5),
        x_coeffs: vec![number(2.0)],
        ln_coeffs: vec![],
    };
    let p = affine_arg(&[1], &[0], &inits, &reg);
    assert_eq!(
        p.display(),
        "Plus(Plus(p_{0}, Times(p_{0}, v_{1})), Times(p_{0}, Plus(1, Neg(EML(0, v_{0})))))"
    );
    assert_eq!(p.param_count(), 3);
    let params: Vec<u64> = p
        .nodes
        .iter()
        .filter_map(|n| match n {
            Node::Param { id, initial_value } => Some((*id as u64) << 32 | (f64::from_bits(initial_value.re.bits) * 10.0) as u64),
            _ => None,
        })
        .collect();
    assert_eq!(params, vec![5, (1 << 32) | 20, 2 << 32]);
    let unit = build_unit(UnitTemplate::ExpUnit, &[0], &[], number(1.5), &inits, &inits, &reg);
    assert_eq!(unit.display(), "Times(p_{0}, EML(Plus(p_{0}, Times(p_{0}, v_{0})), 1))");
    assert_eq!(unit.param_count(), 3);
    let log_unit = build_unit(UnitTemplate::LogUnit, &[0], &[], number(1.0), &inits, &inits, &reg);
    assert!(log_unit.display().starts_with("Times(p_{0}, EML(0, Plus(1, Times("));
    let existing = vec![var(0), var(1)];
    let all = unit_exprs_with(&existing, &unit);
    assert_eq!(all.len(), 3);
    assert_eq!(all[2].display(), unit.display());
}

#[test]
fn literal_lifting_limits() {
    let reg = OperatorRegistry::with_builtins();
    assert!(literals_to_params(&var(0)).is_none());
    let mut e: Expression = num(number(1.0));
    for k in 0..16 {
        e = binary("Plus", e, num(number(k as f64)), &reg);
    }
    assert!(literals_to_params(&e).is_none(), "17 literals are too many");
    let mut e: Expression = num(number(1.0));
    for k in 0..15 {
        e = binary("Plus", e, num(number(k as f64)), &reg);
    }
    let lifted = literals_to_params(&e).expect("16 literals");
    assert_eq!(lifted.param_count(), 16);
    assert_eq!(params_to_literals(&lifted, &reg).display(), e.display());
}

#[test]
fn redisplay_renders_nodes() {
    let reg = OperatorRegistry::with_builtins();
    let e = binary("Divide", unary("Exp", var(0), &reg), num(number(-2.5)), &reg);
    assert_eq!(redisplay(&e, &reg), "Divide(Exp(v_{0}), -2.5)");
    let lifted = literals_to_params(&e).expect("one literal");
    assert_eq!(redisplay(&lifted, &reg), "Divide(Exp(v_{0}), -2.5)");
}

#[test]
fn template_round_trip() {
    let reg = OperatorRegistry::with_builtins();
    let e = binary("Times", num(number(3.0)), var(0), &reg);
    let p = literals_to_params(&e).expect("one literal");
    let (template, values) = Template::from_expression(&p);
    assert_eq!(values.len(), 1);
    assert_eq!(f64::from_bits(values[0].bits), 3.0);
    let again = template.instantiate(&values);
    assert_eq!(again.display(), p.display());
    let moved = template.instantiate(&[number(4.0)]);
    assert_eq!(params_to_literals(&moved, &reg).display(), "Times(4, v_{0})");
}

#[test]
fn no_deadline_never_passes() {
    assert!(!deadline_passed(None));
    let past = std::time::Instant::now();
    assert!(deadline_passed(Some(past)));
}

#[test]
fn boosted_model_assembly() {
    let reg = OperatorRegistry::with_builtins();
    let units = vec![var(0), unary("Sin", var(1), &reg)];
    let e = assemble_units(number(0.5), &[number(2.0), number(-1.5), number(9.0)], &units, &reg);
    assert_eq!(e.display(), "Plus(Plus(0.5, Times(2, v_{0})), Times(-1.5, Sin(v_{1})))");
    assert_eq!(assemble_units(number(3.0), &[], &units, &reg).display(), "3");
}
