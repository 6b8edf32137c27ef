use eml_sr_fable::builder::{binary, num, unary, var};
use eml_sr_fable::expression::{Node, Real};
use eml_sr_fable::fable::{literals_to_params, params_to_literals, redisplay};
use eml_sr_fable::registry::OperatorRegistry;

fn number(v: f64) -> Real {
    Real { bits: v.to_bits(), text: format!("{v}") }
}

#[test]
fn binary_display_and_nodes() {
    let reg = OperatorRegistry::with_builtins();
    let e = binary("Times", num(number(2.05)), var(0), &reg);
    assert_eq!(e.display(), "Times(2.05, v_{0})");
    assert_eq!(redisplay(&e, &reg), "Times(2.05, v_{0})");
    assert_eq!(e.complexity(), 3);
}

#[test]
fn literal_round_trip() {
    let reg = OperatorRegistry::with_builtins();
    let e = binary("Plus", unary("Square", var(0), &reg), num(number(0.5)), &reg);
    let p = literals_to_params(&e).expect("one literal");
    assert_eq!(p.param_count(), 1);
    match &p.nodes[2] {
        Node::Param { id, initial_value } => {
            assert_eq!(*id, 0);
            assert_eq!(f64::from_bits(initial_value.re.bits), 0.5);
        }
        _ => panic!("literal not lifted"),
    }
    let back = params_to_literals(&p, &reg);
    assert_eq!(back.display(), "Plus(Square(v_{0}), 0.5)");
}
