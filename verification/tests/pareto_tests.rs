use eml_sr_fable::builder::{binary, unary, var};
use eml_sr_fable::expression::Expression;
use eml_sr_fable::pareto::{error_less, finalize_result, is_finite_error, merge_pareto, Front, SearchError};
use eml_sr_fable::registry::OperatorRegistry;

fn expr_of_size(size: usize, reg: &OperatorRegistry) -> Expression {
    match size {
        1 => var(0),
        2 => unary("Sin", var(0), reg),
        3 => binary("Times", var(0), var(1), reg),
        4 => unary("Sin", binary("Plus", var(0), var(1), reg), reg),
        5 => binary("Times", binary("Plus", var(0), var(1), reg), var(2), reg),
        _ => panic!("unsupported size"),
    }
}

fn pair(err: f64, size: usize, reg: &OperatorRegistry) -> (u64, Expression) {
    (err.to_bits(), expr_of_size(size, reg))
}

#[test]
fn merge_keeps_strict_front_best_first() {
    let reg = OperatorRegistry::with_builtins();
    let entries = vec![
        pair(0.5, 1, &reg),
        pair(0.3, 3, &reg),
        pair(0.4, 3, &reg),
        pair(0.1, 5, &reg),
        pair(f64::INFINITY, 2, &reg),
        pair(0.6, 4, &reg),
        pair(f64::NAN, 4, &reg),
    ];
    let front = merge_pareto(entries);
    let got: Vec<(f64, usize)> =
        front.iter().map(|(e, x)| (f64::from_bits(*e), x.complexity())).collect();
    assert_eq!(got, vec![(0.1, 5), (0.3, 3), (0.5, 1)]);
    assert_eq!(front[1].1.display(), "Times(v_{0}, v_{1})");
}

#[test]
fn merge_ties_keep_first_pair() {
    let reg = OperatorRegistry::with_builtins();
    let a = binary("Times", var(0), var(1), &reg);
    let b = binary("Plus", var(0), var(1), &reg);
    let front = merge_pareto(vec![(0.25f64.to_bits(), a), (0.25f64.to_bits(), b)]);
    assert_eq!(front.len(), 1);
    assert_eq!(front[0].1.display(), "Times(v_{0}, v_{1})");
}

#[test]
fn merge_of_nothing_finite_is_empty() {
    let reg = OperatorRegistry::with_builtins();
    let front = merge_pareto(vec![pair(f64::INFINITY, 1, &reg), pair(f64::NAN, 2, &reg)]);
    assert!(front.is_empty());
}

#[test]
fn finalize_reports_not_found_on_empty_pool() {
    match finalize_result(Vec::new(), 7) {
        Err(SearchError::NotFound { max_complexity }) => assert_eq!(max_complexity, 7),
        Ok(_) => panic!("empty pool accepted"),
        Err(SearchError::InvalidInput) => panic!("empty pool reported as invalid input"),
    }
    let reg = OperatorRegistry::with_builtins();
    let ok = finalize_result(vec![pair(0.2, 1, &reg)], 7).ok().expect("front");
    assert_eq!(ok.len(), 1);
}

#[test]
fn front_update_keeps_best_per_complexity() {
    let reg = OperatorRegistry::with_builtins();
    let mut front = Front::new();
    front.update(&expr_of_size(3, &reg), 0.5f64.to_bits(), None);
    front.update(&expr_of_size(1, &reg), 0.9f64.to_bits(), Some((2.0f64.to_bits(), 1.0f64.to_bits())));
    front.update(&binary("Plus", var(0), var(1), &reg), 0.7f64.to_bits(), None);
    front.update(&binary("Plus", var(0), var(1), &reg), 0.2f64.to_bits(), None);
    assert_eq!(front.len(), 2);
    let slots = front.slots();
    assert_eq!(slots[0].expr.complexity(), 1);
    assert_eq!(slots[0].affine, Some((2.0f64.to_bits(), 1.0f64.to_bits())));
    assert_eq!(slots[1].expr.display(), "Plus(v_{0}, v_{1})");
    assert_eq!(f64::from_bits(slots[1].error), 0.2);
}

#[test]
fn error_order_matches_f64() {
    let vals = [
        -f64::INFINITY, -3.5, -1.0, -1e-300, -0.0, 0.0, 1e-300, 0.25, 1.0, 7.5, f64::MAX, f64::INFINITY,
    ];
    for &a in &vals {
        for &b in &vals {
            assert_eq!(error_less(a.to_bits(), b.to_bits()), a < b, "{a} < {b}");
        }
        assert_eq!(is_finite_error(a.to_bits()), a.is_finite());
    }
    assert!(!is_finite_error(f64::NAN.to_bits()));
}

#[test]
fn merging_a_front_again_changes_nothing() {
    let reg = OperatorRegistry::with_builtins();
    let entries = vec![
        pair(0.5, 1, &reg),
        pair(0.45, 2, &reg),
        pair(0.3, 3, &reg),
        pair(0.1, 5, &reg),
        pair(0.6, 4, &reg),
    ];
    let once = merge_pareto(entries);
    let summary = |v: &[(u64, Expression)]| -> Vec<(u64, String)> {
        v.iter().map(|(e, x)| (*e, x.display().to_string())).collect()
    };
    let first = summary(&once);
    let twice = merge_pareto(once);
    assert_eq!(summary(&twice), first);
    assert_eq!(first.len(), 4);
}
