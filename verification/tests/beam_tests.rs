use eml_sr_fable::bfs::{binary_candidates, evenly_spaced, select_beam, str_after, subsample_rows, unary_candidates};
use eml_sr_fable::builder::{num, var};
use eml_sr_fable::expression::{Expression, Real};
use eml_sr_fable::fable::{training_rows, validation_rows};
use eml_sr_fable::powerlaw::{pursuit_rows, pursuit_starts};
use eml_sr_fable::pure_eml::top_variables;
use eml_sr_fable::supports::SeenSupports;
use eml_sr_fable::registry::OperatorRegistry;

fn number(v: f64) -> Real {
    Real { bits: v.to_bits(), text: format!("{v}") }
}

/// The greedy class-capped selection as the search loop performs it.
fn reference_beam(keys: &[Option<Vec<i64>>], width: usize, cap: usize) -> Vec<usize> {
    let mut counts: std::collections::HashMap<Vec<i64>, usize> = std::collections::HashMap::new();
    let mut out = Vec::new();
    for (i, key) in keys.iter().enumerate() {
        if out.len() >= width {
            break;
        }
        let key = match key {
            Some(k) => k.clone(),
            None => continue,
        };
        let count = counts.entry(key).or_insert(0);
        if *count >= cap {
            continue;
        }
        *count += 1;
        out.push(i);
    }
    out
}

#[test]
fn beam_caps_classes_and_width() {
    let a = Some(vec![1i64, 2]);
    let b = Some(vec![3i64]);
    let c = Some(vec![1i64, 2, 0]);
    let keys = vec![a.clone(), a.clone(), None, a.clone(), b.clone(), c.clone(), b.clone(), a.clone()];
    assert_eq!(select_beam(&keys, 10, 2), vec![0, 1, 4, 5, 6]);
    assert_eq!(select_beam(&keys, 3, 2), vec![0, 1, 4]);
    assert_eq!(select_beam(&keys, 10, 1), vec![0, 4, 5]);
    assert_eq!(select_beam(&keys, 0, 5), Vec::<usize>::new());
    for width in 0..9 {
        for cap in 0..4 {
            assert_eq!(select_beam(&keys, width, cap), reference_beam(&keys, width, cap));
        }
    }
}

#[test]
fn subsample_rows_spread_evenly() {
    assert_eq!(subsample_rows(10, 4), vec![0, 2, 5, 7]);
    assert_eq!(subsample_rows(5, 0), vec![0, 1, 2, 3, 4]);
    assert_eq!(subsample_rows(3, 8), vec![0, 1, 2]);
    let n = 1000;
    let rows = subsample_rows(n, 64);
    let expected: Vec<usize> = (0..64).map(|i| i * n / 64).collect();
    assert_eq!(rows, expected);
    assert_eq!(evenly_spaced(9, 3), vec![0, 3, 6]);
}

#[test]
fn validation_rows_every_fifth() {
    assert_eq!(validation_rows(14), vec![4, 9]);
    assert_eq!(validation_rows(4), Vec::<usize>::new());
    let expected: Vec<usize> = (0..103).filter(|i| i % 5 == 4).collect();
    assert_eq!(validation_rows(103), expected);
}

#[test]
fn top_variables_by_score() {
    let scores: Vec<u64> = [0.2f64, 0.9, 0.5, 0.9, -1.0].iter().map(|x| x.to_bits()).collect();
    assert_eq!(top_variables(&scores, 2), vec![1, 3]);
    assert_eq!(top_variables(&scores, 3), vec![1, 2, 3]);
    assert_eq!(top_variables(&scores, 10), vec![0, 1, 2, 3, 4]);
    assert_eq!(top_variables(&scores, 0), Vec::<usize>::new());
}

#[test]
fn str_after_is_str_order() {
    let words = ["", "a", "ab", "b", "Plus(v_{0}, 1)", "Plus(v_{0}, v_{1})", "v_{1}", "v_{10}"];
    for a in words {
        for b in words {
            assert_eq!(str_after(a, b), a > b, "{a} > {b}");
        }
    }
}

#[test]
fn unary_candidates_cover_every_operator() {
    let reg = OperatorRegistry::with_builtins();
    let children = vec![var(0), num(number(2.0))];
    let out = unary_candidates(&children, &reg);
    let n_unary = reg.ids_by_arity(1).len();
    assert_eq!(out.len(), 2 * n_unary);
    let first_unary = reg.meta(reg.ids_by_arity(1)[0]).name.clone();
    assert_eq!(out[0].display(), format!("{first_unary}(v_{{0}})"));
    assert_eq!(out[n_unary].display(), format!("{first_unary}(2)"));
}

#[test]
fn binary_candidates_respect_pow_and_symmetry() {
    let reg = OperatorRegistry::with_builtins();
    let lefts: Vec<Expression> = vec![var(1), var(0)];
    let rights: Vec<Expression> = vec![var(0), num(number(3.0))];
    let out = binary_candidates(&lefts, &rights, true, &reg);
    let texts: Vec<String> = out.iter().map(|e| e.display().to_string()).collect();
    assert!(!texts.iter().any(|t| t.starts_with("Pow(") && t.ends_with("v_{0})")));
    assert!(texts.contains(&"Pow(v_{1}, 3)".to_string()));
    assert!(!texts.contains(&"Plus(v_{1}, v_{0})".to_string()));
    assert!(texts.contains(&"Subtract(v_{1}, v_{0})".to_string()));
    assert!(texts.contains(&"Plus(v_{0}, v_{0})".to_string()));
    let out_cross = binary_candidates(&lefts, &rights, false, &reg);
    let cross: Vec<String> = out_cross.iter().map(|e| e.display().to_string()).collect();
    assert!(cross.contains(&"Plus(v_{1}, v_{0})".to_string()));
}

#[test]
fn training_rows_complement_validation() {
    let expected: Vec<usize> = (0..23).filter(|i| i % 5 != 4).collect();
    assert_eq!(training_rows(23), expected);
    assert_eq!(training_rows(0), Vec::<usize>::new());
}

fn reference_pursuit_rows(n: usize) -> (Vec<usize>, Vec<usize>) {
    let sub_n = n.min(250);
    let all_idx: Vec<usize> = (0..sub_n).map(|i| i * n / sub_n).collect();
    let mut fit = Vec::new();
    let mut val = Vec::new();
    for (pos, &i) in all_idx.iter().enumerate() {
        if pos % 5 == 4 && sub_n >= 25 {
            val.push(i);
        } else {
            fit.push(i);
        }
    }
    (fit, val)
}

#[test]
fn pursuit_rows_split_fit_and_validation() {
    for n in [0usize, 1, 7, 24, 25, 26, 100, 250, 251, 1000, 4321] {
        assert_eq!(pursuit_rows(n), reference_pursuit_rows(n), "n = {n}");
    }
    let (fit, val) = pursuit_rows(30);
    assert_eq!(val, vec![4, 9, 14, 19, 24, 29]);
    assert_eq!(fit.len(), 24);
}

#[test]
fn pursuit_starts_dedup() {
    assert_eq!(
        pursuit_starts(&[7, 3, 9, 1, 5, 2], &[3, 11, 40, 11, 0], 20, true),
        vec![None, Some(7), Some(3), Some(9), Some(1), Some(11), Some(0)]
    );
    assert_eq!(pursuit_starts(&[7, 3], &[3, 3], 20, false), vec![None, Some(3)]);
    assert_eq!(pursuit_starts(&[], &[], 0, true), vec![None]);
}

#[test]
fn supports_compare_as_collections() {
    let mut seen = SeenSupports::new();
    assert!(seen.insert(&[3, 1, 2]));
    assert!(!seen.insert(&[1, 2, 3]));
    assert!(!seen.insert(&[2, 3, 1]));
    assert!(seen.insert(&[1, 2]));
    assert!(seen.insert(&[1, 1, 2]));
    assert!(!seen.insert(&[1, 2, 1]));
    assert!(seen.insert(&[]));
    assert!(!seen.insert(&[]));
}
