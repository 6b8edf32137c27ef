use eml_sr_fable::dictionary::{
    basic_pursuit_dictionaries, build_dictionary, build_feature_dictionary, enumerate_exponents,
};
use eml_sr_fable::expression::Real;
use eml_sr_fable::feature::{feature_candidates, Feature, Term};
use eml_sr_fable::powerlaw::dict_size_estimate;

fn number(v: f64) -> Real {
    Real { bits: v.to_bits(), text: format!("{v}") }
}

/// Depth-first enumeration with an explicit stack, as the fitting stage does it.
fn reference_enumerate(d: usize, usable: &[usize], exps: &[f64], cap: usize) -> Vec<Vec<f64>> {
    let mut vectors: Vec<Vec<f64>> = vec![vec![0.0; d]];
    let mut stack: Vec<(usize, Vec<(usize, f64)>)> = vec![(0, Vec::new())];
    while let Some((start, active)) = stack.pop() {
        if !active.is_empty() {
            let mut v = vec![0.0; d];
            for &(j, e) in &active {
                v[j] = e;
            }
            vectors.push(v);
        }
        if active.len() >= cap {
            continue;
        }
        for (uidx, &j) in usable.iter().enumerate().skip(start) {
            for &e in exps {
                let mut next = active.clone();
                next.push((j, e));
                stack.push((uidx + 1, next));
            }
        }
    }
    vectors
}

fn reference_estimate(n: usize, e: usize, cap: usize) -> usize {
    let mut total = 1usize;
    let mut choose = 1usize;
    for k in 1..=cap.min(n) {
        choose = choose * (n - k + 1) / k;
        total = total.saturating_add(choose.saturating_mul(e.pow(k as u32)));
    }
    total
}

fn bits_of(v: &[Real]) -> Vec<u64> {
    v.iter().map(|r| r.bits).collect()
}

fn f64_bits(v: &[f64]) -> Vec<u64> {
    v.iter().map(|x| x.to_bits()).collect()
}

#[test]
fn enumeration_matches_stack_order() {
    let exps = [-1.0, 0.5, 2.0];
    let reals: Vec<Real> = exps.iter().map(|&x| number(x)).collect();
    for (d, usable, cap) in [(3usize, vec![0usize, 2], 2usize), (4, vec![1, 2, 3], 3), (2, vec![], 2), (3, vec![0, 1, 2], 0)] {
        let got = enumerate_exponents(d, &usable, &reals, cap);
        let want = reference_enumerate(d, &usable, &exps, cap);
        assert_eq!(got.len(), want.len());
        for (g, w) in got.iter().zip(&want) {
            assert_eq!(bits_of(g), f64_bits(w));
        }
    }
}

#[test]
fn size_estimate_values() {
    assert_eq!(dict_size_estimate(5, 3, 2), 106);
    assert_eq!(dict_size_estimate(3, 3, 5), 64);
    assert_eq!(dict_size_estimate(0, 4, 3), 1);
    for n in 0..12 {
        for e in 0..7 {
            for cap in 0..6 {
                assert_eq!(dict_size_estimate(n, e, cap), reference_estimate(n, e, cap));
            }
        }
    }
}

#[test]
fn plain_dictionary_lowers_cap_to_fit() {
    let exps: Vec<Real> = [-1.0, 1.0].iter().map(|&x| number(x)).collect();
    let dict = build_dictionary(4, &[0, 1, 2, 3], &exps, 3, 40);
    // cap 3 gives 1 + 8 + 24 + 32 = 65 > 40, cap 2 gives 33.
    assert_eq!(dict.len(), 33);
    assert!(dict.iter().all(|t| t.coeff.bits == 1.0f64.to_bits() && t.feature == Feature::NoFactor));
}

const CONFIGS: &[(&[f64], usize)] = &[
    (&[-2.0, -1.0, -0.5, 0.5, 1.0, 2.0], 3),
    (&[-2.0, -1.0, 1.0, 2.0], 3),
    (&[-2.0, -1.0, 1.0, 2.0], 2),
    (&[-1.0, 1.0], 3),
    (&[-1.0, 1.0], 2),
    (&[-1.0, 1.0], 1),
];

fn reference_feature_dictionary(
    d: usize,
    positive: &[usize],
    finite: &[usize],
    size_limit: usize,
) -> Vec<(u64, Vec<u64>, Feature)> {
    let features = feature_candidates(positive, finite);
    if features.is_empty() {
        return Vec::new();
    }
    let budget = size_limit / features.len();
    let (exps, cap) = CONFIGS
        .iter()
        .filter(|(e, _)| !positive.is_empty() || e.iter().all(|x| x.fract() == 0.0))
        .find(|(e, c)| reference_estimate(finite.len(), e.len(), *c) <= budget)
        .copied()
        .unwrap_or((&[-1.0, 1.0], 1));
    let fractional = exps.iter().any(|e| e.fract() != 0.0);
    let mono_vars: &[usize] = if fractional { positive } else { finite };
    let base = reference_enumerate(d, mono_vars, exps, cap.min(mono_vars.len().max(1)));
    let mut out = Vec::new();
    for v in &base {
        out.push((1.0f64.to_bits(), f64_bits(v), Feature::NoFactor));
    }
    for f in &features {
        let fvars = f.vars();
        for v in &base {
            if fvars.iter().any(|&j| v[j] != 0.0) {
                continue;
            }
            out.push((1.0f64.to_bits(), f64_bits(v), *f));
        }
    }
    out
}

fn values(dict: &[Term]) -> Vec<(u64, Vec<u64>, Feature)> {
    dict.iter().map(|t| (t.coeff.bits, bits_of(&t.exponents), t.feature)).collect()
}

#[test]
fn feature_dictionary_matches_reference() {
    for (d, positive, finite, limit) in [
        (2usize, vec![0usize], vec![0usize, 1], 20_000usize),
        (2, vec![0, 1], vec![0, 1], 500),
        (3, vec![], vec![0, 1, 2], 2_000),
        (3, vec![2], vec![0, 2], 50),
        (1, vec![], vec![], 100),
    ] {
        let got = build_feature_dictionary(d, &positive, &finite, limit);
        assert_eq!(values(&got), reference_feature_dictionary(d, &positive, &finite, limit));
    }
}

#[test]
fn feature_candidates_order() {
    let f = feature_candidates(&[1], &[0, 1]);
    assert_eq!(f.len(), 6 + 6 + 1 + 9);
    assert_eq!(f[0], Feature::Sin(0));
    assert_eq!(f[12], Feature::Ln(1));
    assert_eq!(f[13], Feature::DiffSq(0, 1));
    assert_eq!(f[16], Feature::SigmoidDiff(1, 0));
    assert_eq!(Feature::CosDiff(2, 5).vars(), vec![2, 5]);
    assert_eq!(Feature::NoFactor.vars(), Vec::<usize>::new());
}

fn reference_plain_dictionary(d: usize, usable: &[usize], exps: &[f64], max_active: usize, limit: usize) -> Vec<(u64, Vec<u64>, Feature)> {
    let mut cap = usable.len().min(max_active);
    while cap > 1 && reference_estimate(usable.len(), exps.len(), cap) > limit {
        cap -= 1;
    }
    reference_enumerate(d, usable, exps, cap)
        .iter()
        .map(|v| (1.0f64.to_bits(), f64_bits(v), Feature::NoFactor))
        .collect()
}

#[test]
fn basic_dictionaries_match_reference() {
    const FRACTIONAL: &[f64] = &[-3.0, -2.0, -1.0, -0.5, 0.5, 1.0, 2.0, 3.0];
    const INTEGER2: &[f64] = &[-2.0, -1.0, 1.0, 2.0];
    const INTEGER3: &[f64] = &[-3.0, -2.0, -1.0, 1.0, 2.0, 3.0];
    let d = 3;
    let positive = vec![0usize, 2];
    let real = vec![0usize, 1, 2];
    let got = basic_pursuit_dictionaries(d, &positive, &real);
    assert_eq!(got.len(), 3);
    assert_eq!(values(&got[0]), reference_plain_dictionary(d, &positive, FRACTIONAL, 4, 70_000));
    assert_eq!(values(&got[1]), reference_plain_dictionary(d, &real, INTEGER3, 5, 70_000));
    let mut int2 = reference_plain_dictionary(d, &real, INTEGER2, 5, 70_000);
    for &i in &real {
        for f in [Feature::Sin(i), Feature::Cos(i), Feature::Sin2x(i), Feature::Cos2x(i), Feature::Sigmoid(i), Feature::TanhVar(i)] {
            int2.push((1.0f64.to_bits(), vec![0u64; d], f));
        }
    }
    for &i in &positive {
        int2.push((1.0f64.to_bits(), vec![0u64; d], Feature::Ln(i)));
    }
    assert_eq!(values(&got[2]), int2);
    assert_eq!(basic_pursuit_dictionaries(2, &[0], &[]).len(), 0);
    assert_eq!(basic_pursuit_dictionaries(2, &[], &[1]).len(), 2);
}

#[test]
fn enumeration_size_is_the_estimate() {
    let reals: Vec<Real> = [-1.0, 0.5, 2.0].iter().map(|&x| number(x)).collect();
    for (d, usable) in [(4usize, vec![0usize, 1, 2, 3]), (5, vec![1, 3, 4]), (2, vec![])] {
        for cap in 0..6 {
            let got = enumerate_exponents(d, &usable, &reals, cap).len();
            assert_eq!(got, dict_size_estimate(usable.len(), reals.len(), cap), "cap {cap}");
        }
    }
}
