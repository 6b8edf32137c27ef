use eml_sr_fable::bfs::behavior_key;

fn bit_patterns(v: &[f64]) -> Vec<u64> {
    v.iter().map(|x| x.to_bits()).collect()
}

/// (g) behavior keys separate shapes but unify affine variants.
#[test]
fn behavior_key_buckets() {
    let xs: Vec<f64> = (0..64).map(|i| -2.0 + 4.0 * (i as f64) / 63.0).collect();
    let f1: Vec<f64> = xs.iter().map(|&x| x * x).collect();
    let f1_affine: Vec<f64> = xs.iter().map(|&x| -3.0 * x * x + 7.0).collect();
    let f2: Vec<f64> = xs.iter().map(|&x| x * x * x).collect();
    assert_eq!(
        behavior_key(&bit_patterns(&f1)),
        behavior_key(&bit_patterns(&f1_affine))
    );
    assert_ne!(behavior_key(&bit_patterns(&f1)), behavior_key(&bit_patterns(&f2)));
}
