use eml_sr_fable::bfs::{beam_advance, beam_level, binary_candidates, early_exit, unary_candidates};
use eml_sr_fable::builder::{num, var};
use eml_sr_fable::expression::{Expression, Real};
use eml_sr_fable::fable::{
    any_within, deadline_passed, deadline_reached, fable_start, fable_step, pool_best, FableAction,
    FableStage, FableState, StageFlags, StageReport,
};
use eml_sr_fable::pareto::{check_shapes, error_at_most, Front, SearchError};
use eml_sr_fable::powerlaw::band_order;
use eml_sr_fable::pure_eml::{is_in_band, pure_step, PureAction, PureReport, PureStage};
use eml_sr_fable::registry::OperatorRegistry;
use eml_sr_fable::seen::SeenFingerprints;
use std::time::{Duration, Instant};

fn number(v: f64) -> Real {
    Real { bits: v.to_bits(), text: format!("{v}") }
}

fn b(v: f64) -> u64 {
    v.to_bits()
}

fn report(best: f64) -> StageReport {
    StageReport {
        best_error: b(best),
        added_solved: false,
        probes: 0,
        deadline_passed: false,
        beam_failed: false,
        pool_empty: false,
    }
}

fn all_on() -> StageFlags {
    StageFlags { powerlaw_stage: true, ratio_search: true, rational_stage: true, has_variables: true }
}

/// Runs the pipeline's decisions with the given report for each step and
/// collects the actions until the run ends.
fn run(flags: &StageFlags, reports: &[StageReport], exit: f64) -> Vec<FableAction> {
    let mut s = fable_start();
    let mut out = Vec::new();
    for rep in reports {
        let (n, a) = fable_step(&s, flags, rep, b(exit));
        s = n;
        out.push(a);
        if s.stage == FableStage::Done {
            break;
        }
    }
    out
}

#[test]
fn deadline_none_never_passes() {
    assert!(!deadline_passed(None));
    let now = Instant::now();
    assert!(!deadline_reached(&now, &None));
}

#[test]
fn deadline_compares_with_the_clock() {
    let now = Instant::now();
    let later = now + Duration::from_secs(3600);
    assert!(!deadline_passed(Some(later)));
    assert!(deadline_passed(Some(now)));
    assert!(deadline_reached(&later, &Some(now)));
    assert!(deadline_reached(&now, &Some(now)));
    assert!(!deadline_reached(&now, &Some(later)));
}

#[test]
fn errors_compare_as_doubles() {
    assert!(error_at_most(b(1.0), b(2.0)));
    assert!(error_at_most(b(2.0), b(2.0)));
    assert!(!error_at_most(b(3.0), b(2.0)));
    assert!(error_at_most(b(-0.0), b(0.0)));
    assert!(error_at_most(b(f64::INFINITY), b(f64::INFINITY)));
    assert!(!error_at_most(b(f64::NAN), b(f64::INFINITY)));
    assert!(!error_at_most(b(1.0), b(f64::NAN)));
    assert!(early_exit(b(1e-9), b(1e-6)));
    assert!(!early_exit(b(1e-3), b(1e-6)));
}

#[test]
fn pool_best_folds_like_f64_min() {
    assert_eq!(pool_best(&[]), b(f64::INFINITY));
    assert_eq!(pool_best(&[b(3.0), b(0.5), b(2.0)]), b(0.5));
    assert_eq!(pool_best(&[b(f64::NAN), b(4.0)]), b(4.0));
    assert_eq!(pool_best(&[b(4.0), b(f64::NAN)]), b(4.0));
    assert_eq!(pool_best(&[b(f64::NAN)]), b(f64::INFINITY));
}

#[test]
fn any_within_finds_a_solving_error() {
    assert!(any_within(&[b(5.0), b(0.001)], b(0.01)));
    assert!(!any_within(&[b(5.0), b(0.1)], b(0.01)));
    assert!(!any_within(&[], b(0.01)));
    assert!(!any_within(&[b(f64::NAN)], b(0.01)));
}

#[test]
fn shapes_are_checked() {
    assert!(check_shapes(3, 3).is_ok());
    assert!(matches!(check_shapes(0, 0), Err(SearchError::InvalidInput)));
    assert!(matches!(check_shapes(3, 2), Err(SearchError::InvalidInput)));
    assert!(matches!(check_shapes(3, 0), Err(SearchError::InvalidInput)));
}

#[test]
fn stage_a_solution_finishes_at_once() {
    let reps = vec![report(f64::INFINITY), report(1e-9)];
    let acts = run(&all_on(), &reps, 1e-6);
    assert_eq!(acts, vec![FableAction::RunPowerLaw, FableAction::Finish]);
}

#[test]
fn full_pipeline_order_when_nothing_solves() {
    let mut prep = report(1.0);
    prep.probes = 9;
    let reps = vec![
        report(f64::INFINITY),
        report(1.0),
        prep,
        report(1.0),
        report(1.0),
        report(1.0),
        report(1.0),
        report(1.0),
        report(1.0),
        report(1.0),
        report(1.0),
        report(1.0),
    ];
    let acts = run(&all_on(), &reps, 1e-6);
    assert_eq!(
        acts,
        vec![
            FableAction::RunPowerLaw,
            FableAction::PrepareRatios,
            FableAction::ProbeRatio(0),
            FableAction::ProbeRatio(1),
            FableAction::ProbeRatio(2),
            FableAction::ProbeRatio(3),
            FableAction::ProbeRatio(4),
            FableAction::RatioBeam,
            FableAction::RunRational,
            FableAction::RunBeam,
            FableAction::Boost,
            FableAction::Finish,
        ]
    );
}

#[test]
fn ratio_solution_skips_rational_and_beam() {
    let mut prep = report(1.0);
    prep.probes = 3;
    let mut solved = report(1e-9);
    solved.added_solved = true;
    let reps = vec![report(f64::INFINITY), report(1.0), prep, solved, report(1e-9), report(1e-9)];
    let acts = run(&all_on(), &reps, 1e-6);
    assert_eq!(
        acts,
        vec![
            FableAction::RunPowerLaw,
            FableAction::PrepareRatios,
            FableAction::ProbeRatio(0),
            FableAction::Boost,
            FableAction::Finish,
        ]
    );
}

#[test]
fn rational_solution_skips_beam() {
    let flags = StageFlags { powerlaw_stage: false, ratio_search: false, rational_stage: true, has_variables: true };
    let mut solved = report(1e-9);
    solved.added_solved = true;
    let reps = vec![report(f64::INFINITY), solved, report(1e-9)];
    let acts = run(&flags, &reps, 1e-6);
    assert_eq!(acts, vec![FableAction::RunRational, FableAction::Finish]);
}

#[test]
fn deadline_stops_the_probes() {
    let mut prep = report(1.0);
    prep.probes = 4;
    let mut late = report(1.0);
    late.deadline_passed = true;
    let reps = vec![report(f64::INFINITY), report(1.0), prep, late, report(1.0), report(1.0), report(1.0), report(1.0)];
    let acts = run(&all_on(), &reps, 1e-6);
    assert_eq!(acts[3], FableAction::RatioBeam);
}

#[test]
fn failed_beam_with_empty_pool_returns_its_error() {
    let flags = StageFlags { powerlaw_stage: false, ratio_search: false, rational_stage: false, has_variables: false };
    let mut empty = report(f64::INFINITY);
    empty.pool_empty = true;
    let mut failed = empty;
    failed.beam_failed = true;
    let acts = run(&flags, &[empty, failed], 1e-6);
    assert_eq!(acts, vec![FableAction::RunBeam, FableAction::ReturnBeamError]);
    let acts = run(&flags, &[empty, empty], 1e-6);
    assert_eq!(acts, vec![FableAction::RunBeam, FableAction::NotFound]);
}

#[test]
fn done_stays_done() {
    let s = FableState { stage: FableStage::Done, n_probes: 0, probe: 0, ratio_solved: false, rational_solved: false };
    let (n, a) = fable_step(&s, &all_on(), &report(1.0), b(1e-6));
    assert_eq!(n, s);
    assert_eq!(a, FableAction::Halt);
}

fn pure_report(best: f64) -> PureReport {
    PureReport {
        best_error: b(best),
        beam_failed: false,
        pool_empty: false,
        ample_time: false,
        band_low: b(1e-4),
        band_high: b(0.2),
    }
}

#[test]
fn pure_pipeline_order() {
    let (s, a) = pure_step(PureStage::Start, true, &pure_report(f64::INFINITY), b(1e-6));
    assert_eq!((s, a), (PureStage::Basis, PureAction::RunBasis));
    let (s, a) = pure_step(s, true, &pure_report(1.0), b(1e-6));
    assert_eq!((s, a), (PureStage::Beam, PureAction::RunBeam));
    let mut rep = pure_report(0.01);
    rep.ample_time = true;
    let (s, a) = pure_step(s, true, &rep, b(1e-6));
    assert_eq!((s, a), (PureStage::WideBeam, PureAction::RunWideBeam));
    let (s, a) = pure_step(s, true, &pure_report(0.01), b(1e-6));
    assert_eq!((s, a), (PureStage::Boost, PureAction::Boost));
    let (s, a) = pure_step(s, true, &pure_report(0.005), b(1e-6));
    assert_eq!((s, a), (PureStage::Done, PureAction::Finish));
}

#[test]
fn pure_basis_solution_finishes() {
    let (s, a) = pure_step(PureStage::Basis, true, &pure_report(1e-9), b(1e-6));
    assert_eq!((s, a), (PureStage::Done, PureAction::Finish));
}

#[test]
fn pure_boost_needs_the_band() {
    assert!(is_in_band(b(0.01), b(1e-4), b(0.2)));
    assert!(!is_in_band(b(0.5), b(1e-4), b(0.2)));
    assert!(!is_in_band(b(1e-6), b(1e-4), b(0.2)));
    assert!(!is_in_band(b(f64::INFINITY), b(1e-4), b(f64::INFINITY)));
    let (s, a) = pure_step(PureStage::WideBeam, true, &pure_report(0.5), b(1e-6));
    assert_eq!((s, a), (PureStage::Done, PureAction::Finish));
    let (s, a) = pure_step(PureStage::WideBeam, false, &pure_report(0.01), b(1e-6));
    assert_eq!((s, a), (PureStage::Done, PureAction::Finish));
}

#[test]
fn pure_failed_beam_and_empty_pool() {
    let mut rep = pure_report(f64::INFINITY);
    rep.pool_empty = true;
    rep.beam_failed = true;
    assert_eq!(pure_step(PureStage::Beam, false, &rep, b(1e-6)), (PureStage::Done, PureAction::ReturnBeamError));
    rep.beam_failed = false;
    assert_eq!(pure_step(PureStage::Beam, false, &rep, b(1e-6)), (PureStage::Done, PureAction::NotFound));
}

fn texts(v: &[Expression]) -> Vec<String> {
    v.iter().map(|e| e.display().to_string()).collect()
}

#[test]
fn beam_level_is_unary_then_binary() {
    let reg = OperatorRegistry::with_builtins();
    let levels: Vec<Vec<Expression>> = vec![vec![], vec![var(0), num(number(2.0))], vec![var(1)], vec![]];
    let out = beam_level(&levels, 3, &reg, None);
    let mut expected = texts(&unary_candidates(&levels[2], &reg));
    expected.extend(texts(&binary_candidates(&levels[1], &levels[1], true, &reg)));
    assert_eq!(texts(&out), expected);
    let out2 = beam_level(&levels, 2, &reg, None);
    assert_eq!(texts(&out2), texts(&unary_candidates(&levels[1], &reg)));
}

#[test]
fn beam_level_stops_binaries_at_a_past_deadline() {
    let reg = OperatorRegistry::with_builtins();
    let levels: Vec<Vec<Expression>> = vec![vec![], vec![var(0)], vec![var(1)], vec![]];
    let out = beam_level(&levels, 3, &reg, Some(Instant::now()));
    assert_eq!(texts(&out), texts(&unary_candidates(&levels[2], &reg)));
}

#[test]
fn beam_advance_offers_then_picks() {
    let mut front = Front::new();
    let scored = vec![
        (var(0), None, b(2.0)),
        (num(number(1.0)), None, b(3.0)),
        (var(1), Some((b(2.0), b(1.0))), b(1.0)),
    ];
    let keys = vec![Some(vec![1i64]), Some(vec![1i64]), Some(vec![2i64])];
    let next = beam_advance(&mut front, &scored, &keys, 5, 1, true);
    assert_eq!(next, vec![0, 2]);
    assert_eq!(front.len(), 1);
    let slot = &front.slots()[0];
    assert_eq!(slot.error, b(1.0));
    assert_eq!(slot.expr.display(), "v_{1}");
    assert_eq!(slot.affine, Some((b(2.0), b(1.0))));

    let mut front2 = Front::new();
    let next2 = beam_advance(&mut front2, &scored, &keys, 2, 1, false);
    assert_eq!(next2, vec![0, 1]);
    let next3 = beam_advance(&mut front2, &scored, &keys, 2, 0, true);
    assert_eq!(next3, vec![0, 1]);
}

#[test]
fn fingerprints_take_only_new_candidates() {
    let mut seen = SeenFingerprints::new();
    assert!(seen.insert(7));
    assert!(!seen.insert(7));
    assert!(seen.contains(7));
    assert!(!seen.contains(8));
    let cands = vec![var(0), var(1), var(2), var(3), var(4)];
    let fps = vec![Some(7), Some(8), None, Some(8), Some(9)];
    let kept = seen.take_new(cands, &fps, 10);
    assert_eq!(texts(&kept), vec!["v_{1}".to_string(), "v_{4}".to_string()]);
    assert!(seen.contains(8) && seen.contains(9));
    let cands = vec![var(0), var(1), var(2)];
    let fps = vec![Some(10), Some(11), Some(12)];
    let kept = seen.take_new(cands, &fps, 1);
    assert_eq!(texts(&kept), vec!["v_{0}".to_string()]);
    assert!(seen.contains(12));
}

/// Stage A's reorder as the stage performs it: a stable sort with the
/// band-first, simplest-first comparator.
fn reference_band_order(vals: &[f64], comps: &[usize], band: f64) -> Vec<usize> {
    let mut idx: Vec<usize> = (0..vals.len()).collect();
    idx.sort_by(|&a, &b| {
        let in_a = vals[a] <= band;
        let in_b = vals[b] <= band;
        in_b.cmp(&in_a)
            .then_with(|| if in_a && in_b { comps[a].cmp(&comps[b]) } else { std::cmp::Ordering::Equal })
            .then_with(|| vals[a].partial_cmp(&vals[b]).unwrap_or(std::cmp::Ordering::Equal))
    });
    idx
}

#[test]
fn band_order_puts_simple_fits_in_band_first() {
    let vals = [3.0, 1.0, 1.05, 5.0];
    let comps = [2usize, 5, 3, 1];
    let bits: Vec<u64> = vals.iter().map(|v: &f64| v.to_bits()).collect();
    assert_eq!(band_order(&bits, &comps, b(1.1)), vec![2, 1, 0, 3]);
    assert_eq!(band_order(&[], &[], b(1.0)), Vec::<usize>::new());
}

#[test]
fn band_order_matches_the_stable_sort() {
    let mut seed = 17u64;
    for round in 0..40 {
        let n = 1 + round % 9;
        let mut vals = Vec::new();
        let mut comps = Vec::new();
        for _ in 0..n {
            seed = seed.wrapping_mul(6364136223846793005).wrapping_add(1442695040888963407);
            vals.push(((seed >> 40) % 7) as f64 * 0.5);
            comps.push(((seed >> 20) % 4) as usize);
        }
        let band = 1.25;
        let bits: Vec<u64> = vals.iter().map(|v| v.to_bits()).collect();
        assert_eq!(band_order(&bits, &comps, b(band)), reference_band_order(&vals, &comps, band));
    }
}
