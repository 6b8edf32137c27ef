//! Building blocks of the pure-EML pipeline, whose only function primitive
//! is EML(x, y) = e^x - ln(y), glued together by Plus, Times, Neg and
//! tunable constants.

use vstd::prelude::*;

use crate::builder::{
    binary, canonical, num, ops_within, spec_binary, spec_num, spec_param, spec_unary, spec_var,
    unary, var,
};
use crate::expression::{
    is_tree, one_bits, params_below, params_shiftable, real_one, real_zero, ExprView, Expression,
    Real,
};
use crate::registry::{has_name, OperatorRegistry};
use crate::render::ops_known;
use crate::bfs::{order_of, order_value};
use crate::pareto::{at_most, error_at_most, error_below, error_less, finite_bits, is_finite_error};

verus! {

/// The operator names of the pure-EML grammar.
pub open spec fn pure_grammar() -> Set<Seq<char>> {
    set!["Plus"@, "Times"@, "Neg"@, "EML"@]
}

/// The registry offers every operator of the pure-EML grammar.
pub open spec fn pure_ready(names: Seq<Seq<char>>) -> bool {
    &&& has_name(names, "Plus"@)
    &&& has_name(names, "Times"@)
    &&& has_name(names, "Neg"@)
    &&& has_name(names, "EML"@)
}

/// One tree, known operators, parameters numbered below the parameter
/// count, and nothing outside the pure-EML grammar.
pub open spec fn pure_shape(e: Expression, names: Seq<Seq<char>>) -> bool {
    &&& is_tree(e.nodes@)
    &&& ops_known(e.nodes@, names.len())
    &&& params_below(e.nodes@, e.param_count as nat)
    &&& ops_within(e.nodes@, names, pure_grammar())
}

/// ln v composed from EML: 1 - EML(0, v).
pub open spec fn spec_eml_ln(names: Seq<Seq<char>>, v: ExprView) -> ExprView {
    spec_binary(
        names,
        "Plus"@,
        spec_num(one_bits(), seq!['1']),
        spec_unary(names, "Neg"@, spec_binary(names, "EML"@, spec_num(0, seq!['0']), v)),
    )
}

/// ln(v) composed purely from EML: ln v = 1 - EML(0, v).
pub fn eml_ln(v: Expression, reg: &OperatorRegistry) -> (e: Expression)
    requires
        pure_ready(reg.names()),
    ensures
        e@ == spec_eml_ln(reg.names(), v@),
        canonical(v, reg.names()) ==> canonical(e, reg.names()),
        pure_shape(v, reg.names()) ==> pure_shape(e, reg.names()),
{
    let ghost names = reg.names();
    let ghost g = pure_grammar();
    let zero = num(real_zero());
    let one = num(real_one());
    assert(ops_within(zero.nodes@, names, g));
    assert(ops_within(one.nodes@, names, g));
    assert(canonical(zero, names));
    assert(canonical(one, names));
    assert(g.contains("EML"@) && g.contains("Neg"@) && g.contains("Plus"@));
    let inner = binary("EML", zero, v, reg);
    assert(ops_within(v.nodes@, names, g) ==> ops_within(inner.nodes@, names, g));
    let neg = unary("Neg", inner, reg);
    assert(ops_within(inner.nodes@, names, g) ==> ops_within(neg.nodes@, names, g));
    let e = binary("Plus", one, neg, reg);
    assert(ops_within(neg.nodes@, names, g) ==> ops_within(e.nodes@, names, g));
    e
}

/// Initial values of the parameters of a log-augmented affine argument.
#[derive(Clone, Debug)]
pub struct AffineInits {
    pub intercept: Real,
    pub x_coeffs: Vec<Real>,
    pub ln_coeffs: Vec<Real>,
}

/// The `k`-th coefficient, or `0` when there is none.
pub open spec fn coeff_bits(cs: Seq<Real>, k: int) -> u64 {
    if 0 <= k < cs.len() {
        cs[k].bits
    } else {
        0
    }
}

/// The text of the `k`-th coefficient, or `0` when there is none.
pub open spec fn coeff_text(cs: Seq<Real>, k: int) -> Seq<char> {
    if 0 <= k < cs.len() {
        cs[k].text@
    } else {
        seq!['0']
    }
}

/// p0 + p1 x_{xs[0]} + ... over the first `n` linear terms.
pub open spec fn spec_affine_linear(
    names: Seq<Seq<char>>,
    xs: Seq<usize>,
    inits: AffineInits,
    n: nat,
) -> ExprView
    decreases n,
{
    if n == 0 {
        spec_param(inits.intercept.bits, inits.intercept.text@)
    } else {
        let k = n - 1;
        spec_binary(
            names,
            "Plus"@,
            spec_affine_linear(names, xs, inits, k as nat),
            spec_binary(
                names,
                "Times"@,
                spec_param(coeff_bits(inits.x_coeffs@, k), coeff_text(inits.x_coeffs@, k)),
                spec_var(xs[k] as nat),
            ),
        )
    }
}

/// The linear part followed by the first `n` logarithmic terms.
pub open spec fn spec_affine(
    names: Seq<Seq<char>>,
    xs: Seq<usize>,
    lns: Seq<usize>,
    inits: AffineInits,
    n: nat,
) -> ExprView
    decreases n,
{
    if n == 0 {
        spec_affine_linear(names, xs, inits, xs.len())
    } else {
        let k = n - 1;
        spec_binary(
            names,
            "Plus"@,
            spec_affine(names, xs, lns, inits, k as nat),
            spec_binary(
                names,
                "Times"@,
                spec_param(coeff_bits(inits.ln_coeffs@, k), coeff_text(inits.ln_coeffs@, k)),
                spec_eml_ln(names, spec_var(lns[k] as nat)),
            ),
        )
    }
}

/// The `k`-th coefficient, or `0.0` when there is none.
fn coeff_or_zero(cs: &Vec<Real>, k: usize) -> (r: Real)
    ensures
        r.bits == coeff_bits(cs@, k as int),
        r.text@ == coeff_text(cs@, k as int),
{
    if k < cs.len() {
        cs[k].duplicate()
    } else {
        real_zero()
    }
}

/// Log-augmented affine argument with tunable parameters:
/// P(x) = p0 + sum_{i in xs} p_i x_i + sum_{j in lns} q_j ln(x_j).
/// The ln factors are EML-composed so the tree stays inside the pure
/// grammar. Parameter initial values come from the caller.
pub fn affine_arg(xs: &[usize], lns: &[usize], inits: &AffineInits, reg: &OperatorRegistry) -> (e:
    Expression)
    requires
        pure_ready(reg.names()),
        forall|k: int| 0 <= k < xs@.len() ==> #[trigger] xs@[k] < 255,
        forall|k: int| 0 <= k < lns@.len() ==> #[trigger] lns@[k] < 255,
        1 + xs@.len() + lns@.len() <= 255,
    ensures
        e@ == spec_affine(reg.names(), xs@, lns@, *inits, lns@.len()),
        e.param_count == 1 + xs@.len() + lns@.len(),
        pure_shape(e, reg.names()),
{
    let ghost names = reg.names();
    let mut acc = Expression::parameter_with(inits.intercept.duplicate());
    let mut k: usize = 0;
    while k < xs.len()
        invariant
            names == reg.names(),
            pure_ready(names),
            forall|j: int| 0 <= j < xs@.len() ==> #[trigger] xs@[j] < 255,
            1 + xs@.len() + lns@.len() <= 255,
            k <= xs@.len(),
            acc@ == spec_affine_linear(names, xs@, *inits, k as nat),
            acc.param_count == 1 + k,
            pure_shape(acc, names),
        decreases xs@.len() - k,
    {
        let c = Expression::parameter_with(coeff_or_zero(&inits.x_coeffs, k));
        let x = var(xs[k]);
        assert(ops_within(c.nodes@, names, pure_grammar()));
        assert(ops_within(x.nodes@, names, pure_grammar()));
        assert(canonical(x, names));
        assert(ops_known(c.nodes@, names.len()));
        assert(pure_grammar().contains("Times"@) && pure_grammar().contains("Plus"@));
        let term = binary("Times", c, x, reg);
        assert(ops_within(term.nodes@, names, pure_grammar()));
        acc = binary("Plus", acc, term, reg);
        assert(ops_within(acc.nodes@, names, pure_grammar()));
        k += 1;
    }
    let mut m: usize = 0;
    while m < lns.len()
        invariant
            names == reg.names(),
            pure_ready(names),
            forall|j: int| 0 <= j < lns@.len() ==> #[trigger] lns@[j] < 255,
            1 + xs@.len() + lns@.len() <= 255,
            m <= lns@.len(),
            acc@ == spec_affine(names, xs@, lns@, *inits, m as nat),
            acc.param_count == 1 + xs@.len() + m,
            pure_shape(acc, names),
        decreases lns@.len() - m,
    {
        let c = Expression::parameter_with(coeff_or_zero(&inits.ln_coeffs, m));
        let x = var(lns[m]);
        assert(ops_within(x.nodes@, names, pure_grammar()));
        assert(canonical(x, names));
        assert(pure_shape(x, names));
        let l = eml_ln(x, reg);
        assert(ops_within(c.nodes@, names, pure_grammar()));
        assert(pure_grammar().contains("Times"@) && pure_grammar().contains("Plus"@));
        assert(pure_shape(l, names));
        assert(is_tree(c.nodes@));
        assert(ops_known(c.nodes@, names.len()));
        let term = binary("Times", c, l, reg);
        assert(ops_within(term.nodes@, names, pure_grammar()));
        assert(is_tree(term.nodes@));
        assert(params_below(term.nodes@, term.param_count as nat));
        acc = binary("Plus", acc, term, reg);
        assert(ops_within(acc.nodes@, names, pure_grammar()));
        assert(is_tree(acc.nodes@));
        assert(params_below(acc.nodes@, acc.param_count as nat));
        assert(ops_known(acc.nodes@, names.len()));
        assert(pure_shape(acc, names));
        m += 1;
    }
    acc
}

/// The unit templates the basis boosting can fit.
#[derive(Clone, Copy, Debug, PartialEq, Eq)]
pub enum UnitTemplate {
    /// c * EML(P(x), 1) = c * e^{P}: monomial x exponential class.
    ExpUnit,
    /// c * EML(0, 1 + A(x)*B(x)) = c * (1 - ln(1 + A*B)): logarithmic class.
    LogUnit,
    /// c * EML(P(x), 1 + A(x)*B(x)): both at once.
    FullUnit,
}

/// 1 + A(x) * B(x), with A and B two copies of the linear argument over `xs`.
pub open spec fn spec_one_plus_prod(names: Seq<Seq<char>>, xs: Seq<usize>, q: AffineInits) -> ExprView {
    let a = spec_affine(names, xs, Seq::empty(), q, 0);
    spec_binary(
        names,
        "Plus"@,
        spec_num(one_bits(), seq!['1']),
        spec_binary(names, "Times"@, a, a),
    )
}

/// The parametric unit `scale * EML(..)` of template `t`.
pub open spec fn spec_unit(
    names: Seq<Seq<char>>,
    t: UnitTemplate,
    xs: Seq<usize>,
    lns: Seq<usize>,
    scale: Real,
    p: AffineInits,
    q: AffineInits,
) -> ExprView {
    let core = match t {
        UnitTemplate::ExpUnit => spec_binary(
            names,
            "EML"@,
            spec_affine(names, xs, lns, p, lns.len()),
            spec_num(one_bits(), seq!['1']),
        ),
        UnitTemplate::LogUnit => spec_binary(
            names,
            "EML"@,
            spec_num(0, seq!['0']),
            spec_one_plus_prod(names, xs, q),
        ),
        UnitTemplate::FullUnit => spec_binary(
            names,
            "EML"@,
            spec_affine(names, xs, lns, p, lns.len()),
            spec_one_plus_prod(names, xs, q),
        ),
    };
    spec_binary(names, "Times"@, spec_param(scale.bits, scale.text@), core)
}

/// Number of parameters of the unit of template `t`.
pub open spec fn unit_param_count(t: UnitTemplate, nx: nat, nl: nat) -> nat {
    match t {
        UnitTemplate::ExpUnit => 1 + (1 + nx + nl),
        UnitTemplate::LogUnit => 1 + 2 * (1 + nx),
        UnitTemplate::FullUnit => 1 + (1 + nx + nl) + 2 * (1 + nx),
    }
}

/// Builds one parametric unit (leading scale included as a parameter).
pub fn build_unit(
    t: UnitTemplate,
    xs: &[usize],
    lns: &[usize],
    scale_init: Real,
    p_inits: &AffineInits,
    q_inits: &AffineInits,
    reg: &OperatorRegistry,
) -> (e: Expression)
    requires
        pure_ready(reg.names()),
        forall|k: int| 0 <= k < xs@.len() ==> #[trigger] xs@[k] < 255,
        forall|k: int| 0 <= k < lns@.len() ==> #[trigger] lns@[k] < 255,
        unit_param_count(t, xs@.len(), lns@.len()) <= 255,
    ensures
        e@ == spec_unit(reg.names(), t, xs@, lns@, scale_init, *p_inits, *q_inits),
        e.param_count == unit_param_count(t, xs@.len(), lns@.len()),
        pure_shape(e, reg.names()),
{
    let ghost names = reg.names();
    let ghost g = pure_grammar();
    assert(g.contains("EML"@) && g.contains("Times"@) && g.contains("Plus"@));
    let core = match t {
        UnitTemplate::ExpUnit => {
            let p = affine_arg(xs, lns, p_inits, reg);
            let one = num(real_one());
            assert(canonical(one, names));
            binary("EML", p, one, reg)
        },
        UnitTemplate::LogUnit => {
            let a = affine_arg(xs, &[], q_inits, reg);
            let b = affine_arg(xs, &[], q_inits, reg);
            let prod = binary("Times", a, b, reg);
            let one = num(real_one());
            assert(canonical(one, names));
            let opp = binary("Plus", one, prod, reg);
            let zero = num(real_zero());
            assert(canonical(zero, names));
            binary("EML", zero, opp, reg)
        },
        UnitTemplate::FullUnit => {
            let p = affine_arg(xs, lns, p_inits, reg);
            let a = affine_arg(xs, &[], q_inits, reg);
            let b = affine_arg(xs, &[], q_inits, reg);
            let prod = binary("Times", a, b, reg);
            let one = num(real_one());
            assert(canonical(one, names));
            let opp = binary("Plus", one, prod, reg);
            binary("EML", p, opp, reg)
        },
    };
    assert(pure_shape(core, names));
    let scale = Expression::parameter_with(scale_init);
    assert(ops_known(scale.nodes@, names.len()));
    binary("Times", scale, core, reg)
}

/// `existing + [unit]` without cloning the whole list twice.
pub fn unit_exprs_with(existing: &[Expression], unit: &Expression) -> (r: Vec<Expression>)
    ensures
        r@.len() == existing@.len() + 1,
        forall|i: int| 0 <= i < existing@.len() ==> #[trigger] r@[i]@ == existing@[i]@,
        r@[existing@.len() as int]@ == unit@,
{
    let mut v: Vec<Expression> = Vec::new();
    let mut i: usize = 0;
    while i < existing.len()
        invariant
            i <= existing@.len(),
            v@.len() == i,
            forall|j: int| 0 <= j < i ==> #[trigger] v@[j]@ == existing@[j]@,
        decreases existing@.len() - i,
    {
        v.push(existing[i].duplicate());
        i += 1;
    }
    v.push(unit.duplicate());
    v
}

/// Variable `j` ranks ahead of variable `i`: a higher score, or an equal
/// score and a smaller index (a stable descending sort).
pub open spec fn ranks_ahead(scores: Seq<u64>, j: int, i: int) -> bool {
    order_value(scores[j]) > order_value(scores[i]) || (order_value(scores[j]) == order_value(
        scores[i],
    ) && j < i)
}

/// How many of the first `k` variables rank ahead of variable `i`.
pub open spec fn places_ahead(scores: Seq<u64>, i: int, k: int) -> nat
    decreases k,
{
    if k <= 0 {
        0
    } else {
        places_ahead(scores, i, k - 1) + if ranks_ahead(scores, k - 1, i) {
            1nat
        } else {
            0nat
        }
    }
}

/// The `max_vars` variables with the highest relevance scores (bit
/// patterns of non-NaN doubles; ties go to the smaller index), listed in
/// increasing index order.
#[verifier::spinoff_prover]
#[verifier::rlimit(30)]
pub fn top_variables(scores: &[u64], max_vars: usize) -> (r: Vec<usize>)
    ensures
        forall|t: int| 0 <= t < r@.len() ==> #[trigger] r@[t] < scores@.len(),
        forall|t: int, u: int| 0 <= t < u < r@.len() ==> #[trigger] r@[t] < #[trigger] r@[u],
        forall|i: int|
            0 <= i < scores@.len() ==> (places_ahead(scores@, i, scores@.len() as int) < max_vars
                <==> exists|t: int| 0 <= t < r@.len() && #[trigger] r@[t] == i),
        r@.len() == if max_vars <= scores@.len() {
            max_vars as nat
        } else {
            scores@.len()
        },
{
    let n = scores.len();
    let mut r: Vec<usize> = Vec::new();
    let mut i: usize = 0;
    while i < n
        invariant
            n == scores@.len(),
            i <= n,
            forall|t: int| 0 <= t < r@.len() ==> #[trigger] r@[t] < i,
            forall|t: int, u: int| 0 <= t < u < r@.len() ==> #[trigger] r@[t] < #[trigger] r@[u],
            forall|q: int|
                0 <= q < i ==> (places_ahead(scores@, q, n as int) < max_vars <==> exists|t: int|
                    0 <= t < r@.len() && #[trigger] r@[t] == q),
        decreases n - i,
    {
        let vi = order_of(scores[i]);
        let mut count: usize = 0;
        let mut j: usize = 0;
        while j < n
            invariant
                n == scores@.len(),
                i < n,
                j <= n,
                vi as int == order_value(scores@[i as int]),
                count as nat == places_ahead(scores@, i as int, j as int),
                count <= j,
            decreases n - j,
        {
            let vj = order_of(scores[j]);
            if vj > vi || (vj == vi && j < i) {
                count += 1;
            }
            j += 1;
        }
        let ghost before = r@;
        if count < max_vars {
            r.push(i);
        }
        proof {
            assert forall|q: int|
                0 <= q < i + 1 implies (places_ahead(scores@, q, n as int) < max_vars <==> exists|t: int|
                    0 <= t < r@.len() && #[trigger] r@[t] == q) by {
                if q < i {
                    if exists|t: int| 0 <= t < before.len() && #[trigger] before[t] == q {
                        let t = choose|t: int| 0 <= t < before.len() && #[trigger] before[t] == q;
                        assert(r@[t] == q);
                    }
                    if exists|t: int| 0 <= t < r@.len() && #[trigger] r@[t] == q {
                        let t = choose|t: int| 0 <= t < r@.len() && #[trigger] r@[t] == q;
                        if t == before.len() {
                            assert(r@[t] == i);
                        } else {
                            assert(before[t] == q);
                        }
                    }
                } else {
                    if count < max_vars {
                        assert(r@[before.len() as int] == i);
                    } else {
                        if exists|t: int| 0 <= t < r@.len() && #[trigger] r@[t] == q {
                            let t = choose|t: int| 0 <= t < r@.len() && #[trigger] r@[t] == q;
                            assert(before[t] < i);
                        }
                    }
                }
            }
        }
        i += 1;
    }
    proof {
        let rs = r@.map_values(|v: usize| v as int);
        assert(rs.no_duplicates()) by {
            assert forall|a: int, b: int| 0 <= a < rs.len() && 0 <= b < rs.len() && a != b implies rs[a] != rs[b] by {
                if a < b {
                    assert(r@[a] < r@[b]);
                } else {
                    assert(r@[b] < r@[a]);
                }
            }
        }
        rs.unique_seq_to_set();
        let chosen = Set::new(
            |i: int| 0 <= i < scores@.len() && places_ahead(scores@, i, scores@.len() as int) < max_vars,
        );
        assert(rs.to_set() =~= chosen) by {
            assert forall|v: int| rs.to_set().contains(v) implies chosen.contains(v) by {
                let t = choose|t: int| 0 <= t < rs.len() && rs[t] == v;
                assert(r@[t] as int == v);
            }
            assert forall|v: int| chosen.contains(v) implies rs.to_set().contains(v) by {
                let t = choose|t: int| 0 <= t < r@.len() && #[trigger] r@[t] == v;
                assert(rs[t] == v);
            }
        }
        law_top_variables_count(scores@, max_vars as nat);
    }
    r
}

/// Number of parameters of the first `k` units.
pub open spec fn params_before(units: Seq<Expression>, k: int) -> int
    decreases k,
{
    if k <= 0 {
        0
    } else {
        params_before(units, k - 1) + units[k - 1].param_count
    }
}

/// `c0 + c_1 u_1 + ... + c_k u_k`, left-nested:
/// `Plus(...Plus(c0, Times(c_1, u_1))..., Times(c_k, u_k))`.
pub open spec fn unit_sum(
    names: Seq<Seq<char>>,
    c0: (u64, Seq<char>),
    coeffs: Seq<(u64, Seq<char>)>,
    units: Seq<ExprView>,
) -> ExprView
    decreases units.len(),
{
    if units.len() == 0 {
        spec_num(c0.0, c0.1)
    } else {
        let k = units.len() - 1;
        spec_binary(
            names,
            "Plus"@,
            unit_sum(names, c0, coeffs.take(k), units.take(k)),
            spec_binary(names, "Times"@, spec_num(coeffs[k].0, coeffs[k].1), units[k]),
        )
    }
}

/// Assembles the boosted model `c0 + sum_k c_k u_k` from its fitted units
/// and outer coefficients (pairing units with coefficients in order, as far
/// as both go).
#[verifier::spinoff_prover]
#[verifier::rlimit(30)]
pub fn assemble_units(c0: Real, coeffs: &[Real], units: &[Expression], reg: &OperatorRegistry) -> (e:
    Expression)
    requires
        units@.len() > 0 && coeffs@.len() > 0 ==> has_name(reg.names(), "Plus"@) && has_name(
            reg.names(),
            "Times"@,
        ),
        forall|k: int|
            0 <= k < units@.len() && k < coeffs@.len() ==> params_shiftable(
                #[trigger] units@[k].nodes@,
                params_before(units@, k) as nat,
            ),
        forall|k: int| 0 <= k <= units@.len() ==> #[trigger] params_before(units@, k) <= u8::MAX,
    ensures
        ({
            let m = if units@.len() <= coeffs@.len() {
                units@.len() as int
            } else {
                coeffs@.len() as int
            };
            e@ == unit_sum(
                reg.names(),
                (c0.bits, c0.text@),
                coeffs@.take(m).map_values(|r: Real| (r.bits, r.text@)),
                units@.take(m).map_values(|u: Expression| u@),
            )
        }),
        (forall|k: int| 0 <= k < units@.len() ==> ops_within(#[trigger] units@[k].nodes@, reg.names(), pure_grammar()))
            ==> ops_within(e.nodes@, reg.names(), pure_grammar()),
{
    let ghost names = reg.names();
    let ghost all_pure = forall|k: int|
        0 <= k < units@.len() ==> ops_within(#[trigger] units@[k].nodes@, reg.names(), pure_grammar());
    let ghost cv = coeffs@.map_values(|r: Real| (r.bits, r.text@));
    let ghost uv = units@.map_values(|u: Expression| u@);
    let mut expr = num(c0);
    let mut k: usize = 0;
    proof {
        assert(cv.take(0) =~= coeffs@.take(0).map_values(|r: Real| (r.bits, r.text@)));
    }
    while k < units.len() && k < coeffs.len()
        invariant
            names == reg.names(),
            cv == coeffs@.map_values(|r: Real| (r.bits, r.text@)),
            uv == units@.map_values(|u: Expression| u@),
            units@.len() > 0 && coeffs@.len() > 0 ==> has_name(names, "Plus"@) && has_name(
                names,
                "Times"@,
            ),
            forall|q: int|
                0 <= q < units@.len() && q < coeffs@.len() ==> params_shiftable(
                    #[trigger] units@[q].nodes@,
                    params_before(units@, q) as nat,
                ),
            forall|q: int| 0 <= q <= units@.len() ==> #[trigger] params_before(units@, q) <= u8::MAX,
            k <= units@.len(),
            k <= coeffs@.len(),
            expr.param_count == params_before(units@, k as int),
            expr@ == unit_sum(names, (c0.bits, c0.text@), cv.take(k as int), uv.take(k as int)),
            all_pure == forall|q: int|
                0 <= q < units@.len() ==> ops_within(#[trigger] units@[q].nodes@, names, pure_grammar()),
            all_pure ==> ops_within(expr.nodes@, names, pure_grammar()),
        decreases units@.len() - k,
    {
        let c = num(coeffs[k].duplicate());
        let u = units[k].duplicate();
        assert(u@ == units@[k as int]@);
        assert(pure_grammar().contains("Plus"@) && pure_grammar().contains("Times"@));
        assert(all_pure ==> ops_within(u.nodes@, names, pure_grammar()));
        let scaled = binary("Times", c, u, reg);
        proof {
            assert(params_before(units@, k + 1) == params_before(units@, k as int) + units@[k as int].param_count);
            assert(params_before(units@, k + 1) <= u8::MAX);
        }
        expr = binary("Plus", expr, scaled, reg);
        proof {
            let ct = cv.take(k + 1);
            let ut = uv.take(k + 1);
            assert(ct.take(k as int) =~= cv.take(k as int));
            assert(ut.take(k as int) =~= uv.take(k as int));
            assert(ct[k as int] == (coeffs@[k as int].bits, coeffs@[k as int].text@));
            assert(ut[k as int] == units@[k as int]@);
        }
        k += 1;
    }
    proof {
        assert(cv.take(k as int) =~= coeffs@.take(k as int).map_values(|r: Real| (r.bits, r.text@)));
        assert(uv.take(k as int) =~= units@.take(k as int).map_values(|u: Expression| u@));
    }
    expr
}

proof fn lemma_places_grow(scores: Seq<u64>, i: int, q: int, k: int)
    requires
        0 <= i < scores.len(),
        0 <= q < scores.len(),
        ranks_ahead(scores, q, i),
        0 <= k <= scores.len(),
    ensures
        places_ahead(scores, i, k) >= places_ahead(scores, q, k) + if q < k { 1int } else { 0int },
    decreases k,
{
    if k > 0 {
        lemma_places_grow(scores, i, q, k - 1);
        let j = k - 1;
        if ranks_ahead(scores, j, q) {
            assert(ranks_ahead(scores, j, i));
        }
        if j == q {
            assert(!ranks_ahead(scores, q, q));
        }
    }
}

proof fn lemma_places_below(scores: Seq<u64>, i: int, k: int)
    requires
        0 <= i < scores.len(),
        0 <= k <= scores.len(),
    ensures
        places_ahead(scores, i, k) <= k - if i < k { 1int } else { 0int },
    decreases k,
{
    if k > 0 {
        lemma_places_below(scores, i, k - 1);
        assert(!ranks_ahead(scores, i, i));
    }
}

/// Exactly `min(max_vars, n)` of the `n` variables are kept: the places of
/// the variables in the ranking are `0, 1, ..., n - 1`, each taken once.
pub proof fn law_top_variables_count(scores: Seq<u64>, max_vars: nat)
    ensures
        Set::new(|i: int| 0 <= i < scores.len() && places_ahead(scores, i, scores.len() as int) < max_vars).len()
            == if max_vars <= scores.len() {
            max_vars
        } else {
            scores.len()
        },
        Set::new(|i: int| 0 <= i < scores.len() && places_ahead(scores, i, scores.len() as int) < max_vars).finite(),
{
    let n = scores.len() as int;
    let place = |i: int| places_ahead(scores, i, n) as int;
    let idx = vstd::set_lib::set_int_range(0, n);
    vstd::set_lib::lemma_int_range(0, n);
    assert forall|i: int, q: int| idx.contains(i) && idx.contains(q) && #[trigger] place(i) == #[trigger] place(q)
        implies i == q by {
        if i != q {
            if ranks_ahead(scores, q, i) {
                lemma_places_grow(scores, i, q, n);
            } else {
                assert(ranks_ahead(scores, i, q));
                lemma_places_grow(scores, q, i, n);
            }
        }
    }
    assert(vstd::relations::injective_on(place, idx));
    let image = idx.map(place);
    vstd::set_lib::lemma_map_size(idx, image, place);
    assert(image.subset_of(vstd::set_lib::set_int_range(0, n))) by {
        assert forall|v: int| image.contains(v) implies vstd::set_lib::set_int_range(0, n).contains(v) by {
            let i = choose|i: int| idx.contains(i) && place(i) == v;
            lemma_places_below(scores, i, n);
        }
    }
    vstd::set_lib::lemma_subset_equality(image, vstd::set_lib::set_int_range(0, n));
    let m = if max_vars <= n { max_vars as int } else { n };
    let chosen = Set::new(|i: int| 0 <= i < scores.len() && places_ahead(scores, i, n) < max_vars);
    assert(chosen.subset_of(idx));
    vstd::set_lib::lemma_len_subset(chosen, idx);
    let low = chosen.map(place);
    assert(low =~= vstd::set_lib::set_int_range(0, m)) by {
        assert forall|v: int| low.contains(v) implies 0 <= v < m by {
            let i = choose|i: int| chosen.contains(i) && place(i) == v;
            lemma_places_below(scores, i, n);
        }
        assert forall|v: int| 0 <= v < m implies low.contains(v) by {
            assert(vstd::set_lib::set_int_range(0, n).contains(v));
            assert(image.contains(v));
            let i = choose|i: int| idx.contains(i) && place(i) == v;
            assert(chosen.contains(i));
        }
    }
    assert(vstd::relations::injective_on(place, chosen));
    vstd::set_lib::lemma_map_size(chosen, low, place);
    vstd::set_lib::lemma_int_range(0, m);
}

} // verus!

verus! {

/// The stages of the pure-EML pipeline, in the order in which they can run.
#[derive(Clone, Copy, Debug, PartialEq, Eq)]
pub enum PureStage {
    /// Nothing has run yet.
    Start,
    /// EML basis boosting.
    Basis,
    /// The pure-EML beam search.
    Beam,
    /// The beam search again, twice as wide.
    WideBeam,
    /// One more basis pass on the residual of the best candidate.
    Boost,
    /// The pipeline has given its answer.
    Done,
}

/// What the outcome of the last piece of work tells the pure-EML pipeline.
#[derive(Clone, Copy, Debug, PartialEq, Eq)]
pub struct PureReport {
    /// The best error of the pool now.
    pub best_error: u64,
    /// The last beam search ended in an error.
    pub beam_failed: bool,
    /// The pool holds no candidate.
    pub pool_empty: bool,
    /// A deadline is set and more than 30% of the time budget remains.
    pub ample_time: bool,
    /// The lower end of the boosting band (`1e-4 * std(y)`).
    pub band_low: u64,
    /// The upper end of the boosting band (`0.2 * std(y)`).
    pub band_high: u64,
}

/// The next piece of work of the pure-EML pipeline.
#[derive(Clone, Copy, Debug, PartialEq, Eq)]
pub enum PureAction {
    /// Run EML basis boosting and pool its snapshots.
    RunBasis,
    /// Run the pure-EML beam search and pool its front.
    RunBeam,
    /// Run the beam search with twice the beam width and pool its front.
    RunWideBeam,
    /// Run basis boosting on the best candidate's residual; pool the sums.
    Boost,
    /// Polish, filter and merge the pool: the answer.
    Finish,
    /// Answer with the beam search's error.
    ReturnBeamError,
    /// Answer that nothing was found.
    NotFound,
    /// The answer has been given.
    Halt,
}

/// The best error lies in the band where residual boosting pays: finite,
/// above `low` and below `high`.
pub open spec fn in_band(best: u64, low: u64, high: u64) -> bool {
    finite_bits(best) && error_below(low, best) && error_below(best, high)
}

/// After the wide beam (run or skipped): boost when basis boosting is on
/// and the best error is in the band, finish, or report an empty pool.
pub open spec fn spec_pure_after_wide(basis_stage: bool, rep: PureReport) -> (PureStage, PureAction) {
    if rep.pool_empty {
        (PureStage::Done, PureAction::NotFound)
    } else if basis_stage && in_band(rep.best_error, rep.band_low, rep.band_high) {
        (PureStage::Boost, PureAction::Boost)
    } else {
        (PureStage::Done, PureAction::Finish)
    }
}

/// After basis boosting: finish at once when it reached the exit error,
/// otherwise run the beam search.
pub open spec fn spec_pure_after_basis(rep: PureReport, exit: u64) -> (PureStage, PureAction) {
    if at_most(rep.best_error, exit) {
        (PureStage::Done, PureAction::Finish)
    } else {
        (PureStage::Beam, PureAction::RunBeam)
    }
}

/// One step of the pure-EML pipeline: from the stage whose work was handed
/// out last, whether basis boosting is on, what the work reported and the
/// exit error, the next stage and piece of work.
pub open spec fn spec_pure_step(stage: PureStage, basis_stage: bool, rep: PureReport, exit: u64) -> (
    PureStage,
    PureAction,
) {
    match stage {
        PureStage::Start => if basis_stage {
            (PureStage::Basis, PureAction::RunBasis)
        } else {
            spec_pure_after_basis(rep, exit)
        },
        PureStage::Basis => spec_pure_after_basis(rep, exit),
        PureStage::Beam => if rep.beam_failed && rep.pool_empty {
            (PureStage::Done, PureAction::ReturnBeamError)
        } else if rep.ample_time && !at_most(rep.best_error, exit) {
            (PureStage::WideBeam, PureAction::RunWideBeam)
        } else {
            spec_pure_after_wide(basis_stage, rep)
        },
        PureStage::WideBeam => spec_pure_after_wide(basis_stage, rep),
        PureStage::Boost => (PureStage::Done, PureAction::Finish),
        PureStage::Done => (PureStage::Done, PureAction::Halt),
    }
}

/// Whether the best error lies in the boosting band.
pub fn is_in_band(best: u64, low: u64, high: u64) -> (r: bool)
    ensures
        r == in_band(best, low, high),
{
    is_finite_error(best) && error_less(low, best) && error_less(best, high)
}

fn pure_after_wide(basis_stage: bool, rep: &PureReport) -> (r: (PureStage, PureAction))
    ensures
        r == spec_pure_after_wide(basis_stage, *rep),
{
    if rep.pool_empty {
        (PureStage::Done, PureAction::NotFound)
    } else if basis_stage && is_in_band(rep.best_error, rep.band_low, rep.band_high) {
        (PureStage::Boost, PureAction::Boost)
    } else {
        (PureStage::Done, PureAction::Finish)
    }
}

fn pure_after_basis(rep: &PureReport, exit: u64) -> (r: (PureStage, PureAction))
    ensures
        r == spec_pure_after_basis(*rep, exit),
{
    if error_at_most(rep.best_error, exit) {
        (PureStage::Done, PureAction::Finish)
    } else {
        (PureStage::Beam, PureAction::RunBeam)
    }
}

/// One step of the pure-EML pipeline (`run_pure_eml`'s decisions).
pub fn pure_step(stage: PureStage, basis_stage: bool, rep: &PureReport, exit: u64) -> (r: (
    PureStage,
    PureAction,
))
    ensures
        r == spec_pure_step(stage, basis_stage, *rep, exit),
{
    match stage {
        PureStage::Start => if basis_stage {
            (PureStage::Basis, PureAction::RunBasis)
        } else {
            pure_after_basis(rep, exit)
        },
        PureStage::Basis => pure_after_basis(rep, exit),
        PureStage::Beam => if rep.beam_failed && rep.pool_empty {
            (PureStage::Done, PureAction::ReturnBeamError)
        } else if rep.ample_time && !error_at_most(rep.best_error, exit) {
            (PureStage::WideBeam, PureAction::RunWideBeam)
        } else {
            pure_after_wide(basis_stage, rep)
        },
        PureStage::WideBeam => pure_after_wide(basis_stage, rep),
        PureStage::Boost => (PureStage::Done, PureAction::Finish),
        PureStage::Done => (PureStage::Done, PureAction::Halt),
    }
}

/// The place of a stage in the pure-EML pipeline's order.
pub open spec fn pure_rank(stage: PureStage) -> int {
    match stage {
        PureStage::Start => 0,
        PureStage::Basis => 1,
        PureStage::Beam => 2,
        PureStage::WideBeam => 3,
        PureStage::Boost => 4,
        PureStage::Done => 5,
    }
}

/// The pure-EML pipeline only moves forward and each stage runs at most
/// once: every step leads to a later stage until it is done, so a run ends
/// after at most five steps. The wide beam runs only with time to spare and
/// the data unsolved, the residual pass only with basis boosting on and the
/// best error in its band, and basis boosting that reaches the exit error
/// ends the run.
pub proof fn law_pure_pipeline(stage: PureStage, basis_stage: bool, rep: PureReport, exit: u64)
    ensures
        ({
            let (n, a) = spec_pure_step(stage, basis_stage, rep, exit);
            &&& stage != PureStage::Done ==> pure_rank(n) > pure_rank(stage)
            &&& stage == PureStage::Done ==> n == PureStage::Done && a == PureAction::Halt
            &&& a == PureAction::RunWideBeam ==> rep.ample_time && !at_most(rep.best_error, exit)
            &&& a == PureAction::Boost ==> basis_stage && in_band(rep.best_error, rep.band_low, rep.band_high)
            &&& a == PureAction::RunBasis ==> basis_stage
            &&& (stage == PureStage::Basis && at_most(rep.best_error, exit)) ==> a == PureAction::Finish
            &&& (a == PureAction::Finish || a == PureAction::NotFound || a == PureAction::ReturnBeamError)
                ==> n == PureStage::Done
        }),
{
}

} // verus!

verus! {

/// The full unit combines the other two: its EML node takes the exponent
/// argument of the exponential unit and the log argument of the
/// logarithmic unit, all three under the same leading scale.
pub proof fn law_full_unit_combines(
    names: Seq<Seq<char>>,
    xs: Seq<usize>,
    lns: Seq<usize>,
    scale: Real,
    p: AffineInits,
    q: AffineInits,
)
    ensures
        exists|arg: ExprView, log_arg: ExprView|
            {
                let c = spec_param(scale.bits, scale.text@);
                &&& spec_unit(names, UnitTemplate::ExpUnit, xs, lns, scale, p, q) == spec_binary(
                    names,
                    "Times"@,
                    c,
                    spec_binary(names, "EML"@, arg, spec_num(one_bits(), seq!['1'])),
                )
                &&& spec_unit(names, UnitTemplate::LogUnit, xs, lns, scale, p, q) == spec_binary(
                    names,
                    "Times"@,
                    c,
                    spec_binary(names, "EML"@, spec_num(0, seq!['0']), log_arg),
                )
                &&& spec_unit(names, UnitTemplate::FullUnit, xs, lns, scale, p, q) == spec_binary(
                    names,
                    "Times"@,
                    c,
                    #[trigger] spec_binary(names, "EML"@, arg, log_arg),
                )
            },
{
    let arg = spec_affine(names, xs, lns, p, lns.len());
    let log_arg = spec_one_plus_prod(names, xs, q);
    assert(spec_unit(names, UnitTemplate::FullUnit, xs, lns, scale, p, q) == spec_binary(
        names,
        "Times"@,
        spec_param(scale.bits, scale.text@),
        spec_binary(names, "EML"@, arg, log_arg),
    ));
}

} // verus!
