//! Stage A structure: the invertible target transforms and how a fitted
//! monomial sum is wrapped by the inverse transform, and the size estimate
//! of the monomial dictionaries.

use vstd::prelude::*;

use crate::builder::{binary, canonical, num, spec_binary, spec_num, spec_unary, unary};
use crate::expression::{is_tree, one_bits, params_below, real_one, ExprView, Expression};
use crate::registry::{has_name, OperatorRegistry};
use crate::render::ops_known;
use crate::bfs::{evenly_spaced, order_of, order_value};
use crate::pareto::{at_most, error_at_most};

verus! {

/// Invertible target transforms attempted by Stage A.
#[derive(Clone, Copy, Debug, PartialEq, Eq)]
pub enum Transform {
    Id,
    Log,
    InvY,
    InvY2,
    Y2,
    /// t = ln(1 + y), defined for y > -1. Linearizes `exp(m) - 1` shapes
    /// (diode law, Bose-Einstein denominators after whitening).
    Log1p,
    /// t = ln((1 - y)/y), defined for y in (0, 1). Linearizes the logistic
    /// family y = 1/(1 + exp(m)) common in biology/chemistry/economics.
    Logit,
    /// t = asin(sqrt(y)), defined for y in (0, 1). Linearizes y = sin^2(m)
    /// (transition probabilities, interference fringes) as long as the
    /// argument stays within the principal branch.
    AsinSqrt,
    /// t = atanh(y), defined for |y| < 1. Linearizes y = tanh(m)
    /// (saturation laws with unit amplitude).
    Atanh,
}

/// The operators the inverse of `t` is written with (and `Neg` when negating).
pub open spec fn invert_ready(names: Seq<Seq<char>>, t: Transform, negate: bool) -> bool {
    &&& negate ==> has_name(names, "Neg"@)
    &&& match t {
        Transform::Id => true,
        Transform::Log => has_name(names, "Exp"@),
        Transform::InvY => has_name(names, "Inv"@),
        Transform::InvY2 => has_name(names, "Inv"@) && has_name(names, "Sqrt"@),
        Transform::Y2 => has_name(names, "Sqrt"@),
        Transform::Log1p => has_name(names, "Subtract"@) && has_name(names, "Exp"@),
        Transform::Logit => has_name(names, "Inv"@) && has_name(names, "Plus"@) && has_name(
            names,
            "Exp"@,
        ),
        Transform::AsinSqrt => has_name(names, "Square"@) && has_name(names, "Sin"@),
        Transform::Atanh => has_name(names, "Tanh"@),
    }
}

/// The inverse of transform `t` applied to `m`, negated when `negate`.
pub open spec fn spec_invert(
    names: Seq<Seq<char>>,
    t: Transform,
    m: ExprView,
    negate: bool,
) -> ExprView {
    let one = spec_num(one_bits(), seq!['1']);
    let inner = match t {
        Transform::Id => m,
        Transform::Log => spec_unary(names, "Exp"@, m),
        Transform::InvY => spec_unary(names, "Inv"@, m),
        Transform::InvY2 => spec_unary(names, "Inv"@, spec_unary(names, "Sqrt"@, m)),
        Transform::Y2 => spec_unary(names, "Sqrt"@, m),
        Transform::Log1p => spec_binary(names, "Subtract"@, spec_unary(names, "Exp"@, m), one),
        Transform::Logit => spec_unary(
            names,
            "Inv"@,
            spec_binary(names, "Plus"@, one, spec_unary(names, "Exp"@, m)),
        ),
        Transform::AsinSqrt => spec_unary(names, "Square"@, spec_unary(names, "Sin"@, m)),
        Transform::Atanh => spec_unary(names, "Tanh"@, m),
    };
    if negate {
        spec_unary(names, "Neg"@, inner)
    } else {
        inner
    }
}

/// Wraps the monomial-sum expression `m_expr` with the transform inverse.
pub fn invert_expression(t: Transform, m_expr: Expression, negate: bool, reg: &OperatorRegistry) -> (e:
    Expression)
    requires
        invert_ready(reg.names(), t, negate),
    ensures
        e@ == spec_invert(reg.names(), t, m_expr@, negate),
        canonical(m_expr, reg.names()) ==> canonical(e, reg.names()),
        params_below(m_expr.nodes@, m_expr.param_count as nat) ==> params_below(
            e.nodes@,
            e.param_count as nat,
        ),
{
    let ghost names = reg.names();
    let inner = match t {
        Transform::Id => m_expr,
        Transform::Log => unary("Exp", m_expr, reg),
        Transform::InvY => unary("Inv", m_expr, reg),
        Transform::InvY2 => unary("Inv", unary("Sqrt", m_expr, reg), reg),
        Transform::Y2 => unary("Sqrt", m_expr, reg),
        Transform::Log1p => {
            let one = num(real_one());
            assert(canonical(one, names));
            binary("Subtract", unary("Exp", m_expr, reg), one, reg)
        },
        Transform::Logit => {
            let one = num(real_one());
            assert(canonical(one, names));
            unary("Inv", binary("Plus", one, unary("Exp", m_expr, reg), reg), reg)
        },
        Transform::AsinSqrt => unary("Square", unary("Sin", m_expr, reg), reg),
        Transform::Atanh => unary("Tanh", m_expr, reg),
    };
    if negate {
        unary("Neg", inner, reg)
    } else {
        inner
    }
}

} // verus!

verus! {

/// The binomial coefficient, by Pascal's rule.
pub open spec fn binom(n: nat, k: nat) -> nat
    decreases n,
{
    if k == 0 {
        1
    } else if n == 0 {
        0
    } else {
        binom((n - 1) as nat, (k - 1) as nat) + binom((n - 1) as nat, k)
    }
}

/// `b` to the power `e`.
pub open spec fn power(b: nat, e: nat) -> nat
    decreases e,
{
    if e == 0 {
        1
    } else {
        b * power(b, (e - 1) as nat)
    }
}

/// Number of exponent vectors with at most `m` active variables out of `n`,
/// each active variable taking one of `e` exponents (the constant vector
/// included): sum over k <= m of C(n, k) * e^k.
pub open spec fn dict_count(n: nat, e: nat, m: nat) -> nat
    decreases m,
{
    if m == 0 {
        1
    } else {
        dict_count(n, e, (m - 1) as nat) + binom(n, m) * power(e, m)
    }
}

/// Absorption: k * C(n, k) = n * C(n - 1, k - 1).
pub proof fn lemma_binom_absorb(n: nat, k: nat)
    requires
        n >= 1,
        k >= 1,
    ensures
        k * binom(n, k) == n * binom((n - 1) as nat, (k - 1) as nat),
    decreases n,
{
    let n1 = (n - 1) as nat;
    let k1 = (k - 1) as nat;
    if n == 1 {
        if k == 1 {
            assert(binom(1, 1) == binom(0, 0) + binom(0, 1));
            assert(k * binom(n, k) == n * binom(n1, k1));
        } else {
            assert(binom(0, k1) == 0);
            assert(binom(0, k) == 0);
            assert(binom(1, k) == binom(0, k1) + binom(0, k));
            assert(k * binom(n, k) == 0) by (nonlinear_arith)
                requires
                    binom(n, k) == 0,
            ;
            assert(n * binom(n1, k1) == 0) by (nonlinear_arith)
                requires
                    binom(n1, k1) == 0,
            ;
        }
    } else if k == 1 {
        lemma_binom_one(n);
        assert(binom(n1, 0) == 1);
        assert(k * binom(n, k) == n * binom(n1, k1)) by (nonlinear_arith)
            requires
                k == 1,
                k1 == 0,
                binom(n, k) == n,
                binom(n1, k1) == 1,
        ;
    } else {
        // k C(n,k) = k C(n-1,k-1) + k C(n-1,k)
        //          = (k-1) C(n-1,k-1) + C(n-1,k-1) + k C(n-1,k)
        //          = (n-1) C(n-2,k-2) + C(n-1,k-1) + (n-1) C(n-2,k-1)
        //          = (n-1) C(n-1,k-1) + C(n-1,k-1) = n C(n-1,k-1).
        let n2 = (n - 2) as nat;
        let k2 = (k - 2) as nat;
        lemma_binom_absorb(n1, k1);
        lemma_binom_absorb(n1, k);
        assert(binom(n, k) == binom(n1, k1) + binom(n1, k));
        assert(binom(n1, k1) == binom(n2, k2) + binom(n2, k1));
        assert(k * binom(n, k) == k * binom(n1, k1) + k * binom(n1, k)) by (nonlinear_arith)
            requires
                binom(n, k) == binom(n1, k1) + binom(n1, k),
        ;
        assert(k * binom(n1, k1) == k1 * binom(n1, k1) + binom(n1, k1)) by (nonlinear_arith)
            requires
                k == k1 + 1,
        ;
        assert(n1 * binom(n1, k1) == n1 * binom(n2, k2) + n1 * binom(n2, k1)) by (nonlinear_arith)
            requires
                binom(n1, k1) == binom(n2, k2) + binom(n2, k1),
        ;
        assert(n * binom(n1, k1) == n1 * binom(n1, k1) + binom(n1, k1)) by (nonlinear_arith)
            requires
                n == n1 + 1,
        ;
        assert(k1 * binom(n1, k1) == n1 * binom(n2, k2));
        assert(k * binom(n1, k) == n1 * binom(n2, k1));
        assert(k * binom(n, k) == n * binom(n1, k1));
    }
}

/// C(n, 1) = n.
pub proof fn lemma_binom_one(n: nat)
    ensures
        binom(n, 1) == n,
    decreases n,
{
    if n > 0 {
        lemma_binom_one((n - 1) as nat);
        assert(binom(n, 1) == binom((n - 1) as nat, 0) + binom((n - 1) as nat, 1));
    }
}

/// C(n, k) = 0 when k > n.
pub proof fn lemma_binom_zero(n: nat, k: nat)
    requires
        k > n,
    ensures
        binom(n, k) == 0,
    decreases n,
{
    if n > 0 {
        lemma_binom_zero((n - 1) as nat, (k - 1) as nat);
        lemma_binom_zero((n - 1) as nat, k);
    }
}

/// The step of the multiplicative formula:
/// C(n, k - 1) * (n - k + 1) = k * C(n, k).
pub proof fn lemma_binom_step(n: nat, k: nat)
    requires
        1 <= k <= n,
    ensures
        binom(n, (k - 1) as nat) * ((n - k + 1) as nat) == k * binom(n, k),
{
    let n1 = (n - 1) as nat;
    let k1 = (k - 1) as nat;
    lemma_binom_absorb(n, k);
    // (n - (k-1)) C(n, k-1) = n C(n-1, k-1), from absorption and Pascal.
    if k1 == 0 {
        assert(binom(n, 0) == 1);
        assert(binom(n1, 0) == 1);
    } else {
        lemma_binom_absorb(n, k1);
        assert(binom(n, k1) == binom(n1, (k1 - 1) as nat) + binom(n1, k1));
        assert(k1 * binom(n, k1) == n * binom(n1, (k1 - 1) as nat));
        assert(n * binom(n, k1) == n * binom(n1, (k1 - 1) as nat) + n * binom(n1, k1))
            by (nonlinear_arith)
            requires
                binom(n, k1) == binom(n1, (k1 - 1) as nat) + binom(n1, k1),
        ;
        assert(binom(n, k1) * ((n - k + 1) as nat) == n * binom(n, k1) - k1 * binom(n, k1))
            by (nonlinear_arith)
            requires
                k1 == k - 1,
                k <= n,
        ;
    }
}

/// Number of exponent vectors a dictionary over `n_usable` variables, `n_exps`
/// exponents and at most `cap` active variables per term would hold,
/// saturating at `usize::MAX`.
pub fn dict_size_estimate(n_usable: usize, n_exps: usize, cap: usize) -> (r: usize)
    requires
        forall|k: nat|
            1 <= k <= cap && k <= n_usable ==> #[trigger] binom(n_usable as nat, (k - 1) as nat) * (
            (n_usable - k + 1) as nat) <= usize::MAX && power(n_exps as nat, k) <= usize::MAX,
    ensures
        r == if dict_count(
            n_usable as nat,
            n_exps as nat,
            if cap <= n_usable {
                cap as nat
            } else {
                n_usable as nat
            },
        ) <= usize::MAX {
            dict_count(
                n_usable as nat,
                n_exps as nat,
                if cap <= n_usable {
                    cap as nat
                } else {
                    n_usable as nat
                },
            )
        } else {
            usize::MAX as nat
        },
{
    let n = n_usable;
    let m: usize = if cap <= n {
        cap
    } else {
        n
    };
    let mut total: usize = 1;
    let mut choose: usize = 1;
    let mut j: usize = 0;
    while j < m
        invariant
            m <= n,
            m <= cap,
            n == n_usable,
            j <= m,
            choose == binom(n as nat, j as nat),
            total == if dict_count(n as nat, n_exps as nat, j as nat) <= usize::MAX {
                dict_count(n as nat, n_exps as nat, j as nat)
            } else {
                usize::MAX as nat
            },
            forall|j: nat|
                1 <= j <= cap && j <= n_usable ==> #[trigger] binom(n_usable as nat, (j - 1) as nat)
                    * ((n_usable - j + 1) as nat) <= usize::MAX && power(n_exps as nat, j)
                    <= usize::MAX,
        decreases m - j,
    {
        let k: usize = j + 1;
        let ghost kk: nat = k as nat;
        assert(binom(n_usable as nat, (kk - 1) as nat) * ((n_usable - kk + 1) as nat) <= usize::MAX
            && power(n_exps as nat, kk) <= usize::MAX);
        assert((kk - 1) as nat == j as nat);
        proof {
            lemma_binom_step(n as nat, k as nat);
        }
        let prod: usize = choose * (n - k + 1);
        choose = prod / k;
        assert(choose == binom(n as nat, k as nat)) by (nonlinear_arith)
            requires
                prod == k * binom(n as nat, k as nat),
                choose == prod / k,
                k >= 1,
        ;
        let p = pow_usize(n_exps, k);
        let term: usize = match choose.checked_mul(p) {
            Some(x) => x,
            None => usize::MAX,
        };
        total = total.saturating_add(term);
        proof {
            let d = dict_count(n as nat, n_exps as nat, (k - 1) as nat);
            let t = binom(n as nat, k as nat) * power(n_exps as nat, k as nat);
            assert(dict_count(n as nat, n_exps as nat, k as nat) == d + t);
        }
        j += 1;
    }
    total
}

/// `b` to the power `e`, when it fits.
fn pow_usize(b: usize, e: usize) -> (r: usize)
    requires
        power(b as nat, e as nat) <= usize::MAX,
    ensures
        r == power(b as nat, e as nat),
{
    let mut r: usize = 1;
    let mut i: usize = 0;
    while i < e
        invariant
            i <= e,
            r == power(b as nat, i as nat),
            power(b as nat, e as nat) <= usize::MAX,
        decreases e - i,
    {
        proof {
            lemma_power_grows(b as nat, (i + 1) as nat, e as nat);
        }
        assert(power(b as nat, (i + 1) as nat) == b * power(b as nat, i as nat));
        r = b * r;
        i += 1;
    }
    r
}

/// A power with a non-zero base only grows with the exponent, and any power
/// of a zero base past the first is zero.
proof fn lemma_power_grows(b: nat, i: nat, e: nat)
    requires
        i <= e,
    ensures
        b >= 1 ==> power(b, i) <= power(b, e),
        b == 0 && i >= 1 ==> power(b, i) == 0,
    decreases e - i,
{
    if i < e {
        lemma_power_grows(b, i + 1, e);
        assert(power(b, i + 1) == b * power(b, i));
        if b >= 1 {
            assert(power(b, i) <= b * power(b, i)) by (nonlinear_arith)
                requires
                    b >= 1,
            ;
        }
    }
    if b == 0 && i >= 1 {
        assert(power(b, i) == b * power(b, (i - 1) as nat));
    }
}

} // verus!

verus! {

/// The row split of a dictionary pursuit over `n` rows: up to 250 rows
/// spread evenly; when there are at least 25 of them, every fifth (position
/// 4, 9, ...) is held out for validation and the rest are fit rows.
/// Returns (fit rows, validation rows).
pub fn pursuit_rows(n: usize) -> (r: (Vec<usize>, Vec<usize>))
    ensures
        ({
            let sub: int = if n <= 250 { n as int } else { 250 };
            let (fit, val) = (r.0@, r.1@);
            if sub >= 25 {
                &&& val.len() == sub / 5
                &&& fit.len() == sub - sub / 5
                &&& forall|t: int| 0 <= t < val.len() ==> #[trigger] val[t] as int == (5 * t + 4) * n / sub
                &&& forall|t: int| 0 <= t < fit.len() ==> #[trigger] fit[t] as int == (t + t / 4) * n / sub
            } else {
                &&& val.len() == 0
                &&& fit.len() == sub
                &&& forall|t: int| 0 <= t < fit.len() ==> #[trigger] fit[t] as int == t * n / sub
            }
        }),
{
    let sub: usize = if n <= 250 { n } else { 250 };
    let all = evenly_spaced(n, sub);
    let mut fit: Vec<usize> = Vec::new();
    let mut val: Vec<usize> = Vec::new();
    let mut pos: usize = 0;
    while pos < sub
        invariant
            sub == if n <= 250 { n as int } else { 250 },
            all@.len() == sub,
            forall|i: int| 0 <= i < sub ==> #[trigger] all@[i] as int == i * n / (sub as int),
            pos <= sub,
            sub >= 25 ==> val@.len() == pos / 5 && fit@.len() == pos - pos / 5,
            sub < 25 ==> val@.len() == 0 && fit@.len() == pos,
            sub >= 25 ==> forall|t: int| 0 <= t < val@.len() ==> #[trigger] val@[t] as int == (5 * t + 4) * n / (sub as int),
            sub >= 25 ==> forall|t: int| 0 <= t < fit@.len() ==> #[trigger] fit@[t] as int == (t + t / 4) * n / (sub as int),
            sub < 25 ==> forall|t: int| 0 <= t < fit@.len() ==> #[trigger] fit@[t] as int == t * n / (sub as int),
        decreases sub - pos,
    {
        proof {
            assert((pos + 1) / 5 == pos / 5 + if pos % 5 == 4 { 1int } else { 0int }) by (nonlinear_arith);
            assert(pos % 5 == 4 ==> pos == 5 * (pos / 5) + 4) by (nonlinear_arith);
            let t = pos - pos / 5;
            assert(pos % 5 != 4 ==> t + t / 4 == pos) by (nonlinear_arith)
                requires
                    t == pos - pos / 5,
            ;
        }
        if pos % 5 == 4 && sub >= 25 {
            val.push(all[pos]);
        } else {
            fit.push(all[pos]);
        }
        pos += 1;
    }
    (fit, val)
}

/// The starts of a dictionary pursuit without duplicates, in order: first
/// the free start, then (for a small dictionary) the four best-ranked
/// columns, then every extra start that names a dictionary column and is
/// not listed yet.
pub open spec fn spec_starts(ranked: Seq<usize>, extra: Seq<usize>, dict_len: nat, small: bool) -> Seq<
    Option<usize>,
>
    decreases extra.len(),
{
    if extra.len() == 0 {
        let top = if ranked.len() <= 4 {
            ranked
        } else {
            ranked.take(4)
        };
        seq![None] + if small {
            top.map_values(|c: usize| Some(c))
        } else {
            Seq::empty()
        }
    } else {
        let prev = spec_starts(ranked, extra.drop_last(), dict_len, small);
        let s = extra.last();
        if s < dict_len && !prev.contains(Some(s)) {
            prev.push(Some(s))
        } else {
            prev
        }
    }
}

/// Assembles the starts of a dictionary pursuit: `None` (the free start),
/// the four best-ranked columns when the dictionary is small (`ranked` is
/// the columns by decreasing initial correlation), and the extra starts
/// that name dictionary columns, each start once.
pub fn pursuit_starts(ranked: &[usize], extra: &[usize], dict_len: usize, small: bool) -> (r: Vec<
    Option<usize>,
>)
    ensures
        r@ == spec_starts(ranked@, extra@, dict_len as nat, small),
{
    let mut starts: Vec<Option<usize>> = Vec::new();
    starts.push(None);
    if small {
        let mut k: usize = 0;
        while k < ranked.len() && k < 4
            invariant
                k <= ranked@.len(),
                k <= 4,
                starts@ == seq![None] + ranked@.take(k as int).map_values(|c: usize| Some(c)),
            decreases ranked@.len() - k,
        {
            starts.push(Some(ranked[k]));
            k += 1;
            assert(starts@ =~= seq![None] + ranked@.take(k as int).map_values(|c: usize| Some(c)));
        }
        if ranked.len() <= 4 {
            assert(ranked@.take(ranked@.len() as int) =~= ranked@);
        }
    }
    assert(starts@ =~= spec_starts(ranked@, extra@.take(0), dict_len as nat, small));
    let mut i: usize = 0;
    while i < extra.len()
        invariant
            i <= extra@.len(),
            starts@ == spec_starts(ranked@, extra@.take(i as int), dict_len as nat, small),
        decreases extra@.len() - i,
    {
        let s = extra[i];
        proof {
            let t = extra@.take(i + 1);
            assert(t.drop_last() =~= extra@.take(i as int));
            assert(t.last() == s);
        }
        if s < dict_len {
            let mut found = false;
            let mut j: usize = 0;
            while j < starts.len()
                invariant
                    j <= starts@.len(),
                    found == exists|q: int| 0 <= q < j && starts@[q] == Some(s),
                decreases starts@.len() - j,
            {
                if starts[j] == Some(s) {
                    found = true;
                }
                j += 1;
            }
            if !found {
                starts.push(Some(s));
            } else {
                assert(starts@.contains(Some(s)));
            }
        }
        i += 1;
    }
    assert(extra@.take(extra@.len() as int) =~= extra@);
    starts
}

} // verus!

verus! {

/// Candidate `a` comes before candidate `b` in Stage A's validation-ranked
/// order: candidates whose held-out error is within `band` come first;
/// among those the simpler one first; then the smaller held-out error; the
/// earlier candidate on a tie.
pub open spec fn ranks_before(vals: Seq<u64>, comps: Seq<usize>, band: u64, a: int, b: int) -> bool {
    let in_a = at_most(vals[a], band);
    let in_b = at_most(vals[b], band);
    if in_a != in_b {
        in_a
    } else if in_a && comps[a] != comps[b] {
        comps[a] < comps[b]
    } else if order_value(vals[a]) != order_value(vals[b]) {
        order_value(vals[a]) < order_value(vals[b])
    } else {
        a < b
    }
}

/// `r` lists every candidate `0 .. n` exactly once, in the ranked order.
pub open spec fn band_ordered(vals: Seq<u64>, comps: Seq<usize>, band: u64, r: Seq<usize>) -> bool {
    &&& r.len() == vals.len()
    &&& forall|i: int| 0 <= i < r.len() ==> #[trigger] r[i] < vals.len()
    &&& forall|i: int, j: int| 0 <= i < j < r.len() ==> ranks_before(vals, comps, band, #[trigger] r[i] as int, #[trigger] r[j] as int)
}

proof fn lemma_ranks_total(vals: Seq<u64>, comps: Seq<usize>, band: u64, a: int, b: int)
    requires
        a != b,
    ensures
        ranks_before(vals, comps, band, a, b) || ranks_before(vals, comps, band, b, a),
        !(ranks_before(vals, comps, band, a, b) && ranks_before(vals, comps, band, b, a)),
{
}

proof fn lemma_ranks_transitive(vals: Seq<u64>, comps: Seq<usize>, band: u64, a: int, b: int, c: int)
    requires
        ranks_before(vals, comps, band, a, b),
        ranks_before(vals, comps, band, b, c),
    ensures
        ranks_before(vals, comps, band, a, c),
{
}

fn ranks_before_exec(vals: &[u64], comps: &[usize], band: u64, a: usize, b: usize) -> (r: bool)
    requires
        a < vals@.len(),
        b < vals@.len(),
        vals@.len() == comps@.len(),
    ensures
        r == ranks_before(vals@, comps@, band, a as int, b as int),
{
    let in_a = error_at_most(vals[a], band);
    let in_b = error_at_most(vals[b], band);
    if in_a != in_b {
        in_a
    } else if in_a && comps[a] != comps[b] {
        comps[a] < comps[b]
    } else {
        let oa = order_of(vals[a]);
        let ob = order_of(vals[b]);
        if oa != ob {
            oa < ob
        } else {
            a < b
        }
    }
}

/// Stage A's validation-ranked order of its fits: given each fit's held-out
/// error (bits), its complexity and the band `best * (1 + eps)`, the fits
/// in the order in which they are reported: those within the band first,
/// simplest first; then by held-out error; ties in the order given.
#[verifier::rlimit(40)]
pub fn band_order(vals: &[u64], comps: &[usize], band: u64) -> (r: Vec<usize>)
    requires
        vals@.len() == comps@.len(),
    ensures
        band_ordered(vals@, comps@, band, r@),
        forall|a: usize| a < vals@.len() ==> #[trigger] r@.contains(a),
{
    let ghost vs = vals@;
    let ghost cs = comps@;
    let mut r: Vec<usize> = Vec::new();
    let mut k: usize = 0;
    while k < vals.len()
        invariant
            vs == vals@,
            cs == comps@,
            vs.len() == cs.len(),
            k <= vs.len(),
            r@.len() == k,
            forall|i: int| 0 <= i < r@.len() ==> #[trigger] r@[i] < k,
            forall|a: usize| a < k ==> #[trigger] r@.contains(a),
            forall|i: int, j: int|
                0 <= i < j < r@.len() ==> ranks_before(vs, cs, band, #[trigger] r@[i] as int, #[trigger] r@[j] as int),
        decreases vs.len() - k,
    {
        let mut p: usize = 0;
        while p < r.len() && !ranks_before_exec(vals, comps, band, k, r[p])
            invariant
                vs == vals@,
                cs == comps@,
                vs.len() == cs.len(),
                k < vs.len(),
                p <= r@.len(),
                forall|i: int| 0 <= i < r@.len() ==> #[trigger] r@[i] < k,
                forall|i: int| 0 <= i < p ==> !ranks_before(vs, cs, band, k as int, #[trigger] r@[i] as int),
            decreases r@.len() - p,
        {
            p += 1;
        }
        let ghost old_r = r@;
        proof {
            assert forall|i: int| p <= i < old_r.len() implies ranks_before(vs, cs, band, k as int, #[trigger] old_r[i] as int) by {
                if i > p {
                    lemma_ranks_transitive(vs, cs, band, k as int, old_r[p as int] as int, old_r[i] as int);
                }
            }
            assert forall|i: int| 0 <= i < p implies ranks_before(vs, cs, band, #[trigger] old_r[i] as int, k as int) by {
                lemma_ranks_total(vs, cs, band, k as int, old_r[i] as int);
            }
        }
        r.insert(p, k);
        proof {
            assert forall|i: int, j: int|
                0 <= i < j < r@.len() implies ranks_before(vs, cs, band, #[trigger] r@[i] as int, #[trigger] r@[j] as int) by {
                if j < p {
                    assert(r@[i] == old_r[i] && r@[j] == old_r[j]);
                } else if j == p {
                    assert(r@[i] == old_r[i]);
                } else if i == p {
                    assert(r@[j] == old_r[j - 1]);
                } else if i < p {
                    assert(r@[i] == old_r[i] && r@[j] == old_r[j - 1]);
                } else {
                    assert(r@[i] == old_r[i - 1] && r@[j] == old_r[j - 1]);
                }
            }
            assert forall|a: usize| a < k + 1 implies #[trigger] r@.contains(a) by {
                if a == k {
                    assert(r@[p as int] == k);
                } else {
                    assert(old_r.contains(a));
                    let w = choose|w: int| 0 <= w < old_r.len() && old_r[w] == a;
                    if w < p {
                        assert(r@[w] == old_r[w]);
                    } else {
                        assert(r@[w + 1] == old_r[w]);
                    }
                }
            }
            assert forall|i: int| 0 <= i < r@.len() implies #[trigger] r@[i] < k + 1 by {
                if i < p {
                    assert(r@[i] == old_r[i]);
                } else if i > p {
                    assert(r@[i] == old_r[i - 1]);
                }
            }
        }
        k += 1;
    }
    r
}

} // verus!

verus! {

/// A negated fit is the un-negated one under `Neg`, whatever the transform:
/// for an all-negative target the inverse is taken of `|y|` and the sign is
/// put back outside it.
pub proof fn law_invert_negate(names: Seq<Seq<char>>, t: Transform, m: ExprView)
    ensures
        spec_invert(names, t, m, true) == spec_unary(names, "Neg"@, spec_invert(names, t, m, false)),
{
}

} // verus!
