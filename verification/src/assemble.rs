//! Expression trees of fitted closed forms: powers of a base, monomials,
//! dictionary terms, their sums, and the affine wrap `a*f + b` of a fitted
//! structure.
//!
//! Each builder is stated over expression values: what it returns is given
//! by a spec function of the registry's names and of the numbers' bit
//! patterns and texts.

use vstd::prelude::*;

use crate::builder::{binary, canonical, num, spec_binary, spec_num, spec_unary, spec_var, unary, var};
use crate::expression::{copy_reals, ExprView, Expression, Real};
use crate::feature::{feature_ready, feature_vars, spec_feature, Monomial, Term};
use crate::realbits::{
    abs, abs_bits, abs_text, above_zero, below_zero, is_minus_unit_coeff, is_nan, is_near_four,
    is_near_half, is_near_minus_one, is_near_one, is_near_three, is_near_three_halves,
    is_near_two, is_negative, is_positive, is_unit_coeff, is_zero, minus_unit_coeff, nan_bits,
    near_four, near_half, near_minus_one, near_one, near_three, near_three_halves, near_two,
    unit_coeff, zero_bits,
};
use crate::registry::{has_name, OperatorRegistry};

verus! {

/// `base` raised to a non-negative exponent (pattern `b`, text `t`):
/// small exponents through Square, Cube, Sqrt, otherwise `Pow`.
pub open spec fn power_nonneg(names: Seq<Seq<char>>, base: ExprView, b: u64, t: Seq<char>) -> ExprView {
    if near_one(b) {
        base
    } else if near_two(b) {
        spec_unary(names, "Square"@, base)
    } else if near_three(b) {
        spec_unary(names, "Cube"@, base)
    } else if near_four(b) {
        spec_unary(names, "Square"@, spec_unary(names, "Square"@, base))
    } else if near_half(b) {
        spec_unary(names, "Sqrt"@, base)
    } else if near_three_halves(b) {
        spec_unary(names, "Sqrt"@, spec_unary(names, "Cube"@, base))
    } else {
        spec_binary(names, "Pow"@, base, spec_num(b, t))
    }
}

/// `base` raised to the exponent (pattern `b`, text `t`); a negative
/// exponent inverts the power of its magnitude.
pub open spec fn spec_power(names: Seq<Seq<char>>, base: ExprView, b: u64, t: Seq<char>) -> ExprView {
    if below_zero(b) {
        spec_unary(names, "Inv"@, power_nonneg(names, base, abs_bits(b), abs_text(t)))
    } else {
        power_nonneg(names, base, b, t)
    }
}

/// The operators a non-negative power is written with are registered.
pub open spec fn power_nonneg_ready(names: Seq<Seq<char>>, b: u64) -> bool {
    if near_one(b) {
        true
    } else if near_two(b) {
        has_name(names, "Square"@)
    } else if near_three(b) {
        has_name(names, "Cube"@)
    } else if near_four(b) {
        has_name(names, "Square"@)
    } else if near_half(b) {
        has_name(names, "Sqrt"@)
    } else if near_three_halves(b) {
        has_name(names, "Sqrt"@) && has_name(names, "Cube"@)
    } else {
        has_name(names, "Pow"@)
    }
}

/// The operators a power is written with are registered.
pub open spec fn power_ready(names: Seq<Seq<char>>, b: u64) -> bool {
    if below_zero(b) {
        has_name(names, "Inv"@) && power_nonneg_ready(names, abs_bits(b))
    } else {
        power_nonneg_ready(names, b)
    }
}

fn raise_nonneg(base: Expression, exponent: Real, reg: &OperatorRegistry) -> (e: Expression)
    requires
        power_nonneg_ready(reg.names(), exponent.bits),
    ensures
        e@ == power_nonneg(reg.names(), base@, exponent.bits, exponent.text@),
        e.param_count == base.param_count,
        canonical(base, reg.names()) ==> canonical(e, reg.names()),
{
    if is_near_one(&exponent) {
        base
    } else if is_near_two(&exponent) {
        unary("Square", base, reg)
    } else if is_near_three(&exponent) {
        unary("Cube", base, reg)
    } else if is_near_four(&exponent) {
        unary("Square", unary("Square", base, reg), reg)
    } else if is_near_half(&exponent) {
        unary("Sqrt", base, reg)
    } else if is_near_three_halves(&exponent) {
        unary("Sqrt", unary("Cube", base, reg), reg)
    } else {
        let n = num(exponent);
        assert(canonical(n, reg.names()));
        binary("Pow", base, n, reg)
    }
}

/// Builds `base^exponent` economically from Square, Cube, Sqrt, Inv and
/// Pow: exponents within `1e-12` of 1, 2, 3, 4, 1/2 and 3/2 take the short
/// forms, a negative exponent wraps the power of its magnitude in `Inv`.
pub fn power(base: Expression, exponent: Real, reg: &OperatorRegistry) -> (e: Expression)
    requires
        power_ready(reg.names(), exponent.bits),
    ensures
        e@ == spec_power(reg.names(), base@, exponent.bits, exponent.text@),
        e.param_count == base.param_count,
        canonical(base, reg.names()) ==> canonical(e, reg.names()),
{
    if is_negative(&exponent) {
        let m = abs(&exponent);
        unary("Inv", raise_nonneg(base, m, reg), reg)
    } else {
        raise_nonneg(base, exponent, reg)
    }
}

/// Numbers as (pattern, text) values.
pub open spec fn real_views(s: Seq<Real>) -> Seq<(u64, Seq<char>)> {
    s.map_values(|r: Real| (r.bits, r.text@))
}

/// The factor `v_i^|e|` of a monomial.
pub open spec fn factor_of(names: Seq<Seq<char>>, i: nat, e: (u64, Seq<char>)) -> ExprView {
    power_nonneg(names, spec_var(i), abs_bits(e.0), abs_text(e.1))
}

/// The factors of the variables with a positive exponent (`upper`) or with
/// a negative or NaN exponent (not `upper`), in variable order.
pub open spec fn factors(names: Seq<Seq<char>>, es: Seq<(u64, Seq<char>)>, upper: bool) -> Seq<
    ExprView,
>
    decreases es.len(),
{
    if es.len() == 0 {
        Seq::empty()
    } else {
        let prev = factors(names, es.drop_last(), upper);
        let e = es.last();
        if !zero_bits(e.0) && above_zero(e.0) == upper {
            prev.push(factor_of(names, (es.len() - 1) as nat, e))
        } else {
            prev
        }
    }
}

/// The left-nested chain `op(op(f0, f1), f2)...` of a non-empty list.
pub open spec fn chain(names: Seq<Seq<char>>, op: Seq<char>, fs: Seq<ExprView>) -> ExprView
    decreases fs.len(),
{
    if fs.len() <= 1 {
        fs[0]
    } else {
        spec_binary(names, op, chain(names, op, fs.drop_last()), fs.last())
    }
}

/// The expression of the monomial `coeff * prod v_i^{e_i}`: numerator over
/// denominator (or `Inv` of the denominator), scaled by the coefficient
/// unless it is within `1e-15` of 1 (negated when within `1e-15` of -1);
/// the bare coefficient when no exponent is non-zero.
pub open spec fn spec_monomial(
    names: Seq<Seq<char>>,
    coeff: (u64, Seq<char>),
    es: Seq<(u64, Seq<char>)>,
) -> ExprView {
    let n = factors(names, es, true);
    let d = factors(names, es, false);
    if n.len() == 0 && d.len() == 0 {
        spec_num(coeff.0, coeff.1)
    } else {
        let body = if n.len() > 0 && d.len() > 0 {
            spec_binary(names, "Divide"@, chain(names, "Times"@, n), chain(names, "Times"@, d))
        } else if n.len() > 0 {
            chain(names, "Times"@, n)
        } else {
            spec_unary(names, "Inv"@, chain(names, "Times"@, d))
        };
        if minus_unit_coeff(coeff.0) {
            spec_unary(names, "Neg"@, body)
        } else if unit_coeff(coeff.0) {
            body
        } else {
            spec_binary(names, "Times"@, spec_num(coeff.0, coeff.1), body)
        }
    }
}

/// The operators the monomial is written with are registered, and it has
/// at most 255 variables.
pub open spec fn monomial_ready(
    names: Seq<Seq<char>>,
    coeff: (u64, Seq<char>),
    es: Seq<(u64, Seq<char>)>,
) -> bool {
    let n = factors(names, es, true);
    let d = factors(names, es, false);
    &&& es.len() <= 255
    &&& forall|i: int|
        0 <= i < es.len() && !zero_bits(#[trigger] es[i].0) ==> power_nonneg_ready(
            names,
            abs_bits(es[i].0),
        )
    &&& (n.len() >= 2 || d.len() >= 2) ==> has_name(names, "Times"@)
    &&& (n.len() > 0 && d.len() > 0) ==> has_name(names, "Divide"@)
    &&& (n.len() == 0 && d.len() > 0) ==> has_name(names, "Inv"@)
    &&& (n.len() > 0 || d.len() > 0) && minus_unit_coeff(coeff.0) ==> has_name(names, "Neg"@)
    &&& (n.len() > 0 || d.len() > 0) && !minus_unit_coeff(coeff.0) && !unit_coeff(coeff.0)
        ==> has_name(names, "Times"@)
}

/// `acc` extended by `factor` through `Times`.
fn times_onto(acc: Option<Expression>, factor: Expression, reg: &OperatorRegistry) -> (r: Option<
    Expression,
>)
    requires
        acc is Some ==> has_name(reg.names(), "Times"@) && acc->0.param_count == 0 && canonical(
            acc->0,
            reg.names(),
        ),
        factor.param_count == 0,
        canonical(factor, reg.names()),
    ensures
        r is Some,
        r->0.param_count == 0,
        canonical(r->0, reg.names()),
        r->0@ == match acc {
            Some(a) => spec_binary(reg.names(), "Times"@, a@, factor@),
            None => factor@,
        },
{
    match acc {
        None => Some(factor),
        Some(prev) => Some(binary("Times", prev, factor, reg)),
    }
}

proof fn lemma_chain_push(names: Seq<Seq<char>>, op: Seq<char>, fs: Seq<ExprView>, x: ExprView)
    requires
        fs.len() > 0,
    ensures
        chain(names, op, fs.push(x)) == spec_binary(names, op, chain(names, op, fs), x),
{
    assert(fs.push(x).drop_last() =~= fs);
}

proof fn lemma_factors_monotone(names: Seq<Seq<char>>, es: Seq<(u64, Seq<char>)>, k: int, upper: bool)
    requires
        0 <= k <= es.len(),
    ensures
        factors(names, es.take(k), upper).len() <= factors(names, es, upper).len(),
    decreases es.len() - k,
{
    if k < es.len() {
        lemma_factors_monotone(names, es, k + 1, upper);
        let t = es.take(k + 1);
        assert(t.drop_last() =~= es.take(k));
    } else {
        assert(es.take(k) =~= es);
    }
}

impl Monomial {
    /// Builds the expression tree of this monomial.
    #[verifier::spinoff_prover]
    #[verifier::rlimit(30)]
    pub fn to_expression(&self, reg: &OperatorRegistry) -> (e: Expression)
        requires
            monomial_ready(reg.names(), (self.coeff.bits, self.coeff.text@), real_views(self.exponents@)),
        ensures
            e@ == spec_monomial(
                reg.names(),
                (self.coeff.bits, self.coeff.text@),
                real_views(self.exponents@),
            ),
            e.param_count == 0,
            canonical(e, reg.names()),
    {
        let ghost names = reg.names();
        let ghost es = real_views(self.exponents@);
        let mut numer: Option<Expression> = None;
        let mut denom: Option<Expression> = None;
        let mut i: usize = 0;
        while i < self.exponents.len()
            invariant
                names == reg.names(),
                es == real_views(self.exponents@),
                monomial_ready(names, (self.coeff.bits, self.coeff.text@), es),
                i <= es.len(),
                match numer {
                    None => factors(names, es.take(i as int), true).len() == 0,
                    Some(x) => factors(names, es.take(i as int), true).len() > 0 && x@ == chain(
                        names,
                        "Times"@,
                        factors(names, es.take(i as int), true),
                    ) && x.param_count == 0 && canonical(x, names),
                },
                match denom {
                    None => factors(names, es.take(i as int), false).len() == 0,
                    Some(x) => factors(names, es.take(i as int), false).len() > 0 && x@ == chain(
                        names,
                        "Times"@,
                        factors(names, es.take(i as int), false),
                    ) && x.param_count == 0 && canonical(x, names),
                },
            decreases es.len() - i,
        {
            let e = &self.exponents[i];
            let ghost t = es.take(i + 1);
            proof {
                assert(t.drop_last() =~= es.take(i as int));
                assert(t.last() == es[i as int]);
                assert(es[i as int] == (e.bits, e.text@));
            }
            if !is_zero(e) {
                proof {
                    assert(!zero_bits(es[i as int].0));
                    lemma_factors_monotone(names, es, i + 1, true);
                    lemma_factors_monotone(names, es, i + 1, false);
                }
                let v = var(i);
                assert(canonical(v, names));
                let m = abs(e);
                let factor = raise_nonneg(v, m, reg);
                if is_positive(e) {
                    proof {
                        if numer is Some {
                            lemma_chain_push(names, "Times"@, factors(names, es.take(i as int), true), factor@);
                        }
                    }
                    numer = times_onto(numer, factor, reg);
                } else {
                    proof {
                        if denom is Some {
                            lemma_chain_push(names, "Times"@, factors(names, es.take(i as int), false), factor@);
                        }
                    }
                    denom = times_onto(denom, factor, reg);
                }
            }
            i += 1;
        }
        assert(es.take(es.len() as int) =~= es);
        let coeff_is_one = is_unit_coeff(&self.coeff);
        let coeff_is_neg_one = is_minus_unit_coeff(&self.coeff);
        let body = match (numer, denom) {
            (Some(n), Some(d)) => binary("Divide", n, d, reg),
            (Some(n), None) => n,
            (None, Some(d)) => unary("Inv", d, reg),
            (None, None) => {
                let c = num(self.coeff.duplicate());
                assert(canonical(c, names));
                return c;
            },
        };
        if coeff_is_neg_one {
            unary("Neg", body, reg)
        } else if !coeff_is_one {
            let c = num(self.coeff.duplicate());
            assert(canonical(c, names));
            binary("Times", c, body, reg)
        } else {
            body
        }
    }
}

/// Every exponent is zero.
pub open spec fn all_zero(es: Seq<(u64, Seq<char>)>) -> bool {
    forall|i: int| 0 <= i < es.len() ==> zero_bits(#[trigger] es[i].0)
}

/// The expression of the term `coeff * prod v_i^{e_i} * feature`: the
/// monomial alone without a feature; the feature alone, or scaled by the
/// coefficient, when every exponent is zero; otherwise monomial times
/// feature.
pub open spec fn spec_term(
    names: Seq<Seq<char>>,
    coeff: (u64, Seq<char>),
    es: Seq<(u64, Seq<char>)>,
    f: crate::feature::Feature,
) -> ExprView {
    match spec_feature(names, f) {
        None => spec_monomial(names, coeff, es),
        Some(feat) => if all_zero(es) && unit_coeff(coeff.0) {
            feat
        } else if all_zero(es) {
            spec_binary(names, "Times"@, spec_num(coeff.0, coeff.1), feat)
        } else {
            spec_binary(names, "Times"@, spec_monomial(names, coeff, es), feat)
        },
    }
}

/// The operators the term is written with are registered and its variables
/// are below 255.
pub open spec fn term_ready(
    names: Seq<Seq<char>>,
    coeff: (u64, Seq<char>),
    es: Seq<(u64, Seq<char>)>,
    f: crate::feature::Feature,
) -> bool {
    &&& feature_ready(names, f)
    &&& forall|k: int| 0 <= k < feature_vars(f).len() ==> #[trigger] feature_vars(f)[k] < 255
    &&& match spec_feature(names, f) {
        None => monomial_ready(names, coeff, es),
        Some(_) => if all_zero(es) {
            unit_coeff(coeff.0) || has_name(names, "Times"@)
        } else {
            monomial_ready(names, coeff, es) && has_name(names, "Times"@)
        },
    }
}

/// The value of a term's expression.
pub open spec fn term_view(names: Seq<Seq<char>>, t: Term) -> ExprView {
    spec_term(names, (t.coeff.bits, t.coeff.text@), real_views(t.exponents@), t.feature)
}

/// A term's expression can be built.
pub open spec fn term_is_ready(names: Seq<Seq<char>>, t: Term) -> bool {
    term_ready(names, (t.coeff.bits, t.coeff.text@), real_views(t.exponents@), t.feature)
}

/// The value of a monomial's expression.
pub open spec fn monomial_view(names: Seq<Seq<char>>, m: Monomial) -> ExprView {
    spec_monomial(names, (m.coeff.bits, m.coeff.text@), real_views(m.exponents@))
}

/// A monomial's expression can be built.
pub open spec fn monomial_is_ready(names: Seq<Seq<char>>, m: Monomial) -> bool {
    monomial_ready(names, (m.coeff.bits, m.coeff.text@), real_views(m.exponents@))
}

/// Every exponent of the list is zero.
fn exponents_all_zero(es: &Vec<Real>) -> (r: bool)
    ensures
        r == all_zero(real_views(es@)),
{
    let mut i: usize = 0;
    while i < es.len()
        invariant
            i <= es@.len(),
            forall|k: int| 0 <= k < i ==> zero_bits(#[trigger] es@[k].bits),
        decreases es@.len() - i,
    {
        if !is_zero(&es[i]) {
            assert(real_views(es@)[i as int].0 == es@[i as int].bits);
            return false;
        }
        i += 1;
    }
    assert forall|k: int| 0 <= k < real_views(es@).len() implies zero_bits(#[trigger] real_views(es@)[k].0) by {
        assert(real_views(es@)[k].0 == es@[k].bits);
    }
    true
}

impl Term {
    /// Builds the expression tree of this term.
    #[verifier::spinoff_prover]
    #[verifier::rlimit(30)]
    pub fn to_expression(&self, reg: &OperatorRegistry) -> (e: Expression)
        requires
            term_is_ready(reg.names(), *self),
        ensures
            e@ == term_view(reg.names(), *self),
            e.param_count == 0,
            canonical(e, reg.names()),
    {
        let ghost names = reg.names();
        let feature_expr = self.feature.to_expression(reg);
        let mono = Monomial { coeff: self.coeff.duplicate(), exponents: copy_reals(&self.exponents) };
        match feature_expr {
            None => mono.to_expression(reg),
            Some(feat) => {
                let coeff_is_one = is_unit_coeff(&self.coeff);
                let mono_is_const = exponents_all_zero(&self.exponents);
                if mono_is_const && coeff_is_one {
                    feat
                } else if mono_is_const {
                    let c = num(self.coeff.duplicate());
                    assert(canonical(c, names));
                    binary("Times", c, feat, reg)
                } else {
                    binary("Times", mono.to_expression(reg), feat, reg)
                }
            },
        }
    }
}

/// Sums a non-empty list of terms into one expression tree, left to right.
#[verifier::spinoff_prover]
#[verifier::rlimit(40)]
pub fn term_sum_expression(terms: &[Term], reg: &OperatorRegistry) -> (e: Expression)
    requires
        terms@.len() > 0,
        forall|k: int| 0 <= k < terms@.len() ==> term_is_ready(reg.names(), #[trigger] terms@[k]),
        terms@.len() >= 2 ==> has_name(reg.names(), "Plus"@),
    ensures
        e@ == chain(
            reg.names(),
            "Plus"@,
            terms@.map_values(|t: Term| term_view(reg.names(), t)),
        ),
        canonical(e, reg.names()),
{
    let ghost names = reg.names();
    let ghost vs = terms@.map_values(|t: Term| term_view(names, t));
    let mut acc = terms[0].to_expression(reg);
    let mut i: usize = 1;
    proof {
        assert(vs.take(1) =~= seq![vs[0]]);
    }
    while i < terms.len()
        invariant
            names == reg.names(),
            vs == terms@.map_values(|t: Term| term_view(names, t)),
            forall|k: int| 0 <= k < terms@.len() ==> term_is_ready(names, #[trigger] terms@[k]),
            terms@.len() >= 2 ==> has_name(names, "Plus"@),
            1 <= i <= terms@.len(),
            acc@ == chain(names, "Plus"@, vs.take(i as int)),
            acc.param_count == 0,
            canonical(acc, names),
        decreases terms@.len() - i,
    {
        let next = terms[i].to_expression(reg);
        proof {
            lemma_chain_push(names, "Plus"@, vs.take(i as int), next@);
            assert(vs.take(i + 1) =~= vs.take(i as int).push(next@));
        }
        acc = binary("Plus", acc, next, reg);
        i += 1;
    }
    assert(vs.take(vs.len() as int) =~= vs);
    acc
}

/// Sums a non-empty list of monomials into one expression tree, left to
/// right.
#[verifier::spinoff_prover]
#[verifier::rlimit(40)]
pub fn monomial_sum_expression(terms: &[Monomial], reg: &OperatorRegistry) -> (e: Expression)
    requires
        terms@.len() > 0,
        forall|k: int| 0 <= k < terms@.len() ==> monomial_is_ready(reg.names(), #[trigger] terms@[k]),
        terms@.len() >= 2 ==> has_name(reg.names(), "Plus"@),
    ensures
        e@ == chain(
            reg.names(),
            "Plus"@,
            terms@.map_values(|m: Monomial| monomial_view(reg.names(), m)),
        ),
        canonical(e, reg.names()),
{
    let ghost names = reg.names();
    let ghost vs = terms@.map_values(|m: Monomial| monomial_view(names, m));
    let mut acc = terms[0].to_expression(reg);
    let mut i: usize = 1;
    proof {
        assert(vs.take(1) =~= seq![vs[0]]);
    }
    while i < terms.len()
        invariant
            names == reg.names(),
            vs == terms@.map_values(|m: Monomial| monomial_view(names, m)),
            forall|k: int| 0 <= k < terms@.len() ==> monomial_is_ready(names, #[trigger] terms@[k]),
            terms@.len() >= 2 ==> has_name(names, "Plus"@),
            1 <= i <= terms@.len(),
            acc@ == chain(names, "Plus"@, vs.take(i as int)),
            acc.param_count == 0,
            canonical(acc, names),
        decreases terms@.len() - i,
    {
        let next = terms[i].to_expression(reg);
        proof {
            lemma_chain_push(names, "Plus"@, vs.take(i as int), next@);
            assert(vs.take(i + 1) =~= vs.take(i as int).push(next@));
        }
        acc = binary("Plus", acc, next, reg);
        i += 1;
    }
    assert(vs.take(vs.len() as int) =~= vs);
    acc
}

/// `f` under the affine map `a*f + b`: scaled unless `|a - 1| > 1e-12`
/// fails (negated when `|a + 1| <= 1e-12`), and offset by `b` when an
/// offset is given.
pub open spec fn spec_affine_wrap(
    names: Seq<Seq<char>>,
    f: ExprView,
    a: (u64, Seq<char>),
    offset: Option<(u64, Seq<char>)>,
) -> ExprView {
    let scaled = if !nan_bits(a.0) && !near_one(a.0) {
        if near_minus_one(a.0) {
            spec_unary(names, "Neg"@, f)
        } else {
            spec_binary(names, "Times"@, spec_num(a.0, a.1), f)
        }
    } else {
        f
    };
    match offset {
        Some(b) => spec_binary(names, "Plus"@, scaled, spec_num(b.0, b.1)),
        None => scaled,
    }
}

/// Wraps a fitted structure `f` with the affine map `a*f + b`, omitting a
/// trivial scale (`a` within `1e-12` of 1, or NaN); `offset` is `b` when
/// it is significant and `None` when it is to be omitted.
pub fn affine_wrap(f: Expression, a: &Real, offset: Option<Real>, reg: &OperatorRegistry) -> (e:
    Expression)
    requires
        !nan_bits(a.bits) && !near_one(a.bits) && near_minus_one(a.bits) ==> has_name(
            reg.names(),
            "Neg"@,
        ),
        !nan_bits(a.bits) && !near_one(a.bits) && !near_minus_one(a.bits) ==> has_name(
            reg.names(),
            "Times"@,
        ),
        offset is Some ==> has_name(reg.names(), "Plus"@),
    ensures
        e@ == spec_affine_wrap(
            reg.names(),
            f@,
            (a.bits, a.text@),
            match offset {
                Some(b) => Some((b.bits, b.text@)),
                None => None,
            },
        ),
        canonical(f, reg.names()) ==> canonical(e, reg.names()),
{
    let ghost names = reg.names();
    let mut expr = f;
    if !is_nan(a) && !is_near_one(a) {
        expr = if is_near_minus_one(a) {
            unary("Neg", expr, reg)
        } else {
            let c = num(a.duplicate());
            assert(canonical(c, names));
            binary("Times", c, expr, reg)
        };
    }
    match offset {
        Some(b) => {
            let n = num(b);
            assert(canonical(n, names));
            binary("Plus", expr, n, reg)
        },
        None => expr,
    }
}

} // verus!

verus! {

/// The offset is added outside the scaled structure and does not change
/// it: `a*f + b` is `Plus(a*f, b)` with `a*f` built as with no offset.
pub proof fn law_affine_wrap_offset(names: Seq<Seq<char>>, f: ExprView, a: (u64, Seq<char>), b: (u64, Seq<char>))
    ensures
        spec_affine_wrap(names, f, a, Some(b)) == spec_binary(
            names,
            "Plus"@,
            spec_affine_wrap(names, f, a, None),
            spec_num(b.0, b.1),
        ),
{
}

/// A scale of `-1` negates the structure; a scale of `1` leaves it as it
/// is; any other (non-NaN) scale multiplies it.
pub proof fn law_affine_wrap_scale(names: Seq<Seq<char>>, f: ExprView, a: (u64, Seq<char>))
    ensures
        near_minus_one(a.0) ==> spec_affine_wrap(names, f, a, None) == spec_unary(names, "Neg"@, f),
        near_one(a.0) ==> spec_affine_wrap(names, f, a, None) == f,
        !nan_bits(a.0) && !near_one(a.0) && !near_minus_one(a.0) ==> spec_affine_wrap(names, f, a, None)
            == spec_binary(names, "Times"@, spec_num(a.0, a.1), f),
{
    let x = a.0;
    assert(near_minus_one(x) ==> !near_one(x) && !nan_bits(x)) by (bit_vector);
}

} // verus!
