//! Dictionary terms of the closed-form stage: monomials, multiplicative
//! feature factors, and their expression trees.

use vstd::prelude::*;

use crate::builder::{
    binary, canonical, num, spec_binary, spec_num, spec_unary, spec_var, unary, var,
};
use crate::expression::{real_two, two_bits, ExprView, Expression, Real};
use crate::registry::{has_name, OperatorRegistry};

verus! {

/// A multiplicative non-monomial factor attached to a dictionary term.
///
/// These cover the factor shapes that dominate the physics formulas a pure
/// monomial dictionary cannot express: single-variable trig/log factors and
/// pairwise difference / product factors.
#[derive(Clone, Copy, Debug, PartialEq, Eq, Structural)]
pub enum Feature {
    /// No factor (the term is a plain monomial).
    NoFactor,
    /// sin(x_i)
    Sin(usize),
    /// cos(x_i)
    Cos(usize),
    /// sin(2 x_i) — also covers sin·cos via the double-angle identity
    Sin2x(usize),
    /// cos(2 x_i) — also covers sin²/cos² via the double-angle identity
    Cos2x(usize),
    /// ln(x_i)
    Ln(usize),
    /// sigmoid(x_i) = 1/(1+e^{-x_i})
    Sigmoid(usize),
    /// tanh(x_i) — saturating factor with an OLS-fitted amplitude
    TanhVar(usize),
    /// sigmoid(x_i - x_j) — pairwise gate factor (e.g. z * sigmoid(x - y))
    SigmoidDiff(usize, usize),
    /// (x_i - x_j)^2
    DiffSq(usize, usize),
    /// |x_i - x_j|
    AbsDiff(usize, usize),
    /// cos(x_i - x_j)
    CosDiff(usize, usize),
    /// cos(x_i * x_j)
    CosProd(usize, usize),
    /// sin(x_i * x_j)
    SinProd(usize, usize),
    /// cos(2 x_i x_j) — covers cos²/sin² of a product via double angle
    Cos2Prod(usize, usize),
    /// sin(2 x_i x_j)
    Sin2Prod(usize, usize),
}

/// One multiplicative term `coeff * prod_i v_i^{exponents[i]}`.
#[derive(Clone, Debug)]
pub struct Monomial {
    pub coeff: Real,
    /// One exponent per input variable (0 = variable unused).
    pub exponents: Vec<Real>,
}

/// One dictionary term `coeff * prod_i v_i^{exponents[i]} * feature`.
#[derive(Clone, Debug)]
pub struct Term {
    pub coeff: Real,
    pub exponents: Vec<Real>,
    pub feature: Feature,
}

/// The variables a feature refers to.
pub open spec fn feature_vars(f: Feature) -> Seq<usize> {
    match f {
        Feature::NoFactor => Seq::empty(),
        Feature::Sin(i) | Feature::Cos(i) | Feature::Sin2x(i) | Feature::Cos2x(i) | Feature::Ln(i)
        | Feature::Sigmoid(i) | Feature::TanhVar(i) => seq![i],
        Feature::SigmoidDiff(i, j) | Feature::DiffSq(i, j) | Feature::AbsDiff(i, j)
        | Feature::CosDiff(i, j) | Feature::CosProd(i, j) | Feature::SinProd(i, j)
        | Feature::Cos2Prod(i, j) | Feature::Sin2Prod(i, j) => seq![i, j],
    }
}

/// The names the expression of feature `f` is written with.
pub open spec fn feature_ready(names: Seq<Seq<char>>, f: Feature) -> bool {
    match f {
        Feature::NoFactor => true,
        Feature::Sin(_) => has_name(names, "Sin"@),
        Feature::Cos(_) => has_name(names, "Cos"@),
        Feature::Sin2x(_) => has_name(names, "Sin"@) && has_name(names, "Times"@),
        Feature::Cos2x(_) => has_name(names, "Cos"@) && has_name(names, "Times"@),
        Feature::Ln(_) => has_name(names, "Log"@),
        Feature::Sigmoid(_) => has_name(names, "Sigmoid"@),
        Feature::TanhVar(_) => has_name(names, "Tanh"@),
        Feature::SigmoidDiff(_, _) => has_name(names, "Sigmoid"@) && has_name(names, "Subtract"@),
        Feature::DiffSq(_, _) => has_name(names, "Square"@) && has_name(names, "Subtract"@),
        Feature::AbsDiff(_, _) => has_name(names, "Abs"@) && has_name(names, "Subtract"@),
        Feature::CosDiff(_, _) => has_name(names, "Cos"@) && has_name(names, "Subtract"@),
        Feature::CosProd(_, _) => has_name(names, "Cos"@) && has_name(names, "Times"@),
        Feature::SinProd(_, _) => has_name(names, "Sin"@) && has_name(names, "Times"@),
        Feature::Cos2Prod(_, _) => has_name(names, "Cos"@) && has_name(names, "Times"@),
        Feature::Sin2Prod(_, _) => has_name(names, "Sin"@) && has_name(names, "Times"@),
    }
}

/// The factor expression of feature `f` (`None` for the empty feature).
pub open spec fn spec_feature(names: Seq<Seq<char>>, f: Feature) -> Option<ExprView> {
    let two = spec_num(two_bits(), seq!['2']);
    let diff = |i: usize, j: usize|
        spec_binary(names, "Subtract"@, spec_var(i as nat), spec_var(j as nat));
    let prod = |i: usize, j: usize|
        spec_binary(names, "Times"@, spec_var(i as nat), spec_var(j as nat));
    match f {
        Feature::NoFactor => None,
        Feature::Sin(i) => Some(spec_unary(names, "Sin"@, spec_var(i as nat))),
        Feature::Cos(i) => Some(spec_unary(names, "Cos"@, spec_var(i as nat))),
        Feature::Sin2x(i) => Some(
            spec_unary(names, "Sin"@, spec_binary(names, "Times"@, two, spec_var(i as nat))),
        ),
        Feature::Cos2x(i) => Some(
            spec_unary(names, "Cos"@, spec_binary(names, "Times"@, two, spec_var(i as nat))),
        ),
        Feature::Ln(i) => Some(spec_unary(names, "Log"@, spec_var(i as nat))),
        Feature::Sigmoid(i) => Some(spec_unary(names, "Sigmoid"@, spec_var(i as nat))),
        Feature::TanhVar(i) => Some(spec_unary(names, "Tanh"@, spec_var(i as nat))),
        Feature::SigmoidDiff(i, j) => Some(spec_unary(names, "Sigmoid"@, diff(i, j))),
        Feature::DiffSq(i, j) => Some(spec_unary(names, "Square"@, diff(i, j))),
        Feature::AbsDiff(i, j) => Some(spec_unary(names, "Abs"@, diff(i, j))),
        Feature::CosDiff(i, j) => Some(spec_unary(names, "Cos"@, diff(i, j))),
        Feature::CosProd(i, j) => Some(spec_unary(names, "Cos"@, prod(i, j))),
        Feature::SinProd(i, j) => Some(spec_unary(names, "Sin"@, prod(i, j))),
        Feature::Cos2Prod(i, j) => Some(
            spec_unary(names, "Cos"@, spec_binary(names, "Times"@, two, prod(i, j))),
        ),
        Feature::Sin2Prod(i, j) => Some(
            spec_unary(names, "Sin"@, spec_binary(names, "Times"@, two, prod(i, j))),
        ),
    }
}

impl Feature {
    /// Variables referenced by the feature (used to avoid overlapping the
    /// monomial part).
    pub fn vars(&self) -> (r: Vec<usize>)
        ensures
            r@ == feature_vars(*self),
    {
        let mut r: Vec<usize> = Vec::new();
        match *self {
            Feature::NoFactor => {},
            Feature::Sin(i) | Feature::Cos(i) | Feature::Sin2x(i) | Feature::Cos2x(i)
            | Feature::Ln(i) | Feature::Sigmoid(i) | Feature::TanhVar(i) => {
                r.push(i);
            },
            Feature::SigmoidDiff(i, j) | Feature::DiffSq(i, j) | Feature::AbsDiff(i, j)
            | Feature::CosDiff(i, j) | Feature::CosProd(i, j) | Feature::SinProd(i, j)
            | Feature::Cos2Prod(i, j) | Feature::Sin2Prod(i, j) => {
                r.push(i);
                r.push(j);
            },
        }
        assert(r@ =~= feature_vars(*self));
        r
    }

    /// Builds the expression tree for the feature factor.
    pub fn to_expression(&self, reg: &OperatorRegistry) -> (r: Option<Expression>)
        requires
            feature_ready(reg.names(), *self),
            forall|k: int| 0 <= k < feature_vars(*self).len() ==> #[trigger] feature_vars(*self)[k] < 255,
        ensures
            match (r, spec_feature(reg.names(), *self)) {
                (Some(e), Some(v)) => e@ == v && canonical(e, reg.names()),
                (None, None) => true,
                _ => false,
            },
    {
        let ghost names = reg.names();
        let f = *self;
        assert(forall|k: int| 0 <= k < feature_vars(f).len() ==> #[trigger] feature_vars(f)[k] < 255);
        match f {
            Feature::NoFactor => None,
            Feature::Sin(i) => {
                assert(feature_vars(f)[0] == i);
                Some(unary("Sin", var(i), reg))
            },
            Feature::Cos(i) => {
                assert(feature_vars(f)[0] == i);
                Some(unary("Cos", var(i), reg))
            },
            Feature::Sin2x(i) => {
                assert(feature_vars(f)[0] == i);
                let two = num(real_two());
                assert(canonical(two, names));
                Some(unary("Sin", binary("Times", two, var(i), reg), reg))
            },
            Feature::Cos2x(i) => {
                assert(feature_vars(f)[0] == i);
                let two = num(real_two());
                assert(canonical(two, names));
                Some(unary("Cos", binary("Times", two, var(i), reg), reg))
            },
            Feature::Ln(i) => {
                assert(feature_vars(f)[0] == i);
                Some(unary("Log", var(i), reg))
            },
            Feature::Sigmoid(i) => {
                assert(feature_vars(f)[0] == i);
                Some(unary("Sigmoid", var(i), reg))
            },
            Feature::TanhVar(i) => {
                assert(feature_vars(f)[0] == i);
                Some(unary("Tanh", var(i), reg))
            },
            Feature::SigmoidDiff(i, j) => {
                assert(feature_vars(f)[0] == i && feature_vars(f)[1] == j);
                Some(unary("Sigmoid", binary("Subtract", var(i), var(j), reg), reg))
            },
            Feature::DiffSq(i, j) => {
                assert(feature_vars(f)[0] == i && feature_vars(f)[1] == j);
                Some(unary("Square", binary("Subtract", var(i), var(j), reg), reg))
            },
            Feature::AbsDiff(i, j) => {
                assert(feature_vars(f)[0] == i && feature_vars(f)[1] == j);
                Some(unary("Abs", binary("Subtract", var(i), var(j), reg), reg))
            },
            Feature::CosDiff(i, j) => {
                assert(feature_vars(f)[0] == i && feature_vars(f)[1] == j);
                Some(unary("Cos", binary("Subtract", var(i), var(j), reg), reg))
            },
            Feature::CosProd(i, j) => {
                assert(feature_vars(f)[0] == i && feature_vars(f)[1] == j);
                Some(unary("Cos", binary("Times", var(i), var(j), reg), reg))
            },
            Feature::SinProd(i, j) => {
                assert(feature_vars(f)[0] == i && feature_vars(f)[1] == j);
                Some(unary("Sin", binary("Times", var(i), var(j), reg), reg))
            },
            Feature::Cos2Prod(i, j) => {
                assert(feature_vars(f)[0] == i && feature_vars(f)[1] == j);
                let two = num(real_two());
                assert(canonical(two, names));
                Some(
                    unary(
                        "Cos",
                        binary("Times", two, binary("Times", var(i), var(j), reg), reg),
                        reg,
                    ),
                )
            },
            Feature::Sin2Prod(i, j) => {
                assert(feature_vars(f)[0] == i && feature_vars(f)[1] == j);
                let two = num(real_two());
                assert(canonical(two, names));
                Some(
                    unary(
                        "Sin",
                        binary("Times", two, binary("Times", var(i), var(j), reg), reg),
                        reg,
                    ),
                )
            },
        }
    }
}

impl Term {
    /// The term `m * 1` (no feature factor).
    pub fn from_monomial(m: &Monomial) -> (r: Term)
        ensures
            r.coeff == m.coeff,
            r.exponents@ == m.exponents@,
            r.feature == Feature::NoFactor,
    {
        let mut exponents: Vec<Real> = Vec::new();
        let mut i: usize = 0;
        while i < m.exponents.len()
            invariant
                i <= m.exponents@.len(),
                exponents@ == m.exponents@.take(i as int),
            decreases m.exponents@.len() - i,
        {
            exponents.push(m.exponents[i].duplicate());
            i += 1;
            assert(exponents@ =~= m.exponents@.take(i as int));
        }
        assert(m.exponents@.take(m.exponents@.len() as int) =~= m.exponents@);
        Term { coeff: m.coeff.duplicate(), exponents, feature: Feature::NoFactor }
    }
}

} // verus!

verus! {

/// The single-variable factors of variable `i`.
pub open spec fn single_block(i: usize) -> Seq<Feature> {
    seq![
        Feature::Sin(i),
        Feature::Cos(i),
        Feature::Sin2x(i),
        Feature::Cos2x(i),
        Feature::Sigmoid(i),
        Feature::TanhVar(i),
    ]
}

/// The pairwise factors of variables `i` and `j` (the sigmoid gate in both
/// orientations).
pub open spec fn pair_block(i: usize, j: usize) -> Seq<Feature> {
    seq![
        Feature::DiffSq(i, j),
        Feature::AbsDiff(i, j),
        Feature::SigmoidDiff(i, j),
        Feature::SigmoidDiff(j, i),
        Feature::CosDiff(i, j),
        Feature::CosProd(i, j),
        Feature::SinProd(i, j),
        Feature::Cos2Prod(i, j),
        Feature::Sin2Prod(i, j),
    ]
}

/// Single-variable factors of every variable of `finite`, in order.
pub open spec fn singles(finite: Seq<usize>) -> Seq<Feature>
    decreases finite.len(),
{
    if finite.len() == 0 {
        Seq::empty()
    } else {
        singles(finite.drop_last()) + single_block(finite.last())
    }
}

/// `ln(x_i)` for every variable of `positive`, in order.
pub open spec fn logs(positive: Seq<usize>) -> Seq<Feature>
    decreases positive.len(),
{
    if positive.len() == 0 {
        Seq::empty()
    } else {
        logs(positive.drop_last()).push(Feature::Ln(positive.last()))
    }
}

/// Pair factors of `finite[a]` with `finite[b]` for `a < b < b_hi`.
pub open spec fn pair_row(finite: Seq<usize>, a: int, b_hi: int) -> Seq<Feature>
    decreases b_hi - a,
{
    if b_hi <= a + 1 || b_hi > finite.len() {
        Seq::empty()
    } else {
        pair_row(finite, a, b_hi - 1) + pair_block(finite[a], finite[b_hi - 1])
    }
}

/// Pair factors of every pair `a < b` with `a < a_hi`.
pub open spec fn pairs(finite: Seq<usize>, a_hi: int) -> Seq<Feature>
    decreases a_hi,
{
    if a_hi <= 0 || a_hi > finite.len() {
        Seq::empty()
    } else {
        pairs(finite, a_hi - 1) + pair_row(finite, a_hi - 1, finite.len() as int)
    }
}

/// The single-variable factors: trig/sigmoid/tanh factors of every finite
/// variable, then ln of every positive variable.
pub fn single_variable_features(positive: &[usize], finite: &[usize]) -> (r: Vec<Feature>)
    ensures
        r@ == singles(finite@) + logs(positive@),
{
    let mut r: Vec<Feature> = Vec::new();
    let mut k: usize = 0;
    while k < finite.len()
        invariant
            k <= finite@.len(),
            r@ == singles(finite@.take(k as int)),
        decreases finite@.len() - k,
    {
        let i = finite[k];
        r.push(Feature::Sin(i));
        r.push(Feature::Cos(i));
        r.push(Feature::Sin2x(i));
        r.push(Feature::Cos2x(i));
        r.push(Feature::Sigmoid(i));
        r.push(Feature::TanhVar(i));
        proof {
            let t = finite@.take(k + 1);
            assert(t.drop_last() =~= finite@.take(k as int));
            assert(t.last() == i);
        }
        k += 1;
        assert(r@ =~= singles(finite@.take(k as int)));
    }
    assert(finite@.take(finite@.len() as int) =~= finite@);
    let ghost s1 = r@;
    let mut p: usize = 0;
    while p < positive.len()
        invariant
            p <= positive@.len(),
            s1 == singles(finite@),
            r@ == s1 + logs(positive@.take(p as int)),
        decreases positive@.len() - p,
    {
        r.push(Feature::Ln(positive[p]));
        proof {
            let t = positive@.take(p + 1);
            assert(t.drop_last() =~= positive@.take(p as int));
        }
        p += 1;
        assert(r@ =~= s1 + logs(positive@.take(p as int)));
    }
    assert(positive@.take(positive@.len() as int) =~= positive@);
    r
}

/// The candidate factors of the feature dictionary: trig/sigmoid/tanh
/// factors of every finite variable, ln of every positive variable, and the
/// pairwise difference/product factors of every pair of finite variables.
pub fn feature_candidates(positive: &[usize], finite: &[usize]) -> (r: Vec<Feature>)
    ensures
        r@ == singles(finite@) + logs(positive@) + pairs(finite@, finite@.len() as int),
{
    let mut r = single_variable_features(positive, finite);
    let ghost s2 = r@;
    let n = finite.len();
    let mut a: usize = 0;
    while a < n
        invariant
            n == finite@.len(),
            a <= n,
            s2 == singles(finite@) + logs(positive@),
            r@ == s2 + pairs(finite@, a as int),
        decreases n - a,
    {
        let ghost row_start = r@;
        let mut b: usize = a + 1;
        while b < n
            invariant
                n == finite@.len(),
                a < n,
                a + 1 <= b <= n,
                r@ == row_start + pair_row(finite@, a as int, b as int),
            decreases n - b,
        {
            let i = finite[a];
            let j = finite[b];
            r.push(Feature::DiffSq(i, j));
            r.push(Feature::AbsDiff(i, j));
            r.push(Feature::SigmoidDiff(i, j));
            r.push(Feature::SigmoidDiff(j, i));
            r.push(Feature::CosDiff(i, j));
            r.push(Feature::CosProd(i, j));
            r.push(Feature::SinProd(i, j));
            r.push(Feature::Cos2Prod(i, j));
            r.push(Feature::Sin2Prod(i, j));
            b += 1;
            assert(r@ =~= row_start + pair_row(finite@, a as int, b as int));
        }
        a += 1;
        assert(r@ =~= s2 + pairs(finite@, a as int));
    }
    r
}

} // verus!
