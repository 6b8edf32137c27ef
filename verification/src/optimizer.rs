//! Parameter templates: where an expression's tunable constants sit, and
//! how to write new values into them.

use vstd::prelude::*;

use crate::expression::{copy_nodes, is_param, real_of, real_value, Expression, Node, Real};

verus! {

/// A structural template for numerical optimization of expression constants.
pub struct Template {
    pub expression: Expression,
    pub param_indices: Vec<usize>,
}

/// Positions of the parameter nodes of `s`, in node order.
pub open spec fn param_positions(s: Seq<Node>) -> Seq<usize>
    decreases s.len(),
{
    if s.len() == 0 {
        Seq::empty()
    } else if is_param(s.last()) {
        param_positions(s.drop_last()).push((s.len() - 1) as usize)
    } else {
        param_positions(s.drop_last())
    }
}

/// Current values (real parts) of the parameter nodes of `s`, in node order.
pub open spec fn param_values(s: Seq<Node>) -> Seq<Real>
    decreases s.len(),
{
    if s.len() == 0 {
        Seq::empty()
    } else if is_param(s.last()) {
        param_values(s.drop_last()).push(s.last()->initial_value.re)
    } else {
        param_values(s.drop_last())
    }
}

/// `new` is parameter `old` holding the real value `v`.
pub open spec fn holds_value(old: Node, new: Node, v: Real) -> bool {
    &&& old is Param
    &&& new == (Node::Param { id: old->id, initial_value: real_of(v) })
}

/// `new` is `old` with the parameters at positions `idx[0..vals.len()]` set
/// to `vals` and every other node unchanged.
pub open spec fn instantiated(old: Seq<Node>, idx: Seq<usize>, vals: Seq<Real>, new: Seq<Node>) -> bool {
    &&& new.len() == old.len()
    &&& forall|k: int|
        0 <= k < vals.len() ==> holds_value(old[#[trigger] idx[k] as int], new[idx[k] as int], vals[k])
    &&& forall|j: int|
        0 <= j < new.len() && !(exists|k: int| 0 <= k < vals.len() && #[trigger] idx[k] == j) ==> new[j]
            == old[j]
}

/// Every parameter of `s` is a real number (zero imaginary part).
pub open spec fn params_real(s: Seq<Node>) -> bool {
    forall|i: int| 0 <= i < s.len() && #[trigger] is_param(s[i]) ==> s[i]->initial_value.im_bits == 0
}

/// Parameter positions and values line up, and cover every parameter.
pub proof fn lemma_param_positions(s: Seq<Node>)
    requires
        s.len() <= usize::MAX,
    ensures
        param_positions(s).len() == param_values(s).len(),
        forall|k: int|
            0 <= k < param_positions(s).len() ==> #[trigger] param_positions(s)[k] < s.len() && is_param(
                s[param_positions(s)[k] as int],
            ) && s[param_positions(s)[k] as int]->initial_value.re == param_values(s)[k],
        forall|j: int|
            0 <= j < s.len() && is_param(s[j]) ==> exists|k: int|
                0 <= k < param_positions(s).len() && #[trigger] param_positions(s)[k] == j,
    decreases s.len(),
{
    if s.len() > 0 {
        let p = s.drop_last();
        lemma_param_positions(p);
        assert forall|j: int| 0 <= j < s.len() && is_param(s[j]) implies exists|k: int|
            0 <= k < param_positions(s).len() && #[trigger] param_positions(s)[k] == j by {
            if j < p.len() {
                assert(s[j] == p[j]);
                let k = choose|k: int| 0 <= k < param_positions(p).len() && #[trigger] param_positions(p)[k] == j;
                assert(param_positions(s)[k] == j);
            } else {
                assert(s.last() == s[j]);
                assert(param_positions(s) == param_positions(p).push((s.len() - 1) as usize));
                assert(param_positions(s)[param_positions(p).len() as int] == j);
            }
        }
    }
}

/// Extracting a template and instantiating it with the extracted values
/// gives back the expression itself (parameters with real values are
/// reproduced exactly).
pub proof fn law_template_round_trip(s: Seq<Node>, new: Seq<Node>)
    requires
        s.len() <= usize::MAX,
        params_real(s),
        instantiated(s, param_positions(s), param_values(s), new),
    ensures
        new == s,
{
    lemma_param_positions(s);
    let idx = param_positions(s);
    let vals = param_values(s);
    assert forall|j: int| 0 <= j < s.len() implies new[j] == s[j] by {
        if exists|k: int| 0 <= k < vals.len() && #[trigger] idx[k] == j {
            let k = choose|k: int| 0 <= k < vals.len() && #[trigger] idx[k] == j;
            assert(holds_value(s[idx[k] as int], new[idx[k] as int], vals[k]));
            assert(is_param(s[j]));
        }
    }
    assert(new =~= s);
}

impl Template {
    /// The indices are increasing positions of parameter nodes.
    pub open spec fn wf(&self) -> bool {
        let s = self.expression.nodes@;
        let idx = self.param_indices@;
        &&& forall|k: int| 0 <= k < idx.len() ==> #[trigger] idx[k] < s.len() && is_param(
            s[idx[k] as int],
        )
        &&& forall|k: int, l: int| 0 <= k < l < idx.len() ==> idx[k] < idx[l]
    }

    /// Extracts parameter locations and initial values from an expression.
    pub fn from_expression(expr: &Expression) -> (r: (Template, Vec<Real>))
        ensures
            r.0.expression.nodes@ == expr.nodes@,
            r.0.expression.var_count == expr.var_count,
            r.0.expression.param_count == expr.param_count,
            r.0.expression.display@ == expr.display@,
            r.0.param_indices@ == param_positions(expr.nodes@),
            r.1@ == param_values(expr.nodes@),
            r.0.wf(),
    {
        let ghost s = expr.nodes@;
        let nodes = copy_nodes(expr.nodes.as_slice());
        let mut param_indices: Vec<usize> = Vec::new();
        let mut initial_values: Vec<Real> = Vec::new();
        let mut i: usize = 0;
        while i < nodes.len()
            invariant
                i <= s.len(),
                nodes@ == s,
                param_indices@ == param_positions(s.take(i as int)),
                initial_values@ == param_values(s.take(i as int)),
                forall|k: int|
                    0 <= k < param_indices@.len() ==> #[trigger] param_indices@[k] < i && is_param(
                        s[param_indices@[k] as int],
                    ),
                forall|k: int, l: int|
                    0 <= k < l < param_indices@.len() ==> param_indices@[k] < param_indices@[l],
            decreases s.len() - i,
        {
            assert(s.take(i + 1).drop_last() =~= s.take(i as int));
            assert(s.take(i + 1).last() == s[i as int]);
            if let Node::Param { initial_value, .. } = &nodes[i] {
                assert(is_param(s[i as int]));
                param_indices.push(i);
                initial_values.push(initial_value.re.duplicate());
            }
            i += 1;
        }
        assert(s.take(s.len() as int) =~= s);
        (
            Template {
                expression: Expression::new(
                    nodes,
                    expr.var_count(),
                    expr.param_count(),
                    expr.display.clone(),
                ),
                param_indices,
            },
            initial_values,
        )
    }

    /// The template's expression with the first `params.len()` parameters set
    /// to `params` (real values, zero imaginary part).
    pub fn instantiate(&self, params: &[Real]) -> (e: Expression)
        requires
            self.wf(),
            params@.len() <= self.param_indices@.len(),
        ensures
            instantiated(self.expression.nodes@, self.param_indices@, params@, e.nodes@),
            e.var_count == self.expression.var_count,
            e.param_count == self.expression.param_count,
            e.display@ == self.expression.display@,
    {
        let ghost s = self.expression.nodes@;
        let ghost idx = self.param_indices@;
        let mut nodes = copy_nodes(self.expression.nodes.as_slice());
        let mut i: usize = 0;
        while i < params.len()
            invariant
                self.wf(),
                s == self.expression.nodes@,
                idx == self.param_indices@,
                i <= params@.len(),
                params@.len() <= idx.len(),
                nodes@.len() == s.len(),
                forall|k: int|
                    0 <= k < i ==> holds_value(s[#[trigger] idx[k] as int], nodes@[idx[k] as int], params@[k]),
                forall|j: int|
                    0 <= j < s.len() && !(exists|k: int| 0 <= k < i && #[trigger] idx[k] == j)
                        ==> nodes@[j] == s[j],
            decreases params@.len() - i,
        {
            let node_idx = self.param_indices[i];
            assert(!(exists|k: int| 0 <= k < i && #[trigger] idx[k] == node_idx)) by {
                if exists|k: int| 0 <= k < i && #[trigger] idx[k] == node_idx {
                    let k = choose|k: int| 0 <= k < i && #[trigger] idx[k] == node_idx;
                    assert(idx[k] < idx[i as int]);
                }
            }
            let replacement = match &nodes[node_idx] {
                Node::Param { id, .. } => Some(
                    Node::Param { id: *id, initial_value: real_value(params[i].duplicate()) },
                ),
                _ => None,
            };
            if let Some(n) = replacement {
                nodes.set(node_idx, n);
            }
            proof {
                assert(is_param(s[node_idx as int]));
                assert forall|k: int| 0 <= k < i + 1 implies holds_value(
                    s[#[trigger] idx[k] as int],
                    nodes@[idx[k] as int],
                    params@[k],
                ) by {
                    if k < i {
                        assert(idx[k] < idx[i as int]);
                    }
                }
                assert forall|j: int|
                    0 <= j < s.len() && !(exists|k: int| 0 <= k < i + 1 && #[trigger] idx[k] == j)
                        implies nodes@[j] == s[j] by {
                    assert(idx[i as int] != j);
                }
            }
            i += 1;
        }
        Expression::new(
            nodes,
            self.expression.var_count,
            self.expression.param_count,
            self.expression.display.clone(),
        )
    }
}

} // verus!
