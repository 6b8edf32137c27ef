//! Programmatic expression construction: literals, variables and operator
//! applications by name, each producing RPN nodes together with the
//! canonical display string.

use vstd::prelude::*;

use crate::expression::{
    balanced, copy_nodes, depth, is_param, is_tree, lemma_shift_view, node_view, nodes_view, params_below,
    params_shiftable, shift_node, shift_nodes, shift_views, ExprView, Expression, Node, NodeView,
    Real,
};
use crate::registry::{has_name, is_first_named, lemma_first_named, op_id_of, OperatorRegistry};
use crate::render::{
    op_ref, lemma_balanced_append, lemma_leaf, lemma_run_append, lemma_shift, lemma_tree_render, ops_known, render, run,
    step,
};
use crate::text::{call_text, comma_sep, join, push_str, var_name, var_text};

verus! {

/// An expression is canonical when its nodes form one tree and its display
/// string is the canonical display of those nodes.
pub open spec fn canonical(e: Expression, names: Seq<Seq<char>>) -> bool {
    &&& is_tree(e.nodes@)
    &&& ops_known(e.nodes@, names.len())
    &&& e.display@ == render(e.nodes@, names)
}

/// Every operator and named constant in `s` carries a name from `allowed`.
pub open spec fn ops_within(s: Seq<Node>, names: Seq<Seq<char>>, allowed: Set<Seq<char>>) -> bool {
    forall|i: int| 0 <= i < s.len() ==> match #[trigger] op_ref(s[i]) {
        Some(id) => allowed.contains(names[id as int]),
        None => true,
    }
}

/// The literal `v` (IEEE pattern `bits`, decimal text `text`).
pub open spec fn spec_num(bits: u64, text: Seq<char>) -> ExprView {
    ExprView { nodes: seq![NodeView::Num(bits, text)], var_count: 0, param_count: 0, display: text }
}

/// The input variable `v_{i}`.
pub open spec fn spec_var(i: nat) -> ExprView {
    ExprView {
        nodes: seq![NodeView::Var(i as u8)],
        var_count: i + 1,
        param_count: 0,
        display: var_text(i),
    }
}

/// A lone parameter starting at the real value `(bits, text)`.
pub open spec fn spec_param(bits: u64, text: Seq<char>) -> ExprView {
    ExprView {
        nodes: seq![NodeView::Param(0, bits, text, 0)],
        var_count: 0,
        param_count: 1,
        display: seq!['p', '_', '{', '0', '}'],
    }
}

/// The unary operator `name` applied to `c`.
pub open spec fn spec_unary(names: Seq<Seq<char>>, name: Seq<char>, c: ExprView) -> ExprView {
    ExprView {
        nodes: c.nodes.push(NodeView::Op(op_id_of(names, name), 1)),
        var_count: c.var_count,
        param_count: c.param_count,
        display: call_text(name, seq![c.display]),
    }
}

/// The binary operator `name` applied to `l` and `r`, the parameters of `r`
/// numbered after those of `l`.
pub open spec fn spec_binary(
    names: Seq<Seq<char>>,
    name: Seq<char>,
    l: ExprView,
    r: ExprView,
) -> ExprView {
    ExprView {
        nodes: l.nodes + shift_views(r.nodes, l.param_count) + seq![
            NodeView::Op(op_id_of(names, name), 2),
        ],
        var_count: if l.var_count >= r.var_count {
            l.var_count
        } else {
            r.var_count
        },
        param_count: l.param_count + r.param_count,
        display: call_text(name, seq![l.display, r.display]),
    }
}

/// `name(a)`.
pub fn call1(name: &str, a: &str) -> (s: String)
    ensures
        s@ == call_text(name@, seq![a@]),
{
    proof {
        reveal_strlit("(");
        reveal_strlit(")");
    }
    let mut s = String::new();
    push_str(&mut s, name);
    push_str(&mut s, "(");
    push_str(&mut s, a);
    push_str(&mut s, ")");
    assert(join(seq![a@], comma_sep()) == a@);
    assert(s@ =~= call_text(name@, seq![a@]));
    s
}

/// `name(a, b)`.
pub fn call2(name: &str, a: &str, b: &str) -> (s: String)
    ensures
        s@ == call_text(name@, seq![a@, b@]),
{
    proof {
        reveal_strlit("(");
        reveal_strlit(")");
        reveal_strlit(", ");
    }
    let mut s = String::new();
    push_str(&mut s, name);
    push_str(&mut s, "(");
    push_str(&mut s, a);
    push_str(&mut s, ", ");
    push_str(&mut s, b);
    push_str(&mut s, ")");
    assert(seq![a@, b@].drop_last() =~= seq![a@]);
    assert(join(seq![a@], comma_sep()) == a@);
    assert(join(seq![a@, b@], comma_sep()) == a@ + comma_sep() + b@);
    assert(s@ =~= call_text(name@, seq![a@, b@]));
    s
}

/// A numeric literal.
pub fn num(v: Real) -> (e: Expression)
    ensures
        e.nodes@ == seq![Node::Num(v)],
        e.var_count == 0,
        e.param_count == 0,
        e.display@ == v.text@,
        e@ == spec_num(v.bits, v.text@),
        forall|names: Seq<Seq<char>>| canonical(e, names),
        params_below(e.nodes@, 0),
        forall|names: Seq<Seq<char>>, a: Set<Seq<char>>| ops_within(e.nodes@, names, a),
{
    let display = v.text.clone();
    let mut nodes: Vec<Node> = Vec::new();
    nodes.push(Node::Num(v));
    let e = Expression::new(nodes, 0, 0, display);
    assert(e@.nodes =~= spec_num(v.bits, v.text@).nodes);
    assert forall|names: Seq<Seq<char>>| canonical(e, names) by {
        lemma_leaf(Node::Num(v), names);
    }
    e
}

/// The input variable `v_{i}`.
pub fn var(i: usize) -> (e: Expression)
    requires
        i < 255,
    ensures
        e.nodes@ == seq![Node::Var(i as u8)],
        e.var_count == i + 1,
        e.param_count == 0,
        e.display@ == var_text(i as nat),
        e@ == spec_var(i as nat),
        forall|names: Seq<Seq<char>>| canonical(e, names),
        params_below(e.nodes@, 0),
        forall|names: Seq<Seq<char>>, a: Set<Seq<char>>| ops_within(e.nodes@, names, a),
{
    let e = Expression::variable(i as u8, var_name(i as u64));
    assert(e@.nodes =~= spec_var(i as nat).nodes);
    assert forall|names: Seq<Seq<char>>| canonical(e, names) by {
        lemma_leaf(Node::Var(i as u8), names);
    }
    e
}

/// Displays and shape of `child` followed by a unary operator.
pub proof fn lemma_unary_canonical(c: Seq<Node>, op_id: u8, names: Seq<Seq<char>>)
    requires
        is_tree(c),
        ops_known(c, names.len()),
        op_id < names.len(),
    ensures
        is_tree(c.push(Node::Op { op_id, arity: 1 })),
        ops_known(c.push(Node::Op { op_id, arity: 1 }), names.len()),
        render(c.push(Node::Op { op_id, arity: 1 }), names) == call_text(
            names[op_id as int],
            seq![render(c, names)],
        ),
{
    let s = c.push(Node::Op { op_id, arity: 1 });
    assert(s.drop_last() =~= c);
    lemma_tree_render(Seq::empty(), c, names);
    let st = run(Seq::empty(), c, names);
    assert(st =~= seq![render(c, names)]);
    assert(st.take(0) =~= Seq::<Seq<char>>::empty());
    assert(st.skip(0) =~= st);
    assert(run(Seq::empty(), s, names) =~= seq![call_text(names[op_id as int], st)]);
}

/// Displays and shape of `left`, renumbered `right` and a binary operator.
pub proof fn lemma_binary_canonical(
    l: Seq<Node>,
    r: Seq<Node>,
    by: nat,
    op_id: u8,
    names: Seq<Seq<char>>,
)
    requires
        is_tree(l),
        is_tree(r),
        ops_known(l, names.len()),
        ops_known(r, names.len()),
        op_id < names.len(),
    ensures
        is_tree(l + shift_nodes(r, by) + seq![Node::Op { op_id, arity: 2 }]),
        ops_known(l + shift_nodes(r, by) + seq![Node::Op { op_id, arity: 2 }], names.len()),
        render(l + shift_nodes(r, by) + seq![Node::Op { op_id, arity: 2 }], names) == call_text(
            names[op_id as int],
            seq![render(l, names), render(r, names)],
        ),
{
    let rs = shift_nodes(r, by);
    let body = l + rs;
    let s = body + seq![Node::Op { op_id, arity: 2 }];
    lemma_shift(Seq::empty(), r, by, names);
    lemma_balanced_append(l, rs);
    assert(s.drop_last() =~= body);
    lemma_run_append(Seq::empty(), l, rs, names);
    lemma_tree_render(Seq::empty(), l, names);
    let sl = run(Seq::empty(), l, names);
    assert(sl =~= seq![render(l, names)]);
    lemma_tree_render(sl, rs, names);
    assert(is_tree(rs));
    assert(render(rs, names) == render(r, names));
    let st = run(Seq::empty(), body, names);
    assert(st =~= seq![render(l, names), render(r, names)]);
    assert(st.take(0) =~= Seq::<Seq<char>>::empty());
    assert(st.skip(0) =~= st);
    assert(run(Seq::empty(), s, names) =~= seq![call_text(names[op_id as int], st)]);
    assert forall|i: int| 0 <= i < s.len() implies match #[trigger] crate::render::op_ref(s[i]) {
        Some(id) => id < names.len(),
        None => true,
    } by {
        if i < l.len() {
            assert(s[i] == l[i]);
        } else if i < l.len() + r.len() {
            assert(s[i] == shift_node(r[i - l.len()], by));
            assert(crate::render::op_ref(r[i - l.len()]) == crate::render::op_ref(s[i]));
        }
    }
}

/// Applies the unary operator `name` to `child`.
pub fn unary(name: &str, child: Expression, reg: &OperatorRegistry) -> (e: Expression)
    requires
        has_name(reg.names(), name@),
    ensures
        e.nodes@ == child.nodes@.push(
            Node::Op { op_id: op_id_of(reg.names(), name@), arity: 1 },
        ),
        e.var_count == child.var_count,
        e.param_count == child.param_count,
        e.display@ == call_text(name@, seq![child.display@]),
        e@ == spec_unary(reg.names(), name@, child@),
        canonical(child, reg.names()) ==> canonical(e, reg.names()),
        is_tree(child.nodes@) && ops_known(child.nodes@, reg.names().len()) ==> is_tree(e.nodes@)
            && ops_known(e.nodes@, reg.names().len()),
        forall|a: Set<Seq<char>>|
            ops_within(child.nodes@, reg.names(), a) && a.contains(name@) ==> #[trigger] ops_within(
                e.nodes@,
                reg.names(),
                a,
            ),
        params_below(child.nodes@, child.param_count as nat) ==> params_below(
            e.nodes@,
            e.param_count as nat,
        ),
{
    let op_id = match reg.id_by_name(name) {
        Some(id) => id,
        None => {
            proof {
                assert(false);
            }
            0
        },
    };
    let display = call1(name, child.display());
    let mut nodes = child.nodes;
    nodes.push(Node::Op { op_id, arity: 1 });
    let e = Expression::new(nodes, child.var_count, child.param_count, display);
    proof {
        assert(e@.nodes =~= spec_unary(reg.names(), name@, child@).nodes);
        assert forall|a: Set<Seq<char>>|
            ops_within(child.nodes@, reg.names(), a) && a.contains(name@) implies #[trigger] ops_within(
            e.nodes@,
            reg.names(),
            a,
        ) by {
            assert forall|i: int| 0 <= i < e.nodes@.len() implies match #[trigger] op_ref(e.nodes@[i]) {
                Some(id) => a.contains(reg.names()[id as int]),
                None => true,
            } by {
                if i < child.nodes@.len() {
                    assert(e.nodes@[i] == child.nodes@[i]);
                }
            }
        }
        if is_tree(child.nodes@) && ops_known(child.nodes@, reg.names().len()) {
            lemma_unary_canonical(child.nodes@, op_id, reg.names());
        }
        if params_below(child.nodes@, child.param_count as nat) {
            assert forall|i: int| 0 <= i < e.nodes@.len() && #[trigger] is_param(e.nodes@[i]) implies e.nodes@[i]->id
                < e.param_count by {
                assert(i < child.nodes@.len());
                assert(e.nodes@[i] == child.nodes@[i]);
            }
        }
    }
    e
}

/// `s` with every parameter id raised by `by`.
pub fn shift_params(s: &[Node], by: u8) -> (r: Vec<Node>)
    requires
        params_shiftable(s@, by as nat),
    ensures
        r@ == shift_nodes(s@, by as nat),
{
    let mut r: Vec<Node> = Vec::with_capacity(s.len());
    let mut i: usize = 0;
    while i < s.len()
        invariant
            i <= s@.len(),
            params_shiftable(s@, by as nat),
            r@ == shift_nodes(s@.take(i as int), by as nat),
        decreases s@.len() - i,
    {
        let n = match &s[i] {
            Node::Param { id, initial_value } => {
                assert(is_param(s@[i as int]));
                Node::Param { id: *id + by, initial_value: initial_value.duplicate() }
            },
            other => other.duplicate(),
        };
        r.push(n);
        i += 1;
        assert(r@ =~= shift_nodes(s@.take(i as int), by as nat));
    }
    assert(s@.take(s@.len() as int) =~= s@);
    r
}

/// Applies the binary operator `name` to `left` and `right`, renumbering the
/// parameters of `right` after those of `left`.
pub fn binary(name: &str, left: Expression, right: Expression, reg: &OperatorRegistry) -> (e:
    Expression)
    requires
        has_name(reg.names(), name@),
        left.param_count + right.param_count <= u8::MAX,
        params_shiftable(right.nodes@, left.param_count as nat),
    ensures
        e.nodes@ == left.nodes@ + shift_nodes(right.nodes@, left.param_count as nat) + seq![
            Node::Op { op_id: op_id_of(reg.names(), name@), arity: 2 },
        ],
        e.var_count == if left.var_count >= right.var_count {
            left.var_count
        } else {
            right.var_count
        },
        e.param_count == left.param_count + right.param_count,
        e.display@ == call_text(name@, seq![left.display@, right.display@]),
        e@ == spec_binary(reg.names(), name@, left@, right@),
        forall|a: Set<Seq<char>>|
            ops_within(left.nodes@, reg.names(), a) && ops_within(right.nodes@, reg.names(), a)
                && a.contains(name@) ==> #[trigger] ops_within(e.nodes@, reg.names(), a),
        canonical(left, reg.names()) && canonical(right, reg.names()) ==> canonical(
            e,
            reg.names(),
        ),
        is_tree(left.nodes@) && ops_known(left.nodes@, reg.names().len()) && is_tree(right.nodes@)
            && ops_known(right.nodes@, reg.names().len()) ==> is_tree(e.nodes@) && ops_known(
            e.nodes@,
            reg.names().len(),
        ),
        params_below(left.nodes@, left.param_count as nat) && params_below(
            right.nodes@,
            right.param_count as nat,
        ) ==> params_below(e.nodes@, e.param_count as nat),
{
    let op_id = match reg.id_by_name(name) {
        Some(id) => id,
        None => {
            proof {
                assert(false);
            }
            0
        },
    };
    let display = call2(name, left.display(), right.display());
    let shifted = shift_params(right.nodes.as_slice(), left.param_count);
    let mut nodes = left.nodes;
    let ghost lnodes = nodes@;
    let mut tail = shifted;
    nodes.append(&mut tail);
    nodes.push(Node::Op { op_id, arity: 2 });
    let var_count = if left.var_count >= right.var_count {
        left.var_count
    } else {
        right.var_count
    };
    let e = Expression::new(nodes, var_count, left.param_count + right.param_count, display);
    proof {
        assert(e.nodes@ =~= lnodes + shift_nodes(right.nodes@, left.param_count as nat) + seq![
            Node::Op { op_id, arity: 2 },
        ]);
        lemma_shift_view(right.nodes@, left.param_count as nat);
        assert(e@.nodes =~= spec_binary(reg.names(), name@, left@, right@).nodes);
        assert forall|a: Set<Seq<char>>|
            ops_within(lnodes, reg.names(), a) && ops_within(right.nodes@, reg.names(), a)
                && a.contains(name@) implies #[trigger] ops_within(e.nodes@, reg.names(), a) by {
            assert forall|i: int| 0 <= i < e.nodes@.len() implies match #[trigger] op_ref(e.nodes@[i]) {
                Some(id) => a.contains(reg.names()[id as int]),
                None => true,
            } by {
                if i < lnodes.len() {
                    assert(e.nodes@[i] == lnodes[i]);
                } else if i < lnodes.len() + right.nodes@.len() {
                    let k = i - lnodes.len();
                    assert(e.nodes@[i] == shift_node(right.nodes@[k], left.param_count as nat));
                    assert(op_ref(right.nodes@[k]) == op_ref(e.nodes@[i]));
                }
            }
        }
        if is_tree(lnodes) && ops_known(lnodes, reg.names().len()) && is_tree(right.nodes@)
            && ops_known(right.nodes@, reg.names().len()) {
            lemma_binary_canonical(
                lnodes,
                right.nodes@,
                left.param_count as nat,
                op_id,
                reg.names(),
            );
        }
        if params_below(lnodes, left.param_count as nat) && params_below(
            right.nodes@,
            right.param_count as nat,
        ) {
            assert forall|i: int| 0 <= i < e.nodes@.len() && #[trigger] is_param(e.nodes@[i]) implies e.nodes@[i]->id
                < e.param_count by {
                if i < lnodes.len() {
                    assert(e.nodes@[i] == lnodes[i]);
                } else {
                    let k = i - lnodes.len();
                    assert(e.nodes@[i] == shift_node(right.nodes@[k], left.param_count as nat));
                    assert(is_param(right.nodes@[k]));
                }
            }
        }
    }
    e
}

} // verus!

verus! {

/// Operator `id` applied to `c`.
pub open spec fn spec_apply_unary(names: Seq<Seq<char>>, id: u8, c: ExprView) -> ExprView {
    ExprView {
        nodes: c.nodes.push(NodeView::Op(id, 1)),
        var_count: c.var_count,
        param_count: c.param_count,
        display: call_text(names[id as int], seq![c.display]),
    }
}

/// Operator `id` applied to `l` and `r`, the parameters of `r` numbered after
/// those of `l`.
pub open spec fn spec_apply_binary(names: Seq<Seq<char>>, id: u8, l: ExprView, r: ExprView) -> ExprView {
    ExprView {
        nodes: l.nodes + shift_views(r.nodes, l.param_count) + seq![NodeView::Op(id, 2)],
        var_count: if l.var_count >= r.var_count {
            l.var_count
        } else {
            r.var_count
        },
        param_count: l.param_count + r.param_count,
        display: call_text(names[id as int], seq![l.display, r.display]),
    }
}

/// Applies the unary operator with id `op_id` to `child`.
pub fn apply_unary(op_id: u8, child: &Expression, reg: &OperatorRegistry) -> (e: Expression)
    requires
        op_id < reg.names().len(),
    ensures
        e@ == spec_apply_unary(reg.names(), op_id, child@),
        canonical(*child, reg.names()) ==> canonical(e, reg.names()),
{
    let display = call1(reg.meta(op_id).name.as_str(), child.display());
    let mut nodes = copy_nodes(child.nodes.as_slice());
    nodes.push(Node::Op { op_id, arity: 1 });
    let e = Expression::new(nodes, child.var_count, child.param_count, display);
    assert(e@.nodes =~= spec_apply_unary(reg.names(), op_id, child@).nodes);
    proof {
        if canonical(*child, reg.names()) {
            lemma_unary_canonical(child.nodes@, op_id, reg.names());
        }
    }
    e
}

/// Applies the binary operator with id `op_id` to `left` and `right`.
pub fn apply_binary(op_id: u8, left: &Expression, right: &Expression, reg: &OperatorRegistry) -> (e:
    Expression)
    requires
        op_id < reg.names().len(),
        left.param_count + right.param_count <= u8::MAX,
        params_shiftable(right.nodes@, left.param_count as nat),
    ensures
        e@ == spec_apply_binary(reg.names(), op_id, left@, right@),
        canonical(*left, reg.names()) && canonical(*right, reg.names()) ==> canonical(e, reg.names()),
{
    let display = call2(reg.meta(op_id).name.as_str(), left.display(), right.display());
    let mut nodes = copy_nodes(left.nodes.as_slice());
    let mut tail = shift_params(right.nodes.as_slice(), left.param_count);
    let ghost lnodes = nodes@;
    nodes.append(&mut tail);
    nodes.push(Node::Op { op_id, arity: 2 });
    let var_count = if left.var_count >= right.var_count {
        left.var_count
    } else {
        right.var_count
    };
    let e = Expression::new(nodes, var_count, left.param_count + right.param_count, display);
    proof {
        lemma_shift_view(right.nodes@, left.param_count as nat);
        assert(e.nodes@ =~= lnodes + shift_nodes(right.nodes@, left.param_count as nat) + seq![
            Node::Op { op_id, arity: 2 },
        ]);
        assert(e@.nodes =~= spec_apply_binary(reg.names(), op_id, left@, right@).nodes);
        if canonical(*left, reg.names()) && canonical(*right, reg.names()) {
            lemma_binary_canonical(left.nodes@, right.nodes@, left.param_count as nat, op_id, reg.names());
        }
    }
    e
}

} // verus!
