//! The canonical display of an RPN node sequence, and the facts about it
//! that the expression builders rely on.

use vstd::prelude::*;

use crate::expression::{balanced, depth, is_tree, pops, shift_node, shift_nodes, Node};
use crate::text::{call_text, var_text};

verus! {

/// The operator a node refers to, if any.
pub open spec fn op_ref(n: Node) -> Option<u8> {
    match n {
        Node::Const { op_id } => Some(op_id),
        Node::Op { op_id, .. } => Some(op_id),
        _ => None,
    }
}

/// Every operator id in `s` names one of `count` registry entries.
pub open spec fn ops_known(s: Seq<Node>, count: nat) -> bool {
    forall|i: int| 0 <= i < s.len() ==> match #[trigger] op_ref(s[i]) {
        Some(id) => id < count,
        None => true,
    }
}

/// The text a leaf node pushes.
pub open spec fn leaf_text(n: Node, names: Seq<Seq<char>>) -> Seq<char> {
    match n {
        Node::Const { op_id } => names[op_id as int],
        Node::Num(v) => v.text@,
        Node::Var(i) => var_text(i as nat),
        Node::Param { initial_value, .. } => initial_value.re.text@,
        Node::Op { .. } => Seq::empty(),
    }
}

/// One display step: a leaf pushes its text, an operator replaces its
/// (at most `arity`) topmost entries by `Name(arg, ...)`.
pub open spec fn step(st: Seq<Seq<char>>, n: Node, names: Seq<Seq<char>>) -> Seq<Seq<char>> {
    match n {
        Node::Op { op_id, arity } => {
            let start = if st.len() >= arity { st.len() - arity } else { 0 };
            st.take(start).push(call_text(names[op_id as int], st.skip(start)))
        },
        _ => st.push(leaf_text(n, names)),
    }
}

/// The display stack after processing `s` on top of `st`.
pub open spec fn run(st: Seq<Seq<char>>, s: Seq<Node>, names: Seq<Seq<char>>) -> Seq<Seq<char>>
    decreases s.len(),
{
    if s.len() == 0 {
        st
    } else {
        step(run(st, s.drop_last(), names), s.last(), names)
    }
}

/// The canonical display of `s`: the top of the display stack, or the empty
/// text when nothing is left on it.
pub open spec fn render(s: Seq<Node>, names: Seq<Seq<char>>) -> Seq<char> {
    let st = run(Seq::empty(), s, names);
    if st.len() == 0 {
        Seq::empty()
    } else {
        st.last()
    }
}

/// Processing `a + b` is processing `a`, then `b`.
pub proof fn lemma_run_append(
    st: Seq<Seq<char>>,
    a: Seq<Node>,
    b: Seq<Node>,
    names: Seq<Seq<char>>,
)
    ensures
        run(st, a + b, names) == run(run(st, a, names), b, names),
    decreases b.len(),
{
    if b.len() == 0 {
        assert(a + b =~= a);
    } else {
        assert((a + b).drop_last() =~= a + b.drop_last());
        lemma_run_append(st, a, b.drop_last(), names);
    }
}

/// A balanced sequence never reaches below its own start: processed on top
/// of any stack it leaves that stack untouched and adds `depth` entries.
pub proof fn lemma_run_balanced(st: Seq<Seq<char>>, s: Seq<Node>, names: Seq<Seq<char>>)
    requires
        balanced(s),
    ensures
        run(st, s, names) == st + run(Seq::empty(), s, names),
        run(Seq::empty(), s, names).len() == depth(s),
    decreases s.len(),
{
    if s.len() > 0 {
        let p = s.drop_last();
        lemma_run_balanced(st, p, names);
        let x = run(Seq::empty(), p, names);
        let n = s.last();
        match n {
            Node::Op { op_id, arity } => {
                let a = arity as int;
                assert(x.len() >= a);
                assert((st + x).take(st.len() + x.len() - a) =~= st + x.take(x.len() - a));
                assert((st + x).skip(st.len() + x.len() - a) =~= x.skip(x.len() - a));
            },
            _ => {
                assert((st + x).push(leaf_text(n, names)) =~= st + x.push(leaf_text(n, names)));
            },
        }
    }
}

/// A balanced sequence has non-negative depth.
pub proof fn lemma_depth_nonneg(s: Seq<Node>)
    requires
        balanced(s),
    ensures
        depth(s) >= 0,
    decreases s.len(),
{
    if s.len() > 0 {
        lemma_depth_nonneg(s.drop_last());
    }
}

/// Concatenating balanced sequences keeps them balanced and adds depths.
pub proof fn lemma_balanced_append(a: Seq<Node>, b: Seq<Node>)
    requires
        balanced(a),
        balanced(b),
    ensures
        balanced(a + b),
        depth(a + b) == depth(a) + depth(b),
    decreases b.len(),
{
    lemma_depth_nonneg(a);
    if b.len() == 0 {
        assert(a + b =~= a);
    } else {
        assert((a + b).drop_last() =~= a + b.drop_last());
        lemma_balanced_append(a, b.drop_last());
    }
}

/// Renumbering parameters changes neither the shape nor the display.
pub proof fn lemma_shift(st: Seq<Seq<char>>, s: Seq<Node>, by: nat, names: Seq<Seq<char>>)
    ensures
        balanced(shift_nodes(s, by)) == balanced(s),
        depth(shift_nodes(s, by)) == depth(s),
        run(st, shift_nodes(s, by), names) == run(st, s, names),
    decreases s.len(),
{
    if s.len() > 0 {
        assert(shift_nodes(s, by).drop_last() =~= shift_nodes(s.drop_last(), by));
        lemma_shift(st, s.drop_last(), by, names);
        let n = s.last();
        assert(shift_nodes(s, by).last() == shift_node(n, by));
        assert(pops(shift_node(n, by)) == pops(n));
        assert(step(run(st, s.drop_last(), names), shift_node(n, by), names) == step(
            run(st, s.drop_last(), names),
            n,
            names,
        ));
    }
}

/// A tree displays as the single entry it leaves, on top of any stack.
pub proof fn lemma_tree_render(st: Seq<Seq<char>>, t: Seq<Node>, names: Seq<Seq<char>>)
    requires
        is_tree(t),
    ensures
        run(st, t, names) == st.push(render(t, names)),
{
    lemma_run_balanced(st, t, names);
    let x = run(Seq::empty(), t, names);
    assert(x =~= seq![x[0]]);
    assert(st + x =~= st.push(x[0]));
}

} // verus!

verus! {

/// A single leaf is a tree displayed as its own text.
pub proof fn lemma_leaf(n: Node, names: Seq<Seq<char>>)
    requires
        !(n is Op),
    ensures
        is_tree(seq![n]),
        ops_known(seq![n], names.len()) <== (match op_ref(n) {
            Some(id) => id < names.len(),
            None => true,
        }),
        render(seq![n], names) == leaf_text(n, names),
{
    let s = seq![n];
    assert(s.drop_last() =~= Seq::<Node>::empty());
    assert(depth(s.drop_last()) == 0);
    assert(balanced(s.drop_last()));
    assert(run(Seq::empty(), s.drop_last(), names) == Seq::<Seq<char>>::empty());
    assert(s.last() == n);
    assert(step(Seq::empty(), n, names) =~= seq![leaf_text(n, names)]);
    assert(run(Seq::empty(), s, names) =~= seq![leaf_text(n, names)]);
}

} // verus!
