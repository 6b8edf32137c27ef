//! Expression rewriting used by the pipeline's final polish: canonical
//! re-display, lifting numeric literals into tunable parameters and
//! materializing parameters back into literals; and the deadline check.

use vstd::prelude::*;

use crate::builder::{canonical, ops_within};
use crate::expression::{
    balanced, copy_nodes, depth, is_param, is_tree, params_below, pops, real_of, real_value, Expression,
    Node, Real, Value,
};
use crate::pareto::{at_most, error_at_most, error_below, error_less};
use crate::realbits::nan_bits;
use crate::registry::OperatorRegistry;
use crate::render::{leaf_text, op_ref, ops_known, render, run, step};
use crate::text::{call_text, comma_sep, join, push_str, var_name};
use std::time::Instant;

verus! {

/// `std::time::Instant`, a reading of the monotonic clock, declared so that
/// deadlines can be handed through the library; its value is opaque.
#[verifier::external_type_specification]
#[verifier::external_body]
pub struct ExInstant(Instant);

/// Reads the monotonic clock (`Instant::now`). Nothing is promised of the
/// value: it depends on when the call is made.
#[verifier::external_body]
fn clock_now() -> Instant {
    Instant::now()
}

/// `a >= b` on two clock readings, as `Instant`'s `PartialOrd` answers it.
pub uninterp spec fn instant_ge(a: Instant, b: Instant) -> bool;

/// Compares two instants with `Instant`'s `>=` (`PartialOrd::ge`). The
/// answer is named by `instant_ge`: a comparison of the two readings alone.
#[verifier::external_body]
fn instant_at_or_after(a: &Instant, b: &Instant) -> (r: bool)
    ensures
        r == instant_ge(*a, *b),
{
    *a >= *b
}

/// Whether the optional deadline has passed at the clock reading `now`.
pub open spec fn spec_deadline_reached(now: Instant, deadline: Option<Instant>) -> bool {
    match deadline {
        None => false,
        Some(d) => instant_ge(now, d),
    }
}

/// Whether the optional deadline has passed at the clock reading `now`: no
/// deadline never passes; otherwise `now >= deadline`.
pub fn deadline_reached(now: &Instant, deadline: &Option<Instant>) -> (r: bool)
    ensures
        r == spec_deadline_reached(*now, *deadline),
{
    match deadline {
        None => false,
        Some(d) => instant_at_or_after(now, d),
    }
}

/// Whether the optional deadline has passed. No deadline never passes;
/// otherwise the answer is `now >= deadline` for the clock reading `now`
/// taken during the call.
pub fn deadline_passed(deadline: Option<Instant>) -> (r: bool)
    ensures
        deadline is None ==> !r,
        exists|now: Instant| r == #[trigger] spec_deadline_reached(now, deadline),
{
    match deadline {
        None => {
            proof {
                let w: Instant = vstd::pervasive::arbitrary();
                assert(!spec_deadline_reached(w, deadline));
            }
            false
        },
        Some(d) => {
            let now = clock_now();
            let r = deadline_reached(&now, &Some(d));
            assert(r == spec_deadline_reached(now, deadline));
            r
        },
    }
}

/// The texts of a sequence of strings.
pub open spec fn views(s: Seq<String>) -> Seq<Seq<char>> {
    s.map_values(|x: String| x@)
}

/// `name(args[0], args[1], ...)` as a string.
pub fn call_string(name: &str, args: &Vec<String>) -> (s: String)
    ensures
        s@ == call_text(name@, views(args@)),
{
    proof {
        reveal_strlit("(");
        reveal_strlit(")");
        reveal_strlit(", ");
    }
    let mut s = String::new();
    push_str(&mut s, name);
    push_str(&mut s, "(");
    let ghost head = s@;
    let mut k: usize = 0;
    while k < args.len()
        invariant
            k <= args@.len(),
            head == name@ + seq!['('],
            s@ == head + join(views(args@).take(k as int), comma_sep()),
        decreases args@.len() - k,
    {
        let ghost before = s@;
        if k > 0 {
            push_str(&mut s, ", ");
        }
        push_str(&mut s, args[k].as_str());
        k += 1;
        proof {
            let vs = views(args@).take(k as int);
            assert(vs.drop_last() =~= views(args@).take(k - 1));
            assert(vs.last() == args@[k - 1]@);
            if k == 1 {
                assert(views(args@).take(0) =~= Seq::<Seq<char>>::empty());
                assert(join(vs, comma_sep()) == vs[0]);
                assert(s@ =~= head + join(vs, comma_sep()));
            } else {
                reveal_strlit(", ");
                assert(", "@ =~= comma_sep());
                assert(join(vs, comma_sep()) == join(vs.drop_last(), comma_sep()) + comma_sep()
                    + vs.last());
                assert(s@ =~= head + join(vs, comma_sep()));
            }
        }
    }
    push_str(&mut s, ")");
    assert(views(args@).take(args@.len() as int) =~= views(args@));
    assert(s@ =~= call_text(name@, views(args@)));
    s
}

/// Rebuilds the canonical display string from the RPN nodes (used after
/// parameter materialization, when the stored display would be stale).
pub fn redisplay(expr: &Expression, reg: &OperatorRegistry) -> (s: String)
    requires
        ops_known(expr.nodes@, reg.names().len()),
    ensures
        s@ == render(expr.nodes@, reg.names()),
{
    let ghost names = reg.names();
    let ghost nodes = expr.nodes@;
    let mut stack: Vec<String> = Vec::with_capacity(expr.complexity());
    let mut i: usize = 0;
    while i < expr.nodes.len()
        invariant
            i <= nodes.len(),
            nodes == expr.nodes@,
            names == reg.names(),
            ops_known(nodes, names.len()),
            views(stack@) == run(Seq::empty(), nodes.take(i as int), names),
        decreases nodes.len() - i,
    {
        let ghost before = views(stack@);
        assert(nodes.take(i + 1).drop_last() =~= nodes.take(i as int));
        assert(nodes.take(i + 1).last() == nodes[i as int]);
        assert(match op_ref(nodes[i as int]) {
            Some(id) => id < names.len(),
            None => true,
        });
        match &expr.nodes[i] {
            Node::Const { op_id } => {
                stack.push(reg.meta(*op_id).name.clone());
                assert(views(stack@) =~= before.push(leaf_text(nodes[i as int], names)));
            },
            Node::Num(v) => {
                stack.push(v.text.clone());
                assert(views(stack@) =~= before.push(leaf_text(nodes[i as int], names)));
            },
            Node::Var(j) => {
                stack.push(var_name(*j as u64));
                assert(views(stack@) =~= before.push(leaf_text(nodes[i as int], names)));
            },
            Node::Param { initial_value, .. } => {
                stack.push(initial_value.re.text.clone());
                assert(views(stack@) =~= before.push(leaf_text(nodes[i as int], names)));
            },
            Node::Op { op_id, arity } => {
                let a = *arity as usize;
                let start: usize = if stack.len() >= a {
                    stack.len() - a
                } else {
                    0
                };
                let args = stack.split_off(start);
                assert(views(stack@) =~= before.take(start as int));
                assert(views(args@) =~= before.skip(start as int));
                let text = call_string(reg.meta(*op_id).name.as_str(), &args);
                stack.push(text);
                assert(views(stack@) =~= step(before, nodes[i as int], names));
            },
        }
        i += 1;
    }
    assert(nodes.take(nodes.len() as int) =~= nodes);
    match stack.pop() {
        Some(s) => s,
        None => String::new(),
    }
}

/// Numeric literals and parameters are the tunable constants.
pub open spec fn is_lit(n: Node) -> bool {
    n is Num || n is Param
}

/// Number of tunable constants in `s`.
pub open spec fn lit_count(s: Seq<Node>) -> nat
    decreases s.len(),
{
    if s.len() == 0 {
        0
    } else {
        lit_count(s.drop_last()) + if is_lit(s.last()) {
            1nat
        } else {
            0nat
        }
    }
}

/// `new` is `old` turned into parameter number `k` (mod 256) when `old` is a
/// literal or a parameter, and `old` itself otherwise. A literal `v`
/// becomes a parameter starting at `v` with zero imaginary part.
pub open spec fn lifted(old: Node, new: Node, k: nat) -> bool {
    match old {
        Node::Num(v) => new == (Node::Param { id: (k % 256) as u8, initial_value: real_of(v) }),
        Node::Param { initial_value, .. } => new == (Node::Param {
            id: (k % 256) as u8,
            initial_value,
        }),
        _ => new == old,
    }
}

/// `new` is `old` with every literal and parameter turned into a parameter
/// numbered in node order.
pub open spec fn lifts(old: Seq<Node>, new: Seq<Node>) -> bool {
    &&& new.len() == old.len()
    &&& forall|i: int| 0 <= i < old.len() ==> lifted(old[i], #[trigger] new[i], lit_count(old.take(i)))
}

/// A parameter materialized into its current value; other nodes unchanged.
pub open spec fn lower_node(n: Node) -> Node {
    match n {
        Node::Param { initial_value, .. } => Node::Num(initial_value.re),
        _ => n,
    }
}

/// Every parameter of `s` materialized into its current value.
pub open spec fn lower_nodes(s: Seq<Node>) -> Seq<Node> {
    s.map_values(|n: Node| lower_node(n))
}

/// Converts every numeric literal (and existing parameter) into a tunable
/// `Param` with node-order ids, so LM can re-optimize all constants of a
/// closed-form candidate against the raw target. Returns `None` when there
/// is nothing to tune or when the parameter count would make LM too slow.
pub fn literals_to_params(expr: &Expression) -> (r: Option<Expression>)
    ensures
        r is None <==> (lit_count(expr.nodes@) == 0 || lit_count(expr.nodes@) > 16),
        r matches Some(p) ==> {
            &&& lifts(expr.nodes@, p.nodes@)
            &&& p.var_count == expr.var_count
            &&& p.param_count == lit_count(expr.nodes@)
            &&& p.display@ == expr.display@
            &&& params_below(p.nodes@, p.param_count as nat)
        },
{
    let ghost old = expr.nodes@;
    let mut nodes: Vec<Node> = Vec::with_capacity(expr.nodes.len());
    let mut count: usize = 0;
    let mut i: usize = 0;
    while i < expr.nodes.len()
        invariant
            i <= old.len(),
            old == expr.nodes@,
            count == lit_count(old.take(i as int)),
            count <= i,
            nodes@.len() == i,
            forall|j: int| 0 <= j < i ==> lifted(old[j], #[trigger] nodes@[j], lit_count(old.take(j))),
        decreases old.len() - i,
    {
        assert(old.take(i + 1).drop_last() =~= old.take(i as int));
        assert(old.take(i + 1).last() == old[i as int]);
        let id: u8 = (count % 256) as u8;
        match &expr.nodes[i] {
            Node::Num(v) => {
                nodes.push(Node::Param { id, initial_value: real_value(v.duplicate()) });
                count += 1;
            },
            Node::Param { initial_value, .. } => {
                nodes.push(Node::Param { id, initial_value: initial_value.duplicate() });
                count += 1;
            },
            other => {
                nodes.push(other.duplicate());
            },
        }
        i += 1;
    }
    assert(old.take(old.len() as int) =~= old);
    if count == 0 || count > 16 {
        return None;
    }
    proof {
        law_lift_numbers_params(old, nodes@);
    }
    Some(Expression::new(nodes, expr.var_count(), count as u8, expr.display.clone()))
}

/// Materializes every `Param` back into a numeric literal and regenerates
/// the display string.
pub fn params_to_literals(expr: &Expression, reg: &OperatorRegistry) -> (r: Expression)
    requires
        ops_known(expr.nodes@, reg.names().len()),
    ensures
        r.nodes@ == lower_nodes(expr.nodes@),
        r.var_count == expr.var_count,
        r.param_count == 0,
        r.display@ == render(lower_nodes(expr.nodes@), reg.names()),
        r.display@ == render(expr.nodes@, reg.names()),
        is_tree(expr.nodes@) ==> canonical(r, reg.names()),
        forall|a: Set<Seq<char>>|
            ops_within(expr.nodes@, reg.names(), a) ==> #[trigger] ops_within(r.nodes@, reg.names(), a),
{
    let ghost old = expr.nodes@;
    let mut nodes: Vec<Node> = Vec::with_capacity(expr.nodes.len());
    let mut i: usize = 0;
    while i < expr.nodes.len()
        invariant
            i <= old.len(),
            old == expr.nodes@,
            nodes@ == lower_nodes(old.take(i as int)),
        decreases old.len() - i,
    {
        match &expr.nodes[i] {
            Node::Param { initial_value, .. } => {
                nodes.push(Node::Num(initial_value.re.duplicate()));
            },
            other => {
                nodes.push(other.duplicate());
            },
        }
        i += 1;
        assert(nodes@ =~= lower_nodes(old.take(i as int)));
    }
    assert(old.take(old.len() as int) =~= old);
    let out = Expression::new(nodes, expr.var_count(), 0, String::new());
    proof {
        assert forall|j: int| 0 <= j < out.nodes@.len() implies match #[trigger] op_ref(
            out.nodes@[j],
        ) {
            Some(id) => id < reg.names().len(),
            None => true,
        } by {
            assert(op_ref(old[j]) == op_ref(out.nodes@[j]) || old[j] is Param);
        }
    }
    let display = redisplay(&out, reg);
    proof {
        law_lower_keeps_display(old, reg.names());
        assert forall|a: Set<Seq<char>>| ops_within(old, reg.names(), a) implies #[trigger] ops_within(
            out.nodes@,
            reg.names(),
            a,
        ) by {
            assert forall|j: int| 0 <= j < out.nodes@.len() implies match #[trigger] op_ref(out.nodes@[j]) {
                Some(id) => a.contains(reg.names()[id as int]),
                None => true,
            } by {
                assert(op_ref(old[j]) == op_ref(out.nodes@[j]) || old[j] is Param);
            }
        }
    }
    Expression::new(out.nodes, out.var_count, 0, display)
}

} // verus!

verus! {

/// Each step of the display stack sees the same text for a node and for its
/// materialized or lifted form.
proof fn lemma_same_texts(a: Seq<Node>, b: Seq<Node>, names: Seq<Seq<char>>)
    requires
        a.len() == b.len(),
        forall|i: int|
            0 <= i < a.len() ==> pops(#[trigger] a[i]) == pops(b[i]) && (a[i] is Op <==> b[i] is Op)
                && op_ref(a[i]) == op_ref(b[i]) && leaf_text(a[i], names) == leaf_text(b[i], names),
    ensures
        run(Seq::empty(), a, names) == run(Seq::empty(), b, names),
        balanced(a) == balanced(b),
        depth(a) == depth(b),
        ops_known(a, names.len()) == ops_known(b, names.len()),
    decreases a.len(),
{
    if a.len() > 0 {
        lemma_same_texts(a.drop_last(), b.drop_last(), names);
        let st = run(Seq::empty(), a.drop_last(), names);
        assert(a.last() == a[a.len() - 1]);
        assert(b.last() == b[b.len() - 1]);
        assert(step(st, a.last(), names) == step(st, b.last(), names));
        if !ops_known(a, names.len()) {
            let i = choose|i: int| 0 <= i < a.len() && !match #[trigger] op_ref(a[i]) {
                Some(id) => id < names.len(),
                None => true,
            };
            assert(!match op_ref(b[i]) {
                Some(id) => id < names.len(),
                None => true,
            });
        }
        if !ops_known(b, names.len()) {
            let i = choose|i: int| 0 <= i < b.len() && !match #[trigger] op_ref(b[i]) {
                Some(id) => id < names.len(),
                None => true,
            };
            assert(!match op_ref(a[i]) {
                Some(id) => id < names.len(),
                None => true,
            });
        }
    }
}

/// Materializing parameters keeps the shape and the display of an expression.
pub proof fn law_lower_keeps_display(s: Seq<Node>, names: Seq<Seq<char>>)
    ensures
        render(lower_nodes(s), names) == render(s, names),
        is_tree(lower_nodes(s)) == is_tree(s),
        ops_known(lower_nodes(s), names.len()) == ops_known(s, names.len()),
{
    lemma_same_texts(s, lower_nodes(s), names);
}

/// Lifting literals into parameters keeps the shape and the display of an
/// expression.
pub proof fn law_lift_keeps_display(a: Seq<Node>, b: Seq<Node>, names: Seq<Seq<char>>)
    requires
        lifts(a, b),
    ensures
        render(b, names) == render(a, names),
        is_tree(b) == is_tree(a),
        ops_known(b, names.len()) == ops_known(a, names.len()),
{
    assert forall|i: int| 0 <= i < a.len() implies pops(#[trigger] a[i]) == pops(b[i]) && (a[i] is Op
        <==> b[i] is Op) && op_ref(a[i]) == op_ref(b[i]) && leaf_text(a[i], names) == leaf_text(
        b[i],
        names,
    ) by {
        assert(lifted(a[i], b[i], lit_count(a.take(i))));
    }
    lemma_same_texts(a, b, names);
}

/// Lifting literals into parameters and materializing them again gives the
/// same nodes as materializing directly: no constant is lost or altered.
pub proof fn law_lift_then_lower(a: Seq<Node>, b: Seq<Node>)
    requires
        lifts(a, b),
    ensures
        lower_nodes(b) == lower_nodes(a),
{
    assert forall|i: int| 0 <= i < a.len() implies lower_nodes(b)[i] == lower_nodes(a)[i] by {
        assert(lifted(a[i], b[i], lit_count(a.take(i))));
    }
    assert(lower_nodes(b) =~= lower_nodes(a));
}

/// An expression without parameters is its own materialization.
pub proof fn law_lower_without_params(s: Seq<Node>)
    requires
        forall|i: int| 0 <= i < s.len() ==> !is_param(#[trigger] s[i]),
    ensures
        lower_nodes(s) == s,
{
    assert forall|i: int| 0 <= i < s.len() implies lower_nodes(s)[i] == s[i] by {
        assert(!is_param(s[i]));
    }
    assert(lower_nodes(s) =~= s);
}

/// The literal count of a prefix never exceeds that of the whole sequence.
proof fn lemma_lit_count_prefix(s: Seq<Node>, i: int)
    requires
        0 <= i <= s.len(),
    ensures
        lit_count(s.take(i)) <= lit_count(s),
        i < s.len() && is_lit(s[i]) ==> lit_count(s.take(i)) + 1 <= lit_count(s),
    decreases s.len() - i,
{
    if i < s.len() {
        lemma_lit_count_prefix(s, i + 1);
        assert(s.take(i + 1).drop_last() =~= s.take(i));
        assert(s.take(i + 1).last() == s[i]);
    } else {
        assert(s.take(i) =~= s);
    }
}

/// After lifting, the parameters are numbered `0, 1, ...` in node order, so
/// every id lies below the number of lifted constants.
pub proof fn law_lift_numbers_params(a: Seq<Node>, b: Seq<Node>)
    requires
        lifts(a, b),
        lit_count(a) <= 256,
    ensures
        params_below(b, lit_count(a)),
        forall|i: int|
            0 <= i < a.len() && is_lit(a[i]) ==> #[trigger] b[i] is Param && b[i]->id == lit_count(
                a.take(i),
            ),
{
    assert forall|i: int| 0 <= i < a.len() && is_lit(a[i]) implies #[trigger] b[i] is Param
        && b[i]->id == lit_count(a.take(i)) by {
        assert(lifted(a[i], b[i], lit_count(a.take(i))));
        lemma_lit_count_prefix(a, i);
    }
    assert forall|i: int| 0 <= i < b.len() && #[trigger] is_param(b[i]) implies b[i]->id
        < lit_count(a) by {
        assert(lifted(a[i], b[i], lit_count(a.take(i))));
        lemma_lit_count_prefix(a, i);
        assert(is_lit(a[i]));
    }
}

/// The held-out rows of a validation split: every fifth row, starting at
/// row 4 (rows `i` with `i % 5 == 4`).
pub fn validation_rows(n: usize) -> (r: Vec<usize>)
    ensures
        r@.len() == n / 5,
        forall|t: int| 0 <= t < r@.len() ==> #[trigger] r@[t] == 5 * t + 4,
{
    let mut r: Vec<usize> = Vec::new();
    let mut i: usize = 0;
    while i < n
        invariant
            i <= n,
            r@.len() == i / 5,
            forall|t: int| 0 <= t < r@.len() ==> #[trigger] r@[t] == 5 * t + 4,
        decreases n - i,
    {
        proof {
            assert((i + 1) / 5 == i / 5 + if i % 5 == 4 { 1int } else { 0int }) by (nonlinear_arith);
            assert(i % 5 == 4 ==> i == 5 * (i / 5) + 4) by (nonlinear_arith);
        }
        if i % 5 == 4 {
            r.push(i);
        }
        i += 1;
    }
    r
}

/// The training rows of a validation split: every row not held out
/// (rows `i` with `i % 5 != 4`), in order.
pub fn training_rows(n: usize) -> (r: Vec<usize>)
    ensures
        r@.len() == n - n / 5,
        forall|t: int| 0 <= t < r@.len() ==> #[trigger] r@[t] == t + t / 4,
{
    let mut r: Vec<usize> = Vec::new();
    let mut i: usize = 0;
    while i < n
        invariant
            i <= n,
            r@.len() == i - i / 5,
            forall|t: int| 0 <= t < r@.len() ==> #[trigger] r@[t] == t + t / 4,
        decreases n - i,
    {
        proof {
            assert((i + 1) / 5 == i / 5 + if i % 5 == 4 { 1int } else { 0int }) by (nonlinear_arith);
            let t = i - i / 5;
            assert(i % 5 != 4 ==> t + t / 4 == i) by (nonlinear_arith)
                requires
                    t == i - i / 5,
            ;
        }
        if i % 5 != 4 {
            r.push(i);
        }
        i += 1;
    }
    r
}

} // verus!

verus! {

/// The double `+inf`, as bits.
pub open spec fn inf_bits() -> u64 {
    0x7ff0_0000_0000_0000
}

/// `f64::min` on two errors given by their bits: a NaN gives way to the
/// other operand.
pub open spec fn min_error(a: u64, b: u64) -> u64 {
    if nan_bits(b) {
        a
    } else if nan_bits(a) {
        b
    } else if error_below(b, a) {
        b
    } else {
        a
    }
}

/// The best error of a pool: the errors folded with `f64::min` from `+inf`.
pub open spec fn spec_pool_best(errors: Seq<u64>) -> u64
    decreases errors.len(),
{
    if errors.len() == 0 {
        inf_bits()
    } else {
        min_error(spec_pool_best(errors.drop_last()), errors.last())
    }
}

/// The best error of a pool (`+inf` for an empty pool).
pub fn pool_best(errors: &[u64]) -> (r: u64)
    ensures
        r == spec_pool_best(errors@),
{
    let mut best: u64 = 0x7ff0_0000_0000_0000;
    let mut i: usize = 0;
    while i < errors.len()
        invariant
            i <= errors@.len(),
            best == spec_pool_best(errors@.take(i as int)),
        decreases errors@.len() - i,
    {
        let x = errors[i];
        let x_nan = (x >> 52u64) & 0x7ffu64 == 0x7ffu64 && x & 0xf_ffff_ffff_ffffu64 != 0;
        let b_nan = (best >> 52u64) & 0x7ffu64 == 0x7ffu64 && best & 0xf_ffff_ffff_ffffu64 != 0;
        if x_nan {
        } else if b_nan {
            best = x;
        } else if error_less(x, best) {
            best = x;
        }
        proof {
            assert(errors@.take(i + 1).drop_last() =~= errors@.take(i as int));
        }
        i += 1;
    }
    assert(errors@.take(errors@.len() as int) =~= errors@);
    best
}

/// Some error of the list is within `exit` (`err <= exit`).
pub open spec fn spec_any_within(errors: Seq<u64>, exit: u64) -> bool {
    exists|i: int| 0 <= i < errors.len() && at_most(#[trigger] errors[i], exit)
}

/// Whether some of the given errors solves the dataset, that is lies at or
/// below the exit error.
pub fn any_within(errors: &[u64], exit: u64) -> (r: bool)
    ensures
        r == spec_any_within(errors@, exit),
{
    let mut i: usize = 0;
    while i < errors.len()
        invariant
            i <= errors@.len(),
            forall|k: int| 0 <= k < i ==> !at_most(#[trigger] errors@[k], exit),
        decreases errors@.len() - i,
    {
        if error_at_most(errors[i], exit) {
            return true;
        }
        i += 1;
    }
    false
}

/// The most ratio probes the multiplicative-decomposition stage prepares.
pub open spec fn max_probes() -> nat {
    5
}

/// The stages of the pipeline, in the order in which they can run.
#[derive(Clone, Copy, Debug, PartialEq, Eq)]
pub enum FableStage {
    /// Nothing has run yet.
    Start,
    /// Stage A: closed-form power laws on the raw target.
    PowerLaw,
    /// Stage C, preparing the whitened ratios.
    RatioPrepare,
    /// Stage C, a power-law probe of one ratio.
    RatioProbe,
    /// Stage C, the beam search on the first ratio.
    RatioBeam,
    /// Stage A2: rational functions.
    Rational,
    /// Stage B: the plain beam search.
    Beam,
    /// Residual boosting of the best candidate.
    Boost,
    /// The pipeline has given its answer.
    Done,
}

/// Which stages the configuration turns on, and whether the data has any
/// input variable for the ratio search to whiten.
#[derive(Clone, Copy, Debug, PartialEq, Eq)]
pub struct StageFlags {
    pub powerlaw_stage: bool,
    pub ratio_search: bool,
    pub rational_stage: bool,
    pub has_variables: bool,
}

/// Where the pipeline stands: the stage whose work was handed out last,
/// the ratio probes prepared and run, and which stages solved the data.
#[derive(Clone, Copy, Debug, PartialEq, Eq)]
pub struct FableState {
    pub stage: FableStage,
    pub n_probes: usize,
    pub probe: usize,
    pub ratio_solved: bool,
    pub rational_solved: bool,
}

/// What the outcome of the last piece of work tells the pipeline.
#[derive(Clone, Copy, Debug, PartialEq, Eq)]
pub struct StageReport {
    /// The best error of the pool now (`pool_best`).
    pub best_error: u64,
    /// The last piece of work added a candidate within the exit error.
    pub added_solved: bool,
    /// How many ratio probes were prepared (read after `PrepareRatios`).
    pub probes: usize,
    /// The deadline of the ratio stage has passed.
    pub deadline_passed: bool,
    /// The last beam search ended in an error.
    pub beam_failed: bool,
    /// The pool holds no candidate.
    pub pool_empty: bool,
}

/// The next piece of work of the pipeline.
#[derive(Clone, Copy, Debug, PartialEq, Eq)]
pub enum FableAction {
    /// Run Stage A on the raw target and pool its fits.
    RunPowerLaw,
    /// Prepare the ratio probes (at most `max_probes`) of Stage C.
    PrepareRatios,
    /// Run Stage A on the ratio of the given probe; pool `whitener * fit`.
    ProbeRatio(usize),
    /// Run the beam search on the first probe's ratio; pool `whitener * g`.
    RatioBeam,
    /// Run Stage A2 and pool its fits.
    RunRational,
    /// Run the beam search on the raw target and pool its front.
    RunBeam,
    /// Boost the best candidate on its residual.
    Boost,
    /// Polish, filter and merge the pool: the answer.
    Finish,
    /// Answer with the beam search's error.
    ReturnBeamError,
    /// Answer that nothing was found.
    NotFound,
    /// The answer has been given.
    Halt,
}

/// The state with the given stage.
pub open spec fn at_stage(s: FableState, stage: FableStage) -> FableState {
    FableState { stage, ..s }
}

/// After the beam stage (run or skipped): boost and finish, or report that
/// the pool is empty.
pub open spec fn spec_after_beam(s: FableState, f: StageFlags, pool_empty: bool) -> (FableState, FableAction) {
    if pool_empty {
        (at_stage(s, FableStage::Done), FableAction::NotFound)
    } else if f.powerlaw_stage {
        (at_stage(s, FableStage::Boost), FableAction::Boost)
    } else {
        (at_stage(s, FableStage::Done), FableAction::Finish)
    }
}

/// Stage B runs unless the ratio or the rational stage solved the data.
pub open spec fn spec_beam_or_next(s: FableState, f: StageFlags, pool_empty: bool) -> (FableState, FableAction) {
    if !s.ratio_solved && !s.rational_solved {
        (at_stage(s, FableStage::Beam), FableAction::RunBeam)
    } else {
        spec_after_beam(s, f, pool_empty)
    }
}

/// Stage A2 runs when turned on and the ratio stage did not solve the data.
pub open spec fn spec_after_ratio(s: FableState, f: StageFlags, pool_empty: bool) -> (FableState, FableAction) {
    if f.rational_stage && !s.ratio_solved {
        (at_stage(s, FableStage::Rational), FableAction::RunRational)
    } else {
        spec_beam_or_next(s, f, pool_empty)
    }
}

/// Inside Stage C: the next probe while probes remain, nothing solved and
/// the deadline has not passed; then the beam on the first ratio while
/// unsolved.
pub open spec fn spec_probe_or_next(s: FableState, f: StageFlags, rep: StageReport) -> (FableState, FableAction) {
    if f.powerlaw_stage && s.probe < s.n_probes && !s.ratio_solved && !rep.deadline_passed {
        (at_stage(s, FableStage::RatioProbe), FableAction::ProbeRatio(s.probe))
    } else if !s.ratio_solved && s.n_probes > 0 {
        (at_stage(s, FableStage::RatioBeam), FableAction::RatioBeam)
    } else {
        spec_after_ratio(s, f, rep.pool_empty)
    }
}

/// After Stage A: finish at once when the pool's best error is within the
/// exit error; otherwise go on with Stage C when it applies.
pub open spec fn spec_after_powerlaw(s: FableState, f: StageFlags, rep: StageReport, exit: u64) -> (FableState, FableAction) {
    if at_most(rep.best_error, exit) {
        (at_stage(s, FableStage::Done), FableAction::Finish)
    } else if f.ratio_search && f.has_variables {
        (at_stage(s, FableStage::RatioPrepare), FableAction::PrepareRatios)
    } else {
        spec_after_ratio(s, f, rep.pool_empty)
    }
}

/// One step of the pipeline: from where it stands and what the last piece
/// of work reported, the next state and piece of work.
pub open spec fn spec_fable_step(s: FableState, f: StageFlags, rep: StageReport, exit: u64) -> (FableState, FableAction) {
    match s.stage {
        FableStage::Start => if f.powerlaw_stage {
            (at_stage(s, FableStage::PowerLaw), FableAction::RunPowerLaw)
        } else {
            spec_after_powerlaw(s, f, rep, exit)
        },
        FableStage::PowerLaw => spec_after_powerlaw(s, f, rep, exit),
        FableStage::RatioPrepare => {
            let n = if rep.probes <= max_probes() { rep.probes } else { max_probes() as usize };
            spec_probe_or_next(FableState { n_probes: n, probe: 0, ..s }, f, rep)
        },
        FableStage::RatioProbe => spec_probe_or_next(
            FableState { probe: (s.probe + 1) as usize, ratio_solved: s.ratio_solved || rep.added_solved, ..s },
            f,
            rep,
        ),
        FableStage::RatioBeam => spec_after_ratio(
            FableState { ratio_solved: s.ratio_solved || rep.added_solved, ..s },
            f,
            rep.pool_empty,
        ),
        FableStage::Rational => spec_beam_or_next(
            FableState { rational_solved: rep.added_solved, ..s },
            f,
            rep.pool_empty,
        ),
        FableStage::Beam => if rep.beam_failed && rep.pool_empty {
            (at_stage(s, FableStage::Done), FableAction::ReturnBeamError)
        } else {
            spec_after_beam(s, f, rep.pool_empty)
        },
        FableStage::Boost => (at_stage(s, FableStage::Done), FableAction::Finish),
        FableStage::Done => (s, FableAction::Halt),
    }
}

/// A state the pipeline can be in: at most `max_probes` probes prepared,
/// no more run than prepared, and a probe under way is one of them.
pub open spec fn fable_state_ok(s: FableState) -> bool {
    &&& s.n_probes <= max_probes()
    &&& s.probe <= s.n_probes
    &&& s.stage is RatioProbe ==> s.probe < s.n_probes
}

/// The place of a stage in the pipeline's order.
pub open spec fn stage_rank(stage: FableStage) -> int {
    match stage {
        FableStage::Start => 0,
        FableStage::PowerLaw => 1,
        FableStage::RatioPrepare => 2,
        FableStage::RatioProbe => 3,
        FableStage::RatioBeam => 4,
        FableStage::Rational => 5,
        FableStage::Beam => 6,
        FableStage::Boost => 7,
        FableStage::Done => 8,
    }
}

/// How far the pipeline has come: its stage, and within the probes of
/// Stage C the probe under way.
pub open spec fn progress(s: FableState) -> int {
    stage_rank(s.stage) * 8 + if s.stage is RatioProbe {
        s.probe as int
    } else {
        0
    }
}

/// The pipeline only moves forward: every step from a state it can be in
/// leads to such a state further along its order (stages never repeat, but
/// for one probe after another), until it is done; once done it stays done
/// and has nothing left to do. Since `progress` is at most 64, every run
/// ends after at most 64 steps.
pub proof fn law_fable_progress(s: FableState, f: StageFlags, rep: StageReport, exit: u64)
    requires
        fable_state_ok(s),
    ensures
        fable_state_ok(spec_fable_step(s, f, rep, exit).0),
        0 <= progress(s) <= 64,
        s.stage != FableStage::Done ==> progress(spec_fable_step(s, f, rep, exit).0) > progress(s),
        s.stage == FableStage::Done ==> spec_fable_step(s, f, rep, exit) == (s, FableAction::Halt),
{
}

/// When Stage A already reaches the exit error, the pipeline finishes at
/// once, running no later stage.
pub proof fn law_stage_a_solved_finishes(s: FableState, f: StageFlags, rep: StageReport, exit: u64)
    requires
        s.stage == FableStage::PowerLaw || (s.stage == FableStage::Start && !f.powerlaw_stage),
        at_most(rep.best_error, exit),
    ensures
        spec_fable_step(s, f, rep, exit).1 == FableAction::Finish,
        spec_fable_step(s, f, rep, exit).0.stage == FableStage::Done,
{
}

/// Stage gating: Stage A2 runs only while the ratio stage has not solved
/// the data, Stage B only while neither it nor Stage A2 has, a ratio probe
/// only within the prepared probes and before the deadline, and every
/// answer ends the run.
pub proof fn law_fable_gating(s: FableState, f: StageFlags, rep: StageReport, exit: u64)
    requires
        fable_state_ok(s),
    ensures
        ({
            let (n, a) = spec_fable_step(s, f, rep, exit);
            &&& a == FableAction::RunRational ==> f.rational_stage && !n.ratio_solved
            &&& a == FableAction::RunBeam ==> !n.ratio_solved && !n.rational_solved
            &&& a == FableAction::RunPowerLaw || a == FableAction::Boost ==> f.powerlaw_stage
            &&& a == FableAction::PrepareRatios ==> f.ratio_search && f.has_variables
            &&& (a matches FableAction::ProbeRatio(k) ==> k == n.probe && k < n.n_probes
                && f.powerlaw_stage && !rep.deadline_passed && !n.ratio_solved)
            &&& (a == FableAction::Finish || a == FableAction::NotFound
                || a == FableAction::ReturnBeamError) ==> n.stage == FableStage::Done
            &&& a == FableAction::NotFound ==> rep.pool_empty
            &&& a == FableAction::ReturnBeamError ==> rep.pool_empty && rep.beam_failed
        }),
{
}

/// The state before the pipeline starts.
pub fn fable_start() -> (s: FableState)
    ensures
        fable_state_ok(s),
        s == (FableState { stage: FableStage::Start, n_probes: 0, probe: 0, ratio_solved: false, rational_solved: false }),
{
    FableState { stage: FableStage::Start, n_probes: 0, probe: 0, ratio_solved: false, rational_solved: false }
}

fn after_beam(s: FableState, f: &StageFlags, pool_empty: bool) -> (r: (FableState, FableAction))
    ensures
        r == spec_after_beam(s, *f, pool_empty),
{
    if pool_empty {
        (FableState { stage: FableStage::Done, ..s }, FableAction::NotFound)
    } else if f.powerlaw_stage {
        (FableState { stage: FableStage::Boost, ..s }, FableAction::Boost)
    } else {
        (FableState { stage: FableStage::Done, ..s }, FableAction::Finish)
    }
}

fn beam_or_next(s: FableState, f: &StageFlags, pool_empty: bool) -> (r: (FableState, FableAction))
    ensures
        r == spec_beam_or_next(s, *f, pool_empty),
{
    if !s.ratio_solved && !s.rational_solved {
        (FableState { stage: FableStage::Beam, ..s }, FableAction::RunBeam)
    } else {
        after_beam(s, f, pool_empty)
    }
}

fn after_ratio(s: FableState, f: &StageFlags, pool_empty: bool) -> (r: (FableState, FableAction))
    ensures
        r == spec_after_ratio(s, *f, pool_empty),
{
    if f.rational_stage && !s.ratio_solved {
        (FableState { stage: FableStage::Rational, ..s }, FableAction::RunRational)
    } else {
        beam_or_next(s, f, pool_empty)
    }
}

fn probe_or_next(s: FableState, f: &StageFlags, rep: &StageReport) -> (r: (FableState, FableAction))
    ensures
        r == spec_probe_or_next(s, *f, *rep),
{
    if f.powerlaw_stage && s.probe < s.n_probes && !s.ratio_solved && !rep.deadline_passed {
        (FableState { stage: FableStage::RatioProbe, ..s }, FableAction::ProbeRatio(s.probe))
    } else if !s.ratio_solved && s.n_probes > 0 {
        (FableState { stage: FableStage::RatioBeam, ..s }, FableAction::RatioBeam)
    } else {
        after_ratio(s, f, rep.pool_empty)
    }
}

fn after_powerlaw(s: FableState, f: &StageFlags, rep: &StageReport, exit: u64) -> (r: (FableState, FableAction))
    ensures
        r == spec_after_powerlaw(s, *f, *rep, exit),
{
    if error_at_most(rep.best_error, exit) {
        (FableState { stage: FableStage::Done, ..s }, FableAction::Finish)
    } else if f.ratio_search && f.has_variables {
        (FableState { stage: FableStage::RatioPrepare, ..s }, FableAction::PrepareRatios)
    } else {
        after_ratio(s, f, rep.pool_empty)
    }
}

/// One step of the pipeline (`run_fable`'s decisions): given where the
/// pipeline stands, which stages are on, what the last piece of work
/// reported and the exit error (`early_exit_threshold * std(y)`), the next
/// state and piece of work.
pub fn fable_step(s: &FableState, f: &StageFlags, rep: &StageReport, exit: u64) -> (r: (FableState, FableAction))
    requires
        fable_state_ok(*s),
    ensures
        r == spec_fable_step(*s, *f, *rep, exit),
        fable_state_ok(r.0),
{
    proof {
        law_fable_progress(*s, *f, *rep, exit);
    }
    let s = *s;
    match s.stage {
        FableStage::Start => if f.powerlaw_stage {
            (FableState { stage: FableStage::PowerLaw, ..s }, FableAction::RunPowerLaw)
        } else {
            after_powerlaw(s, f, rep, exit)
        },
        FableStage::PowerLaw => after_powerlaw(s, f, rep, exit),
        FableStage::RatioPrepare => {
            let n: usize = if rep.probes <= 5 { rep.probes } else { 5 };
            probe_or_next(FableState { n_probes: n, probe: 0, ..s }, f, rep)
        },
        FableStage::RatioProbe => probe_or_next(
            FableState { probe: s.probe + 1, ratio_solved: s.ratio_solved || rep.added_solved, ..s },
            f,
            rep,
        ),
        FableStage::RatioBeam => after_ratio(
            FableState { ratio_solved: s.ratio_solved || rep.added_solved, ..s },
            f,
            rep.pool_empty,
        ),
        FableStage::Rational => beam_or_next(
            FableState { rational_solved: rep.added_solved, ..s },
            f,
            rep.pool_empty,
        ),
        FableStage::Beam => if rep.beam_failed && rep.pool_empty {
            (FableState { stage: FableStage::Done, ..s }, FableAction::ReturnBeamError)
        } else {
            after_beam(s, f, rep.pool_empty)
        },
        FableStage::Boost => (FableState { stage: FableStage::Done, ..s }, FableAction::Finish),
        FableStage::Done => (s, FableAction::Halt),
    }
}

} // verus!
