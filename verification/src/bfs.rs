//! Beam-search bookkeeping on prediction vectors: behavior keys that bucket
//! candidates by the shape of their predictions, so that affine variants of
//! one building block share a bucket while different shapes do not.
//!
//! Predictions are given as IEEE-754 bit patterns; the key depends only on
//! how the predictions compare with each other.

use vstd::prelude::*;

use crate::builder::{apply_binary, apply_unary, canonical, spec_apply_binary, spec_apply_unary};
use crate::expression::{params_shiftable, ExprView, Expression, NodeView};
use crate::fable::deadline_passed;
use crate::pareto::{
    at_most, complexity_of, error_at_most, law_offer_at_least_as_good, law_offer_keeps_slots, offer, EntryView, Front,
};
use crate::registry::{ids_with_arity, lemma_ids_with_arity, OperatorRegistry};
use std::time::Instant;

verus! {

/// The sign bit of an IEEE-754 double.
pub open spec fn sign_mask() -> u64 {
    0x8000_0000_0000_0000
}

/// A number that orders IEEE-754 doubles (not NaN) the way `<` does:
/// positive values by their bit pattern, negative values by their negated
/// magnitude pattern (so -0.0 and +0.0 coincide).
pub open spec fn order_value(bits: u64) -> int {
    if bits >= sign_mask() {
        -((bits - sign_mask()) as int)
    } else {
        bits as int
    }
}

/// Order values closer than this (in units in the last place) count as
/// tied: far above the rounding noise of an affine map, far below the
/// spacing of predictions that really differ.
pub open spec fn tie_width() -> int {
    0x100_0000
}

/// `a` lies clearly below `b`.
pub open spec fn clearly_below(a: int, b: int) -> bool {
    a + tie_width() < b
}

/// Number of entries of `s[..k]` clearly below `x`.
pub open spec fn count_below(s: Seq<int>, x: int, k: nat) -> nat
    decreases k,
{
    if k == 0 || k > s.len() {
        0
    } else {
        count_below(s, x, (k - 1) as nat) + if clearly_below(s[k - 1], x) {
            1nat
        } else {
            0nat
        }
    }
}

/// Number of entries of `s[..k]` clearly above `x`.
pub open spec fn count_above(s: Seq<int>, x: int, k: nat) -> nat
    decreases k,
{
    if k == 0 || k > s.len() {
        0
    } else {
        count_above(s, x, (k - 1) as nat) + if clearly_below(x, s[k - 1]) {
            1nat
        } else {
            0nat
        }
    }
}

/// For each entry, how many entries lie clearly below it.
pub open spec fn ranks_below(s: Seq<int>) -> Seq<nat> {
    Seq::new(s.len(), |i: int| count_below(s, s[i], s.len()))
}

/// For each entry, how many entries lie clearly above it.
pub open spec fn ranks_above(s: Seq<int>) -> Seq<nat> {
    Seq::new(s.len(), |i: int| count_above(s, s[i], s.len()))
}

/// `a` is lexicographically no greater than `b` (equal lengths).
pub open spec fn lex_le(a: Seq<nat>, b: Seq<nat>) -> bool
    decreases a.len(),
{
    if a.len() == 0 || b.len() == 0 {
        true
    } else if a[0] != b[0] {
        a[0] < b[0]
    } else {
        lex_le(a.drop_first(), b.drop_first())
    }
}

/// The order values of a prediction vector.
pub open spec fn order_values(preds: Seq<u64>) -> Seq<int> {
    preds.map_values(|b: u64| order_value(b))
}

/// The behavior key: the lexicographically smaller of the "entries below"
/// and "entries above" rank vectors. Reversing the order of the
/// predictions swaps the two, so the key is blind to the direction.
pub open spec fn spec_behavior_key(preds: Seq<u64>) -> Seq<nat> {
    let s = order_values(preds);
    if lex_le(ranks_below(s), ranks_above(s)) {
        ranks_below(s)
    } else {
        ranks_above(s)
    }
}

/// The order value of one prediction.
pub(crate) fn order_of(bits: u64) -> (r: i128)
    ensures
        r as int == order_value(bits),
{
    if bits >= 0x8000_0000_0000_0000 {
        let m: u64 = bits - 0x8000_0000_0000_0000;
        -(m as i128)
    } else {
        bits as i128
    }
}

/// Behavior key of a prediction vector (bit patterns of the predictions).
/// Predictions that are increasing or decreasing transforms of each other —
/// affine variants `a*f + b` in particular — share a key; predictions that
/// order the data points differently get different keys. Predictions
/// within `tie_width` units in the last place of each other count as tied.
pub fn behavior_key(preds: &[u64]) -> (r: Vec<usize>)
    ensures
        r@.len() == preds@.len(),
        forall|i: int| 0 <= i < r@.len() ==> r@[i] as nat == #[trigger] spec_behavior_key(preds@)[i],
{
    let n = preds.len();
    let ghost s = order_values(preds@);
    let mut vals: Vec<i128> = Vec::with_capacity(n);
    let mut i: usize = 0;
    while i < n
        invariant
            n == preds@.len(),
            i <= n,
            s == order_values(preds@),
            vals@.len() == i,
            forall|j: int| 0 <= j < i ==> vals@[j] as int == #[trigger] s[j],
            forall|j: int| 0 <= j < i ==> -0x8000_0000_0000_0000 <= #[trigger] vals@[j] <= 0x8000_0000_0000_0000,
        decreases n - i,
    {
        vals.push(order_of(preds[i]));
        i += 1;
    }
    let mut below: Vec<usize> = Vec::with_capacity(n);
    let mut above: Vec<usize> = Vec::with_capacity(n);
    let mut a: usize = 0;
    while a < n
        invariant
            n == preds@.len(),
            s == order_values(preds@),
            vals@.len() == n,
            forall|j: int| 0 <= j < n ==> vals@[j] as int == #[trigger] s[j],
            forall|j: int| 0 <= j < n ==> -0x8000_0000_0000_0000 <= #[trigger] vals@[j] <= 0x8000_0000_0000_0000,
            a <= n,
            below@.len() == a,
            above@.len() == a,
            forall|j: int| 0 <= j < a ==> below@[j] as nat == #[trigger] ranks_below(s)[j],
            forall|j: int| 0 <= j < a ==> above@[j] as nat == #[trigger] ranks_above(s)[j],
        decreases n - a,
    {
        let x = vals[a];
        let mut lo: usize = 0;
        let mut hi: usize = 0;
        let mut b: usize = 0;
        while b < n
            invariant
                n == preds@.len(),
                s.len() == n,
                vals@.len() == n,
                forall|j: int| 0 <= j < n ==> vals@[j] as int == #[trigger] s[j],
                forall|j: int| 0 <= j < n ==> -0x8000_0000_0000_0000 <= #[trigger] vals@[j] <= 0x8000_0000_0000_0000,
                -0x8000_0000_0000_0000 <= x <= 0x8000_0000_0000_0000,
                b <= n,
                x as int == s[a as int],
                a < n,
                lo as nat == count_below(s, x as int, b as nat),
                hi as nat == count_above(s, x as int, b as nat),
                lo <= b,
                hi <= b,
            decreases n - b,
        {
            let v = vals[b];
            if v + 0x100_0000 < x {
                lo += 1;
            }
            if x + 0x100_0000 < v {
                hi += 1;
            }
            b += 1;
        }
        below.push(lo);
        above.push(hi);
        a += 1;
    }
    // Lexicographic choice between the two rank vectors.
    let mut k: usize = 0;
    while k < n && below[k] == above[k]
        invariant
            below@.len() == n,
            above@.len() == n,
            k <= n,
            forall|j: int| 0 <= j < k ==> below@[j] == above@[j],
        decreases n - k,
    {
        k += 1;
    }
    let take_below = k == n || below[k] < above[k];
    proof {
        let lb = ranks_below(s);
        let la = ranks_above(s);
        assert(lex_le(lb, la) == take_below) by {
            lemma_lex_le_first_diff(lb, la, k as int);
        }
    }
    if take_below {
        below
    } else {
        above
    }
}

/// `lex_le` is decided by the first position where the sequences differ.
pub proof fn lemma_lex_le_first_diff(a: Seq<nat>, b: Seq<nat>, k: int)
    requires
        a.len() == b.len(),
        0 <= k <= a.len(),
        forall|j: int| 0 <= j < k ==> a[j] == b[j],
        k < a.len() ==> a[k] != b[k],
    ensures
        lex_le(a, b) == (k == a.len() || a[k] < b[k]),
    decreases a.len(),
{
    if a.len() > 0 && k > 0 {
        assert(a[0] == b[0]);
        lemma_lex_le_first_diff(a.drop_first(), b.drop_first(), k - 1);
    }
}

} // verus!

verus! {

/// `s` and `t` order their entries the same way (ties included).
pub open spec fn same_order(s: Seq<int>, t: Seq<int>) -> bool {
    &&& s.len() == t.len()
    &&& forall|i: int, j: int|
        0 <= i < s.len() && 0 <= j < s.len() ==> clearly_below(#[trigger] s[i], #[trigger] s[j])
            == clearly_below(t[i], t[j])
}

/// `t` orders its entries the opposite way from `s` (ties included).
pub open spec fn reversed_order(s: Seq<int>, t: Seq<int>) -> bool {
    &&& s.len() == t.len()
    &&& forall|i: int, j: int|
        0 <= i < s.len() && 0 <= j < s.len() ==> clearly_below(#[trigger] s[i], #[trigger] s[j])
            == clearly_below(t[j], t[i])
}

proof fn lemma_counts_same(s: Seq<int>, t: Seq<int>, i: int, k: nat)
    requires
        same_order(s, t),
        0 <= i < s.len(),
        k <= s.len(),
    ensures
        count_below(s, s[i], k) == count_below(t, t[i], k),
        count_above(s, s[i], k) == count_above(t, t[i], k),
    decreases k,
{
    if k > 0 {
        lemma_counts_same(s, t, i, (k - 1) as nat);
        let j = k - 1;
        assert(clearly_below(s[j], s[i]) == clearly_below(t[j], t[i]));
        assert(clearly_below(s[i], s[j]) == clearly_below(t[i], t[j]));
    }
}

proof fn lemma_counts_reversed(s: Seq<int>, t: Seq<int>, i: int, k: nat)
    requires
        reversed_order(s, t),
        0 <= i < s.len(),
        k <= s.len(),
    ensures
        count_below(s, s[i], k) == count_above(t, t[i], k),
        count_above(s, s[i], k) == count_below(t, t[i], k),
    decreases k,
{
    if k > 0 {
        lemma_counts_reversed(s, t, i, (k - 1) as nat);
        let j = k - 1;
        assert(clearly_below(s[j], s[i]) == clearly_below(t[i], t[j]));
        assert(clearly_below(s[i], s[j]) == clearly_below(t[j], t[i]));
    }
}

/// `lex_le` is a total order on sequences of equal length.
proof fn lemma_lex_total(a: Seq<nat>, b: Seq<nat>)
    requires
        a.len() == b.len(),
    ensures
        lex_le(a, b) || lex_le(b, a),
        lex_le(a, b) && lex_le(b, a) ==> a == b,
    decreases a.len(),
{
    if a.len() > 0 {
        lemma_lex_total(a.drop_first(), b.drop_first());
        if lex_le(a, b) && lex_le(b, a) {
            assert(a[0] == b[0]);
            assert(a =~= seq![a[0]] + a.drop_first());
            assert(b =~= seq![b[0]] + b.drop_first());
        }
    } else {
        assert(a =~= b);
    }
}

/// Predictions that order the data points the same way, or exactly the
/// opposite way (such as `f` and `a*f + b` for any `a != 0`, up to ties),
/// get the same behavior key.
pub proof fn law_behavior_key_order_invariant(p: Seq<u64>, q: Seq<u64>)
    requires
        same_order(order_values(p), order_values(q)) || reversed_order(
            order_values(p),
            order_values(q),
        ),
    ensures
        spec_behavior_key(p) == spec_behavior_key(q),
{
    let s = order_values(p);
    let t = order_values(q);
    if same_order(s, t) {
        assert forall|i: int| 0 <= i < s.len() implies ranks_below(s)[i] == ranks_below(t)[i]
            && ranks_above(s)[i] == ranks_above(t)[i] by {
            lemma_counts_same(s, t, i, s.len());
        }
        assert(ranks_below(s) =~= ranks_below(t));
        assert(ranks_above(s) =~= ranks_above(t));
    } else {
        assert forall|i: int| 0 <= i < s.len() implies ranks_below(s)[i] == ranks_above(t)[i]
            && ranks_above(s)[i] == ranks_below(t)[i] by {
            lemma_counts_reversed(s, t, i, s.len());
        }
        assert(ranks_below(s) =~= ranks_above(t));
        assert(ranks_above(s) =~= ranks_below(t));
        lemma_lex_total(ranks_below(s), ranks_above(s));
    }
}

} // verus!

verus! {

/// `a` comes after `b` in lexicographic order of characters.
pub open spec fn text_after(a: Seq<char>, b: Seq<char>) -> bool
    decreases a.len(),
{
    if a.len() == 0 {
        false
    } else if b.len() == 0 {
        true
    } else if a[0] != b[0] {
        (a[0] as u32) > (b[0] as u32)
    } else {
        text_after(a.drop_first(), b.drop_first())
    }
}

/// Whether `a` comes after `b` in lexicographic order of characters (the
/// order of `str`'s `>`).
pub fn str_after(a: &str, b: &str) -> (r: bool)
    ensures
        r == text_after(a@, b@),
{
    let la = a.unicode_len();
    let lb = b.unicode_len();
    let mut i: usize = 0;
    assert(a@.skip(0) =~= a@);
    assert(b@.skip(0) =~= b@);
    while i < la && i < lb && a.get_char(i) == b.get_char(i)
        invariant
            la == a@.len(),
            lb == b@.len(),
            i <= la,
            i <= lb,
            forall|j: int| 0 <= j < i ==> a@[j] == b@[j],
            text_after(a@, b@) == text_after(a@.skip(i as int), b@.skip(i as int)),
        decreases la - i,
    {
        proof {
            let sa = a@.skip(i as int);
            let sb = b@.skip(i as int);
            assert(sa.drop_first() =~= a@.skip(i + 1));
            assert(sb.drop_first() =~= b@.skip(i + 1));
            assert(sa[0] == a@[i as int]);
            assert(sb[0] == b@[i as int]);
        }
        i += 1;
    }
    if i == la {
        proof {
            assert(a@.skip(i as int).len() == 0);
        }
        false
    } else if i == lb {
        proof {
            assert(b@.skip(i as int).len() == 0);
        }
        true
    } else {
        let ca = a.get_char(i);
        let cb = b.get_char(i);
        proof {
            assert(a@.skip(i as int)[0] == ca);
            assert(b@.skip(i as int)[0] == cb);
        }
        (ca as u32) > (cb as u32)
    }
}

} // verus!

verus! {

/// Every expression of the list is canonical.
pub open spec fn all_canonical(s: Seq<Expression>, names: Seq<Seq<char>>) -> bool {
    forall|q: int| 0 <= q < s.len() ==> canonical(#[trigger] s[q], names)
}

/// The values of a list of expressions.
pub open spec fn exprs_view(s: Seq<Expression>) -> Seq<ExprView> {
    s.map_values(|e: Expression| e@)
}

proof fn lemma_exprs_view_push(s: Seq<Expression>, e: Expression)
    ensures
        exprs_view(s.push(e)) =~= exprs_view(s).push(e@),
{
}

/// Every child extended by every listed unary operator, child by child.
pub open spec fn unary_expansions(names: Seq<Seq<char>>, ids: Seq<u8>, cs: Seq<ExprView>) -> Seq<
    ExprView,
>
    decreases cs.len(),
{
    if cs.len() == 0 {
        Seq::empty()
    } else {
        unary_expansions(names, ids, cs.drop_last()) + unary_row(names, ids, cs.last())
    }
}

/// `c` under every listed unary operator, in order.
pub open spec fn unary_row(names: Seq<Seq<char>>, ids: Seq<u8>, c: ExprView) -> Seq<ExprView>
    decreases ids.len(),
{
    if ids.len() == 0 {
        Seq::empty()
    } else {
        unary_row(names, ids.drop_last(), c).push(spec_apply_unary(names, ids.last(), c))
    }
}

/// Whether the expression refers to no input variable.
pub open spec fn view_scalar_only(s: Seq<NodeView>) -> bool {
    forall|i: int| 0 <= i < s.len() ==> !(s[i] is Var)
}

/// The beam admits `l op r`: `Pow` only takes input-free exponents, and a
/// commutative operator on two operands from the same level only takes them
/// in display order.
pub open spec fn admits(
    names: Seq<Seq<char>>,
    commutative: Seq<bool>,
    id: u8,
    l: ExprView,
    r: ExprView,
    same_level: bool,
) -> bool {
    &&& !(names[id as int] == "Pow"@ && !view_scalar_only(r.nodes))
    &&& !(commutative[id as int] && same_level && text_after(l.display, r.display))
}

/// `l op r` for every admitted operator of `ids`, in order.
pub open spec fn binary_cell(
    names: Seq<Seq<char>>,
    commutative: Seq<bool>,
    ids: Seq<u8>,
    l: ExprView,
    r: ExprView,
    same_level: bool,
) -> Seq<ExprView>
    decreases ids.len(),
{
    if ids.len() == 0 {
        Seq::empty()
    } else {
        let id = ids.last();
        binary_cell(names, commutative, ids.drop_last(), l, r, same_level) + if admits(
            names,
            commutative,
            id,
            l,
            r,
            same_level,
        ) {
            seq![spec_apply_binary(names, id, l, r)]
        } else {
            Seq::empty()
        }
    }
}

/// The cells of `l` with every right operand, in order.
pub open spec fn binary_row(
    names: Seq<Seq<char>>,
    commutative: Seq<bool>,
    ids: Seq<u8>,
    l: ExprView,
    rs: Seq<ExprView>,
    same_level: bool,
) -> Seq<ExprView>
    decreases rs.len(),
{
    if rs.len() == 0 {
        Seq::empty()
    } else {
        binary_row(names, commutative, ids, l, rs.drop_last(), same_level) + binary_cell(
            names,
            commutative,
            ids,
            l,
            rs.last(),
            same_level,
        )
    }
}

/// The rows of every left operand, in order.
pub open spec fn binary_expansions(
    names: Seq<Seq<char>>,
    commutative: Seq<bool>,
    ids: Seq<u8>,
    ls: Seq<ExprView>,
    rs: Seq<ExprView>,
    same_level: bool,
) -> Seq<ExprView>
    decreases ls.len(),
{
    if ls.len() == 0 {
        Seq::empty()
    } else {
        binary_expansions(names, commutative, ids, ls.drop_last(), rs, same_level) + binary_row(
            names,
            commutative,
            ids,
            ls.last(),
            rs,
            same_level,
        )
    }
}

/// The unary candidates of one beam level: every child under every unary
/// operator of the registry.
#[verifier::spinoff_prover]
#[verifier::rlimit(30)]
pub fn unary_candidates(children: &[Expression], reg: &OperatorRegistry) -> (r: Vec<Expression>)
    ensures
        exprs_view(r@) == unary_expansions(
            reg.names(),
            ids_with_arity(reg.arities(), 1),
            exprs_view(children@),
        ),
        all_canonical(children@, reg.names()) ==> all_canonical(r@, reg.names()),
{
    let ghost names = reg.names();
    let _n = reg.len();
    let ids = reg.ids_by_arity(1);
    proof {
        lemma_ids_with_arity(reg.arities(), 1);
    }
    let mut out: Vec<Expression> = Vec::new();
    let mut c: usize = 0;
    while c < children.len()
        invariant
            names == reg.names(),
            ids@ == ids_with_arity(reg.arities(), 1),
            reg.arities().len() == names.len(),
            forall|k: int| 0 <= k < ids@.len() ==> (#[trigger] ids@[k]) < names.len(),
            c <= children@.len(),
            exprs_view(out@) == unary_expansions(names, ids@, exprs_view(children@.take(c as int))),
            all_canonical(children@, names) ==> all_canonical(out@, names),
        decreases children@.len() - c,
    {
        let ghost before = exprs_view(out@);
        let mut k: usize = 0;
        while k < ids.len()
            invariant
                names == reg.names(),
                forall|q: int| 0 <= q < ids@.len() ==> (#[trigger] ids@[q]) < names.len(),
                c < children@.len(),
                k <= ids@.len(),
                exprs_view(out@) == before + unary_row(
                    names,
                    ids@.take(k as int),
                    children@[c as int]@,
                ),
                all_canonical(children@, names) ==> all_canonical(out@, names),
            decreases ids@.len() - k,
        {
            let ghost prev = out@;
            let e = apply_unary(ids[k], &children[c], reg);
            out.push(e);
            proof {
                if all_canonical(children@, names) {
                    assert(canonical(children@[c as int], names));
                    assert forall|q: int| 0 <= q < out@.len() implies canonical(#[trigger] out@[q], names) by {
                        if q < prev.len() {
                            assert(out@[q] == prev[q]);
                        }
                    }
                }
                lemma_exprs_view_push(prev, e);
                let t = ids@.take(k + 1);
                assert(t.drop_last() =~= ids@.take(k as int));
            }
            k += 1;
        }
        assert(ids@.take(ids@.len() as int) =~= ids@);
        proof {
            let cs = exprs_view(children@.take(c + 1));
            assert(cs.drop_last() =~= exprs_view(children@.take(c as int)));
            assert(cs.last() == children@[c as int]@);
        }
        c += 1;
    }
    assert(children@.take(children@.len() as int) =~= children@);
    out
}

/// The binary candidates of one beam level: `l op r` for every left operand,
/// right operand and binary operator of the registry that the beam admits.
#[verifier::spinoff_prover]
#[verifier::rlimit(30)]
pub fn binary_candidates(
    lefts: &[Expression],
    rights: &[Expression],
    same_level: bool,
    reg: &OperatorRegistry,
) -> (r: Vec<Expression>)
    requires
        forall|i: int, j: int|
            0 <= i < lefts@.len() && 0 <= j < rights@.len() ==> #[trigger] lefts@[i].param_count
                + #[trigger] rights@[j].param_count <= u8::MAX && params_shiftable(
                rights@[j].nodes@,
                lefts@[i].param_count as nat,
            ),
    ensures
        exprs_view(r@) == binary_expansions(
            reg.names(),
            reg.commutative(),
            ids_with_arity(reg.arities(), 2),
            exprs_view(lefts@),
            exprs_view(rights@),
            same_level,
        ),
        all_canonical(lefts@, reg.names()) && all_canonical(rights@, reg.names()) ==> all_canonical(
            r@,
            reg.names(),
        ),
{
    let ghost names = reg.names();
    let ghost comm = reg.commutative();
    let ghost canon = all_canonical(lefts@, reg.names()) && all_canonical(rights@, reg.names());
    let _n = reg.len();
    let ids = reg.ids_by_arity(2);
    proof {
        lemma_ids_with_arity(reg.arities(), 2);
        reveal_strlit("Pow");
    }
    let pow_name = String::from_str("Pow");
    let ghost rv = exprs_view(rights@);
    let mut out: Vec<Expression> = Vec::new();
    let mut a: usize = 0;
    while a < lefts.len()
        invariant
            names == reg.names(),
            comm == reg.commutative(),
            canon == (all_canonical(lefts@, names) && all_canonical(rights@, names)),
            canon ==> all_canonical(out@, names),
            pow_name@ == "Pow"@,
            rv == exprs_view(rights@),
            ids@ == ids_with_arity(reg.arities(), 2),
            comm.len() == names.len(),
            forall|k: int| 0 <= k < ids@.len() ==> (#[trigger] ids@[k]) < names.len(),
            forall|i: int, j: int|
                0 <= i < lefts@.len() && 0 <= j < rights@.len() ==> #[trigger] lefts@[i].param_count
                    + #[trigger] rights@[j].param_count <= u8::MAX && params_shiftable(
                    rights@[j].nodes@,
                    lefts@[i].param_count as nat,
                ),
            a <= lefts@.len(),
            exprs_view(out@) == binary_expansions(
                names,
                comm,
                ids@,
                exprs_view(lefts@.take(a as int)),
                rv,
                same_level,
            ),
        decreases lefts@.len() - a,
    {
        let ghost row_start = exprs_view(out@);
        let left = &lefts[a];
        let mut b: usize = 0;
        while b < rights.len()
            invariant
                names == reg.names(),
                comm == reg.commutative(),
                canon == (all_canonical(lefts@, names) && all_canonical(rights@, names)),
                canon ==> all_canonical(out@, names),
                pow_name@ == "Pow"@,
                rv == exprs_view(rights@),
                comm.len() == names.len(),
                forall|k: int| 0 <= k < ids@.len() ==> (#[trigger] ids@[k]) < names.len(),
                forall|i: int, j: int|
                    0 <= i < lefts@.len() && 0 <= j < rights@.len()
                        ==> #[trigger] lefts@[i].param_count + #[trigger] rights@[j].param_count
                        <= u8::MAX && params_shiftable(
                        rights@[j].nodes@,
                        lefts@[i].param_count as nat,
                    ),
                a < lefts@.len(),
                *left == lefts@[a as int],
                b <= rights@.len(),
                exprs_view(out@) == row_start + binary_row(
                    names,
                    comm,
                    ids@,
                    left@,
                    rv.take(b as int),
                    same_level,
                ),
            decreases rights@.len() - b,
        {
            let right = &rights[b];
            let ghost cell_start = exprs_view(out@);
            assert(canon ==> canonical(*left, names) && canonical(*right, names));
            let right_scalar = right.is_scalar_only();
            let ordered = str_after(left.display(), right.display());
            assert(lefts@[a as int].param_count + rights@[b as int].param_count <= u8::MAX);
            let mut k: usize = 0;
            while k < ids.len()
                invariant
                    names == reg.names(),
                    comm == reg.commutative(),
                    canon ==> canonical(*left, names) && canonical(*right, names),
                    canon ==> all_canonical(out@, names),
                    pow_name@ == "Pow"@,
                    comm.len() == names.len(),
                    forall|q: int| 0 <= q < ids@.len() ==> (#[trigger] ids@[q]) < names.len(),
                    left.param_count + right.param_count <= u8::MAX,
                    params_shiftable(right.nodes@, left.param_count as nat),
                    right_scalar == crate::expression::scalar_only(right.nodes@),
                    ordered == text_after(left@.display, right@.display),
                    k <= ids@.len(),
                    exprs_view(out@) == cell_start + binary_cell(
                        names,
                        comm,
                        ids@.take(k as int),
                        left@,
                        right@,
                        same_level,
                    ),
                decreases ids@.len() - k,
            {
                let id = ids[k];
                let meta = reg.meta(id);
                let is_pow = meta.name == pow_name;
                proof {
                    assert(view_scalar_only(right@.nodes) == crate::expression::scalar_only(
                        right.nodes@,
                    )) by {
                        if !crate::expression::scalar_only(right.nodes@) {
                            let i = choose|i: int|
                                0 <= i < right.nodes@.len() && (right.nodes@[i] is Var);
                            assert(right@.nodes[i] is Var);
                        }
                        if !view_scalar_only(right@.nodes) {
                            let i = choose|i: int| 0 <= i < right@.nodes.len() && (right@.nodes[i] is Var);
                            assert(right.nodes@[i] is Var);
                        }
                    }
                    let t = ids@.take(k + 1);
                    assert(t.drop_last() =~= ids@.take(k as int));
                    assert(t.last() == id);
                }
                let skip = (is_pow && !right_scalar) || (meta.is_commutative && same_level && ordered);
                assert(skip == !admits(names, comm, id, left@, right@, same_level));
                let ghost prev = out@;
                if !skip {
                    let e = apply_binary(id, left, right, reg);
                    out.push(e);
                    proof {
                        lemma_exprs_view_push(prev, e);
                        if canon {
                            assert forall|q: int| 0 <= q < out@.len() implies canonical(#[trigger] out@[q], names) by {
                                if q < prev.len() {
                                    assert(out@[q] == prev[q]);
                                }
                            }
                        }
                    }
                }
                k += 1;
                assert(exprs_view(out@) =~= cell_start + binary_cell(
                    names,
                    comm,
                    ids@.take(k as int),
                    left@,
                    right@,
                    same_level,
                ));
            }
            assert(ids@.take(ids@.len() as int) =~= ids@);
            proof {
                let t = rv.take(b + 1);
                assert(t.drop_last() =~= rv.take(b as int));
                assert(t.last() == right@);
            }
            b += 1;
            assert(exprs_view(out@) =~= row_start + binary_row(
                names,
                comm,
                ids@,
                left@,
                rv.take(b as int),
                same_level,
            ));
        }
        assert(rv.take(rv.len() as int) =~= rv);
        proof {
            let t = exprs_view(lefts@.take(a + 1));
            assert(t.drop_last() =~= exprs_view(lefts@.take(a as int)));
            assert(t.last() == lefts@[a as int]@);
        }
        a += 1;
        assert(exprs_view(out@) =~= binary_expansions(
            names,
            comm,
            ids@,
            exprs_view(lefts@.take(a as int)),
            rv,
            same_level,
        ));
    }
    assert(lefts@.take(lefts@.len() as int) =~= lefts@);
    out
}

} // verus!

verus! {

/// `count` rows spread evenly over `n`: row `i` is `i * n / count`.
pub fn evenly_spaced(n: usize, count: usize) -> (r: Vec<usize>)
    requires
        count <= n,
    ensures
        r@.len() == count,
        forall|i: int| 0 <= i < count ==> #[trigger] r@[i] as int == i * n / (count as int),
        forall|i: int| 0 <= i < count ==> #[trigger] r@[i] < n,
        forall|i: int, j: int| 0 <= i < j < count ==> #[trigger] r@[i] < #[trigger] r@[j],
{
    let mut r: Vec<usize> = Vec::with_capacity(count);
    let mut i: usize = 0;
    while i < count
        invariant
            count <= n,
            i <= count,
            r@.len() == i,
            forall|k: int| 0 <= k < i ==> #[trigger] r@[k] as int == k * n / (count as int),
        decreases count - i,
    {
        assert((i as int) * (n as int) <= u128::MAX) by (nonlinear_arith)
            requires
                i < count,
                count <= n,
                n <= usize::MAX,
                usize::MAX <= u64::MAX,
        ;
        let prod: u128 = (i as u128) * (n as u128);
        let q: u128 = prod / (count as u128);
        proof {
            assert(q <= n) by (nonlinear_arith)
                requires
                    q == prod / (count as u128),
                    prod == (i as int) * (n as int),
                    i < count,
            ;
        }
        r.push(q as usize);
        i += 1;
    }
    proof {
        assert forall|k: int| 0 <= k < count implies #[trigger] r@[k] < n by {
            assert(k * n / (count as int) < n) by (nonlinear_arith)
                requires
                    0 <= k < count,
                    count <= n,
            ;
        }
        assert forall|a: int, b: int| 0 <= a < b < count implies #[trigger] r@[a] < #[trigger] r@[b] by {
            assert(a * n / (count as int) < b * n / (count as int)) by (nonlinear_arith)
                requires
                    0 <= a < b,
                    0 < count <= n,
            {
                assert(b * n - a * n >= n);
                assert(b * n - a * n >= count);
            }
        }
    }
    r
}

/// The rows a search scores on: all `n` rows when `size` is zero, else
/// `min(n, size)` rows spread evenly.
pub fn subsample_rows(n: usize, size: usize) -> (r: Vec<usize>)
    ensures
        r@.len() == if size == 0 || n <= size {
            n
        } else {
            size
        },
        forall|i: int|
            0 <= i < r@.len() ==> #[trigger] r@[i] as int == i * n / (r@.len() as int),
        forall|i: int| 0 <= i < r@.len() ==> #[trigger] r@[i] < n,
        forall|i: int, j: int| 0 <= i < j < r@.len() ==> #[trigger] r@[i] < #[trigger] r@[j],
{
    let count = if size == 0 {
        n
    } else if n <= size {
        n
    } else {
        size
    };
    evenly_spaced(n, count)
}

/// How many of the first `k` selections fall in class `key`.
pub open spec fn class_count(keys: Seq<Option<Seq<i64>>>, picked: Seq<int>, key: Seq<i64>) -> nat
    decreases picked.len(),
{
    if picked.len() == 0 {
        0
    } else {
        class_count(keys, picked.drop_last(), key) + if keys[picked.last()] == Some(key) {
            1nat
        } else {
            0nat
        }
    }
}

/// Greedy beam selection over candidates listed best-first: a candidate
/// with a class key is taken while the beam has room and its class holds
/// fewer than `cap` members; a candidate without a key is passed over.
pub open spec fn beam_pick(keys: Seq<Option<Seq<i64>>>, width: nat, cap: nat) -> Seq<int>
    decreases keys.len(),
{
    if keys.len() == 0 {
        Seq::empty()
    } else {
        let prev = beam_pick(keys.drop_last(), width, cap);
        let i = keys.len() - 1;
        match keys[i] {
            Some(k) => if prev.len() < width && class_count(keys, prev, k) < cap {
                prev.push(i)
            } else {
                prev
            },
            None => prev,
        }
    }
}

proof fn lemma_class_count_prefix(keys: Seq<Option<Seq<i64>>>, more: Option<Seq<i64>>, picked: Seq<int>, key: Seq<i64>)
    requires
        forall|t: int| 0 <= t < picked.len() ==> 0 <= #[trigger] picked[t] < keys.len(),
    ensures
        class_count(keys.push(more), picked, key) == class_count(keys, picked, key),
    decreases picked.len(),
{
    if picked.len() > 0 {
        lemma_class_count_prefix(keys, more, picked.drop_last(), key);
    }
}

proof fn lemma_beam_pick_bounds(keys: Seq<Option<Seq<i64>>>, width: nat, cap: nat)
    ensures
        forall|t: int| 0 <= t < beam_pick(keys, width, cap).len() ==> 0 <= #[trigger] beam_pick(keys, width, cap)[t] < keys.len(),
        beam_pick(keys, width, cap).len() <= width,
    decreases keys.len(),
{
    if keys.len() > 0 {
        lemma_beam_pick_bounds(keys.drop_last(), width, cap);
    }
}

/// Where class `key` sits in `classes`, if anywhere.
fn find_class(classes: &Vec<Vec<i64>>, key: &Vec<i64>) -> (r: Option<usize>)
    ensures
        match r {
            Some(c) => c < classes@.len() && classes@[c as int]@ == key@,
            None => forall|c: int| 0 <= c < classes@.len() ==> #[trigger] classes@[c]@ != key@,
        },
{
    let mut c: usize = 0;
    while c < classes.len()
        invariant
            c <= classes@.len(),
            forall|d: int| 0 <= d < c ==> #[trigger] classes@[d]@ != key@,
        decreases classes@.len() - c,
    {
        if same_key(&classes[c], key) {
            return Some(c);
        }
        c += 1;
    }
    None
}

/// The beam never holds more than `width` candidates, never two copies of
/// one position, and no class holds more than `cap` of them.
pub proof fn law_beam_bounded(keys: Seq<Option<Seq<i64>>>, width: nat, cap: nat, key: Seq<i64>)
    ensures
        beam_pick(keys, width, cap).len() <= width,
        class_count(keys, beam_pick(keys, width, cap), key) <= cap,
        forall|t: int, u: int|
            0 <= t < u < beam_pick(keys, width, cap).len() ==> #[trigger] beam_pick(
                keys,
                width,
                cap,
            )[t] < #[trigger] beam_pick(keys, width, cap)[u],
    decreases keys.len(),
{
    lemma_beam_pick_bounds(keys, width, cap);
    if keys.len() > 0 {
        let pre = keys.drop_last();
        law_beam_bounded(pre, width, cap, key);
        let prev = beam_pick(pre, width, cap);
        lemma_beam_pick_bounds(pre, width, cap);
        assert(keys =~= pre.push(keys.last()));
        lemma_class_count_prefix(pre, keys.last(), prev, key);
        let now = beam_pick(keys, width, cap);
        if now.len() > prev.len() {
            assert(now.drop_last() =~= prev);
        }
    }
}

/// Two class keys are equal.
fn same_key(a: &Vec<i64>, b: &Vec<i64>) -> (r: bool)
    ensures
        r == (a@ == b@),
{
    if a.len() != b.len() {
        return false;
    }
    let mut i: usize = 0;
    while i < a.len()
        invariant
            a@.len() == b@.len(),
            i <= a@.len(),
            forall|k: int| 0 <= k < i ==> a@[k] == b@[k],
        decreases a@.len() - i,
    {
        if a[i] != b[i] {
            return false;
        }
        i += 1;
    }
    assert(a@ =~= b@);
    true
}

/// The class keys of candidates, as values.
pub open spec fn key_views(keys: Seq<Option<Vec<i64>>>) -> Seq<Option<Seq<i64>>> {
    keys.map_values(|k: Option<Vec<i64>>| match k {
        Some(v) => Some(v@),
        None => None,
    })
}

/// Beam selection with class diversity: the positions, in the best-first
/// candidate list, of the candidates that enter a beam of `width` members in
/// which no class (affine-class key) holds more than `cap` members.
/// Candidates without a key (their predictions failed) are passed over.
#[verifier::spinoff_prover]
#[verifier::rlimit(30)]
pub fn select_beam(keys: &Vec<Option<Vec<i64>>>, width: usize, cap: usize) -> (r: Vec<usize>)
    ensures
        r@.len() == beam_pick(key_views(keys@), width as nat, cap as nat).len(),
        forall|t: int|
            0 <= t < r@.len() ==> #[trigger] r@[t] as int == beam_pick(
                key_views(keys@),
                width as nat,
                cap as nat,
            )[t],
{
    let ghost kv = key_views(keys@);
    let mut picked: Vec<usize> = Vec::new();
    let mut classes: Vec<Vec<i64>> = Vec::new();
    let mut counts: Vec<usize> = Vec::new();
    let mut i: usize = 0;
    while i < keys.len()
        invariant
            kv == key_views(keys@),
            i <= keys@.len(),
            picked@.len() == beam_pick(kv.take(i as int), width as nat, cap as nat).len(),
            forall|t: int|
                0 <= t < picked@.len() ==> #[trigger] picked@[t] as int == beam_pick(
                    kv.take(i as int),
                    width as nat,
                    cap as nat,
                )[t],
            classes@.len() == counts@.len(),
            forall|c: int|
                0 <= c < classes@.len() ==> #[trigger] counts@[c] as nat == class_count(
                    kv.take(i as int),
                    beam_pick(kv.take(i as int), width as nat, cap as nat),
                    classes@[c]@,
                ),
            forall|key: Seq<i64>|
                (forall|c: int| 0 <= c < classes@.len() ==> #[trigger] classes@[c]@ != key)
                    ==> #[trigger] class_count(
                    kv.take(i as int),
                    beam_pick(kv.take(i as int), width as nat, cap as nat),
                    key,
                ) == 0,
            forall|c: int| 0 <= c < classes@.len() ==> #[trigger] counts@[c] <= picked@.len(),
            forall|c: int, d: int|
                0 <= c < d < classes@.len() ==> #[trigger] classes@[c]@ != #[trigger] classes@[d]@,
            picked@.len() <= width,
        decreases keys@.len() - i,
    {
        let ghost pre = kv.take(i as int);
        let ghost prev = beam_pick(pre, width as nat, cap as nat);
        let ghost next = kv.take(i + 1);
        proof {
            assert(next.drop_last() =~= pre);
            lemma_beam_pick_bounds(pre, width as nat, cap as nat);
            assert forall|key: Seq<i64>| #[trigger] class_count(next, prev, key) == class_count(pre, prev, key) by {
                assert(next =~= pre.push(kv[i as int]));
                lemma_class_count_prefix(pre, kv[i as int], prev, key);
            }
        }
        let mut take = false;
        let mut slot: Option<usize> = None;
        let ghost old_classes = classes@;
        let ghost old_counts = counts@;
        if picked.len() < width {
            match &keys[i] {
                Some(key) => {
                    slot = find_class(&classes, key);
                    let count = match slot {
                        Some(c) => counts[c],
                        None => 0,
                    };
                    assert(kv[i as int] == Some(key@));
                    assert(count as nat == class_count(pre, prev, key@));
                    if count < cap {
                        take = true;
                        picked.push(i);
                        match slot {
                            Some(c) => {
                                counts.set(c, count + 1);
                            },
                            None => {
                                classes.push(key.clone());
                                counts.push(1);
                            },
                        }
                    }
                },
                None => {},
            }
        }
        proof {
            let now = beam_pick(next, width as nat, cap as nat);
            if take {
                assert(now =~= prev.push(i as int));
            } else {
                assert(now =~= prev);
            }
            assert forall|key: Seq<i64>| #[trigger] class_count(next, now, key) == class_count(pre, prev, key)
                + if take && kv[i as int] == Some(key) { 1int } else { 0int } by {
                assert(class_count(next, prev, key) == class_count(pre, prev, key));
                assert(next[i as int] == kv[i as int]);
                if take {
                    assert(now.drop_last() =~= prev);
                    assert(now.last() == i as int);
                }
            }
            assert forall|c: int| 0 <= c < classes@.len() implies #[trigger] counts@[c] as nat
                == class_count(next, now, classes@[c]@) by {
                assert(class_count(next, now, classes@[c]@) == class_count(pre, prev, classes@[c]@)
                    + if take && kv[i as int] == Some(classes@[c]@) { 1int } else { 0int });
                if c < old_classes.len() {
                    assert(classes@[c] == old_classes[c]);
                    if take {
                        match slot {
                            Some(c0) => {
                                if c != c0 as int {
                                    assert(old_classes[c]@ != old_classes[c0 as int]@);
                                }
                            },
                            None => {},
                        }
                    }
                } else {
                    assert(class_count(pre, prev, classes@[c]@) == 0);
                }
            }
            assert forall|key: Seq<i64>|
                (forall|c: int| 0 <= c < classes@.len() ==> #[trigger] classes@[c]@ != key)
                    implies #[trigger] class_count(next, now, key) == 0 by {
                assert(class_count(next, now, key) == class_count(pre, prev, key)
                    + if take && kv[i as int] == Some(key) { 1int } else { 0int });
                assert forall|c: int| 0 <= c < old_classes.len() implies #[trigger] old_classes[c]@ != key by {
                    assert(classes@[c] == old_classes[c]);
                }
                if take {
                    match slot {
                        Some(c0) => {
                            assert(classes@[c0 as int]@ != key);
                        },
                        None => {
                            assert(classes@[old_classes.len() as int]@ != key);
                        },
                    }
                }
            }
            assert forall|c: int, d: int|
                0 <= c < d < classes@.len() implies #[trigger] classes@[c]@ != #[trigger] classes@[d]@ by {
                if d >= old_classes.len() {
                    assert(classes@[c] == old_classes[c]);
                } else {
                    assert(classes@[c] == old_classes[c]);
                    assert(classes@[d] == old_classes[d]);
                }
            }
        }
        i += 1;
    }
    assert(kv.take(kv.len() as int) =~= kv);
    picked
}

} // verus!


verus! {

/// Every left operand of `ls` takes every right operand of `rs`: their
/// parameter counts fit together in a `u8`, and the right operand's
/// parameter ids can be shifted past the left operand's.
pub open spec fn pairs_shiftable(ls: Seq<Expression>, rs: Seq<Expression>) -> bool {
    forall|i: int, j: int|
        0 <= i < ls.len() && 0 <= j < rs.len() ==> #[trigger] ls[i].param_count
            + #[trigger] rs[j].param_count <= u8::MAX && params_shiftable(
            rs[j].nodes@,
            ls[i].param_count as nat,
        )
}

/// The beam levels as values.
pub open spec fn levels_view(levels: Seq<Vec<Expression>>) -> Seq<Seq<ExprView>> {
    levels.map_values(|l: Vec<Expression>| exprs_view(l@))
}

/// The binary candidates of level `k` whose left operand comes from levels
/// `1 .. j`: for each such level `lk`, its members with those of level
/// `k - 1 - lk`, in order of `lk`.
pub open spec fn binary_upto(
    names: Seq<Seq<char>>,
    commutative: Seq<bool>,
    ids: Seq<u8>,
    lv: Seq<Seq<ExprView>>,
    k: int,
    j: int,
) -> Seq<ExprView>
    decreases j,
{
    if j <= 1 {
        Seq::empty()
    } else {
        let lk = j - 1;
        let rk = k - 1 - lk;
        binary_upto(names, commutative, ids, lv, k, j - 1) + binary_expansions(
            names,
            commutative,
            ids,
            lv[lk],
            lv[rk],
            lk == rk,
        )
    }
}

/// The candidates of level `k` when the binary expansions stop before left
/// level `j`: the unary expansions of level `k - 1`, then the binary ones.
pub open spec fn level_pool(
    names: Seq<Seq<char>>,
    commutative: Seq<bool>,
    arities: Seq<u8>,
    lv: Seq<Seq<ExprView>>,
    k: int,
    j: int,
) -> Seq<ExprView> {
    unary_expansions(names, ids_with_arity(arities, 1), lv[k - 1]) + binary_upto(
        names,
        commutative,
        ids_with_arity(arities, 2),
        lv,
        k,
        j,
    )
}

proof fn lemma_exprs_view_add(a: Seq<Expression>, b: Seq<Expression>)
    ensures
        exprs_view(a + b) =~= exprs_view(a) + exprs_view(b),
{
}

/// The candidates of beam level `k` (`k >= 2`) built from the levels below:
/// every member of level `k - 1` under every unary operator, then for each
/// left level `lk` from 1 up, the binary combinations of level `lk` with
/// level `k - 1 - lk`. Before each left level the deadline is checked, and
/// the binary expansions stop once it has passed; with no deadline they all
/// run.
#[verifier::rlimit(30)]
pub fn beam_level(
    levels: &Vec<Vec<Expression>>,
    k: usize,
    reg: &OperatorRegistry,
    deadline: Option<Instant>,
) -> (c: Vec<Expression>)
    requires
        2 <= k < levels@.len(),
        forall|a: int, b: int|
            1 <= a && 1 <= b && a + b == k - 1 ==> #[trigger] pairs_shiftable(
                levels@[a]@,
                levels@[b]@,
            ),
    ensures
        exists|j: int|
            1 <= j <= k - 1 && exprs_view(c@) == #[trigger] level_pool(
                reg.names(),
                reg.commutative(),
                reg.arities(),
                levels_view(levels@),
                k as int,
                j,
            ),
        deadline is None ==> exprs_view(c@) == level_pool(
            reg.names(),
            reg.commutative(),
            reg.arities(),
            levels_view(levels@),
            k as int,
            k - 1,
        ),
{
    let ghost names = reg.names();
    let ghost comm = reg.commutative();
    let ghost lv = levels_view(levels@);
    let ghost bids = ids_with_arity(reg.arities(), 2);
    let mut all = unary_candidates(levels[k - 1].as_slice(), reg);
    let ghost unary = exprs_view(all@);
    assert(lv[k - 1] == exprs_view(levels@[k - 1]@));
    let mut lk: usize = 1;
    let mut go = true;
    while go && lk < k - 1
        invariant
            2 <= k < levels@.len(),
            forall|a: int, b: int|
                1 <= a && 1 <= b && a + b == k - 1 ==> #[trigger] pairs_shiftable(
                    levels@[a]@,
                    levels@[b]@,
                ),
            names == reg.names(),
            comm == reg.commutative(),
            bids == ids_with_arity(reg.arities(), 2),
            lv == levels_view(levels@),
            1 <= lk <= k - 1,
            exprs_view(all@) == unary + binary_upto(names, comm, bids, lv, k as int, lk as int),
            deadline is None ==> go,
        decreases (k - lk) as int + if go { 1int } else { 0int },
    {
        if deadline_passed(deadline) {
            go = false;
        } else {
            let rk = k - 1 - lk;
            assert(pairs_shiftable(levels@[lk as int]@, levels@[rk as int]@));
            let mut b = binary_candidates(levels[lk].as_slice(), levels[rk].as_slice(), lk == rk, reg);
            let ghost before = all@;
            let ghost bv = b@;
            all.append(&mut b);
            proof {
                lemma_exprs_view_add(before, bv);
                assert(lv[lk as int] == exprs_view(levels@[lk as int]@));
                assert(lv[rk as int] == exprs_view(levels@[rk as int]@));
                assert(binary_upto(names, comm, bids, lv, k as int, lk + 1) == binary_upto(
                    names,
                    comm,
                    bids,
                    lv,
                    k as int,
                    lk as int,
                ) + binary_expansions(names, comm, bids, lv[lk as int], lv[rk as int], lk == rk));
            }
            lk += 1;
        }
    }
    assert(exprs_view(all@) == level_pool(names, comm, reg.arities(), lv, k as int, lk as int));
    all
}

/// Whether the search stops after a level: the best full-data error has
/// reached the exit error (`best <= exit`).
pub fn early_exit(best: u64, exit: u64) -> (r: bool)
    ensures
        r == at_most(best, exit),
{
    error_at_most(best, exit)
}

} // verus!

verus! {

/// A scored candidate (expression, affine map, error) as a front slot.
pub open spec fn scored_entry(t: (Expression, Option<(u64, u64)>, u64)) -> EntryView {
    EntryView { error: t.2, expr: t.0@, affine: t.1 }
}

/// The front after offering every scored candidate in order.
pub open spec fn spec_offers(m: Map<nat, EntryView>, s: Seq<(Expression, Option<(u64, u64)>, u64)>) -> Map<
    nat,
    EntryView,
>
    decreases s.len(),
{
    if s.len() == 0 {
        m
    } else {
        offer(spec_offers(m, s.drop_last()), scored_entry(s.last()))
    }
}

/// The positions `0 .. count`.
pub open spec fn first_positions(count: nat) -> Seq<int> {
    Seq::new(count, |i: int| i)
}

/// The next beam, as positions in the best-first ranking: with affine
/// scoring and a class cap, the diverse pick; otherwise the first `width`.
pub open spec fn spec_next_beam(keys: Seq<Option<Seq<i64>>>, width: nat, cap: nat, affine_scaling: bool) -> Seq<
    int,
> {
    if cap > 0 && affine_scaling {
        beam_pick(keys, width, cap)
    } else {
        first_positions(if keys.len() <= width {
            keys.len()
        } else {
            width
        })
    }
}

/// Positions as integers.
pub open spec fn positions_view(s: Seq<usize>) -> Seq<int> {
    s.map_values(|x: usize| x as int)
}

/// The end of one beam level: every scored candidate is offered to the
/// front in scoring order, then the next beam is picked from the ranking
/// (`keys[i]` is the affine-class key of the `i`-th best candidate, `None`
/// where its predictions failed): with affine scoring and a positive class
/// cap, at most `width` candidates and at most `cap` per class; otherwise
/// the first `width`. Returns the positions picked in the ranking.
pub fn beam_advance(
    front: &mut Front,
    scored: &[(Expression, Option<(u64, u64)>, u64)],
    keys: &Vec<Option<Vec<i64>>>,
    width: usize,
    cap: usize,
    affine_scaling: bool,
) -> (next: Vec<usize>)
    requires
        old(front).wf(),
    ensures
        final(front).wf(),
        final(front)@ == spec_offers(old(front)@, scored@),
        positions_view(next@) == spec_next_beam(key_views(keys@), width as nat, cap as nat, affine_scaling),
{
    let mut i: usize = 0;
    while i < scored.len()
        invariant
            i <= scored@.len(),
            front.wf(),
            front@ == spec_offers(old(front)@, scored@.take(i as int)),
        decreases scored@.len() - i,
    {
        let (expr, affine, error) = &scored[i];
        front.update(expr, *error, *affine);
        proof {
            assert(scored@.take(i + 1).drop_last() =~= scored@.take(i as int));
        }
        i += 1;
    }
    assert(scored@.take(scored@.len() as int) =~= scored@);
    if cap > 0 && affine_scaling {
        let r = select_beam(keys, width, cap);
        assert(positions_view(r@) =~= beam_pick(key_views(keys@), width as nat, cap as nat));
        r
    } else {
        let count = if keys.len() <= width {
            keys.len()
        } else {
            width
        };
        let mut r: Vec<usize> = Vec::new();
        let mut t: usize = 0;
        while t < count
            invariant
                t <= count,
                r@.len() == t,
                forall|q: int| 0 <= q < t ==> r@[q] == q,
            decreases count - t,
        {
            r.push(t);
            t += 1;
        }
        assert(positions_view(r@) =~= first_positions(count as nat));
        r
    }
}

} // verus!

verus! {

/// After a level's candidates are offered to the front, every complexity
/// among them has a slot, holding an error no larger than that of any
/// candidate of that complexity, and every slot held before is still held,
/// with an error no larger than before.
pub proof fn law_offers_keep_best(m: Map<nat, EntryView>, s: Seq<(Expression, Option<(u64, u64)>, u64)>)
    ensures
        forall|i: int|
            0 <= i < s.len() ==> {
                let c = complexity_of(#[trigger] s[i].0@);
                &&& spec_offers(m, s).dom().contains(c)
                &&& order_value(spec_offers(m, s)[c].error) <= order_value(s[i].2)
            },
        forall|c: nat|
            #[trigger] m.dom().contains(c) ==> spec_offers(m, s).dom().contains(c) && order_value(
                spec_offers(m, s)[c].error,
            ) <= order_value(m[c].error),
    decreases s.len(),
{
    if s.len() > 0 {
        let pre = s.drop_last();
        law_offers_keep_best(m, pre);
        let mp = spec_offers(m, pre);
        let e = scored_entry(s.last());
        law_offer_at_least_as_good(mp, e);
        assert forall|c: nat| #[trigger] mp.dom().contains(c) implies offer(mp, e).dom().contains(c)
            && order_value(offer(mp, e)[c].error) <= order_value(mp[c].error) by {
            law_offer_keeps_slots(mp, e, c);
        }
        assert forall|i: int| 0 <= i < s.len() implies {
            let c = complexity_of(#[trigger] s[i].0@);
            &&& spec_offers(m, s).dom().contains(c)
            &&& order_value(spec_offers(m, s)[c].error) <= order_value(s[i].2)
        } by {
            if i < s.len() - 1 {
                assert(s[i] == pre[i]);
                let c = complexity_of(pre[i].0@);
                assert(mp.dom().contains(c));
            }
        }
    }
}

} // verus!

verus! {

proof fn lemma_contains_left<A>(a: Seq<A>, b: Seq<A>, x: A)
    requires
        a.contains(x),
    ensures
        (a + b).contains(x),
{
    let i = choose|i: int| 0 <= i < a.len() && a[i] == x;
    assert((a + b)[i] == x);
}

proof fn lemma_contains_right<A>(a: Seq<A>, b: Seq<A>, x: A)
    requires
        b.contains(x),
    ensures
        (a + b).contains(x),
{
    let i = choose|i: int| 0 <= i < b.len() && b[i] == x;
    assert((a + b)[a.len() + i] == x);
}

proof fn lemma_cell_contains(
    names: Seq<Seq<char>>,
    commutative: Seq<bool>,
    ids: Seq<u8>,
    l: ExprView,
    r: ExprView,
    same_level: bool,
    k: int,
)
    requires
        0 <= k < ids.len(),
        admits(names, commutative, ids[k], l, r, same_level),
    ensures
        binary_cell(names, commutative, ids, l, r, same_level).contains(
            spec_apply_binary(names, ids[k], l, r),
        ),
    decreases ids.len(),
{
    let pre = ids.drop_last();
    let x = spec_apply_binary(names, ids[k], l, r);
    let tail = if admits(names, commutative, ids.last(), l, r, same_level) {
        seq![spec_apply_binary(names, ids.last(), l, r)]
    } else {
        Seq::empty()
    };
    if k == ids.len() - 1 {
        assert(tail[0] == x);
        lemma_contains_right(binary_cell(names, commutative, pre, l, r, same_level), tail, x);
    } else {
        assert(pre[k] == ids[k]);
        lemma_cell_contains(names, commutative, pre, l, r, same_level, k);
        lemma_contains_left(binary_cell(names, commutative, pre, l, r, same_level), tail, x);
    }
}

proof fn lemma_row_contains(
    names: Seq<Seq<char>>,
    commutative: Seq<bool>,
    ids: Seq<u8>,
    l: ExprView,
    rs: Seq<ExprView>,
    same_level: bool,
    b: int,
    k: int,
)
    requires
        0 <= b < rs.len(),
        0 <= k < ids.len(),
        admits(names, commutative, ids[k], l, rs[b], same_level),
    ensures
        binary_row(names, commutative, ids, l, rs, same_level).contains(
            spec_apply_binary(names, ids[k], l, rs[b]),
        ),
    decreases rs.len(),
{
    let pre = rs.drop_last();
    let x = spec_apply_binary(names, ids[k], l, rs[b]);
    if b == rs.len() - 1 {
        lemma_cell_contains(names, commutative, ids, l, rs.last(), same_level, k);
        lemma_contains_right(
            binary_row(names, commutative, ids, l, pre, same_level),
            binary_cell(names, commutative, ids, l, rs.last(), same_level),
            x,
        );
    } else {
        assert(pre[b] == rs[b]);
        lemma_row_contains(names, commutative, ids, l, pre, same_level, b, k);
        lemma_contains_left(
            binary_row(names, commutative, ids, l, pre, same_level),
            binary_cell(names, commutative, ids, l, rs.last(), same_level),
            x,
        );
    }
}

proof fn lemma_expansions_contain(
    names: Seq<Seq<char>>,
    commutative: Seq<bool>,
    ids: Seq<u8>,
    ls: Seq<ExprView>,
    rs: Seq<ExprView>,
    same_level: bool,
    a: int,
    b: int,
    k: int,
)
    requires
        0 <= a < ls.len(),
        0 <= b < rs.len(),
        0 <= k < ids.len(),
        admits(names, commutative, ids[k], ls[a], rs[b], same_level),
    ensures
        binary_expansions(names, commutative, ids, ls, rs, same_level).contains(
            spec_apply_binary(names, ids[k], ls[a], rs[b]),
        ),
    decreases ls.len(),
{
    let pre = ls.drop_last();
    let x = spec_apply_binary(names, ids[k], ls[a], rs[b]);
    if a == ls.len() - 1 {
        lemma_row_contains(names, commutative, ids, ls.last(), rs, same_level, b, k);
        lemma_contains_right(
            binary_expansions(names, commutative, ids, pre, rs, same_level),
            binary_row(names, commutative, ids, ls.last(), rs, same_level),
            x,
        );
    } else {
        assert(pre[a] == ls[a]);
        lemma_expansions_contain(names, commutative, ids, pre, rs, same_level, a, b, k);
        lemma_contains_left(
            binary_expansions(names, commutative, ids, pre, rs, same_level),
            binary_row(names, commutative, ids, ls.last(), rs, same_level),
            x,
        );
    }
}

proof fn lemma_text_after_asymmetric(a: Seq<char>, b: Seq<char>)
    ensures
        !(text_after(a, b) && text_after(b, a)),
    decreases a.len(),
{
    if a.len() > 0 && b.len() > 0 && a[0] == b[0] {
        lemma_text_after_asymmetric(a.drop_first(), b.drop_first());
    }
}

/// The binary candidates hold every pairing of a left with a right operand
/// under every operator the registry lists as binary, with two exceptions
/// only: `Pow` takes only exponents free of input variables, and an operator
/// the registry marks commutative, combining two operands of one level,
/// takes only one of the two operand orders. So an operator that is not
/// commutative (such as `Divide` or `Subtract`) is applied in both orders
/// `l op r` and `r op l`, and a commutative one in at least one of them.
pub proof fn law_binary_candidates_cover(
    names: Seq<Seq<char>>,
    commutative: Seq<bool>,
    ids: Seq<u8>,
    ls: Seq<ExprView>,
    rs: Seq<ExprView>,
    same_level: bool,
    a: int,
    b: int,
    k: int,
)
    requires
        0 <= a < ls.len(),
        0 <= b < rs.len(),
        0 <= k < ids.len(),
        names[ids[k] as int] != "Pow"@,
    ensures
        !commutative[ids[k] as int] ==> binary_expansions(names, commutative, ids, ls, rs, same_level).contains(
            spec_apply_binary(names, ids[k], ls[a], rs[b]),
        ),
        !same_level ==> binary_expansions(names, commutative, ids, ls, rs, same_level).contains(
            spec_apply_binary(names, ids[k], ls[a], rs[b]),
        ),
        (same_level && ls == rs) ==> binary_expansions(names, commutative, ids, ls, rs, same_level).contains(
            spec_apply_binary(names, ids[k], ls[a], rs[b]),
        ) || binary_expansions(names, commutative, ids, ls, rs, same_level).contains(
            spec_apply_binary(names, ids[k], ls[b], rs[a]),
        ),
{
    let id = ids[k];
    if admits(names, commutative, id, ls[a], rs[b], same_level) {
        lemma_expansions_contain(names, commutative, ids, ls, rs, same_level, a, b, k);
    }
    if same_level && ls == rs {
        lemma_text_after_asymmetric(ls[a].display, rs[b].display);
        if !admits(names, commutative, id, ls[a], rs[b], same_level) {
            assert(admits(names, commutative, id, ls[b], rs[a], same_level));
            lemma_expansions_contain(names, commutative, ids, ls, rs, same_level, b, a, k);
        }
    }
}

/// With a right operand free of input variables, `Pow` is applied to every
/// left operand (when the registry does not mark it commutative).
pub proof fn law_binary_candidates_pow(
    names: Seq<Seq<char>>,
    commutative: Seq<bool>,
    ids: Seq<u8>,
    ls: Seq<ExprView>,
    rs: Seq<ExprView>,
    same_level: bool,
    a: int,
    b: int,
    k: int,
)
    requires
        0 <= a < ls.len(),
        0 <= b < rs.len(),
        0 <= k < ids.len(),
        !commutative[ids[k] as int],
        view_scalar_only(rs[b].nodes),
    ensures
        binary_expansions(names, commutative, ids, ls, rs, same_level).contains(
            spec_apply_binary(names, ids[k], ls[a], rs[b]),
        ),
{
    lemma_expansions_contain(names, commutative, ids, ls, rs, same_level, a, b, k);
}

} // verus!

verus! {

/// No pair of entries that `s` orders clearly is ordered clearly the other
/// way by `t`.
pub open spec fn never_flips(s: Seq<int>, t: Seq<int>) -> bool {
    forall|i: int, j: int|
        0 <= i < s.len() && 0 <= j < s.len() && #[trigger] clearly_below(s[i], s[j]) ==> !clearly_below(
            t[j],
            t[i],
        )
}

/// No pair of entries that `s` orders clearly is ordered clearly the same
/// way by `t`.
pub open spec fn never_keeps(s: Seq<int>, t: Seq<int>) -> bool {
    forall|i: int, j: int|
        0 <= i < s.len() && 0 <= j < s.len() && #[trigger] clearly_below(s[i], s[j]) ==> !clearly_below(
            t[i],
            t[j],
        )
}

proof fn lemma_below_counts_strict(s: Seq<int>, i: int, j: int, k: nat)
    requires
        0 <= i < s.len(),
        0 <= j < s.len(),
        k <= s.len(),
        clearly_below(s[i], s[j]),
    ensures
        count_below(s, s[i], k) + (if i < k { 1int } else { 0int }) <= count_below(s, s[j], k),
        count_above(s, s[j], k) + (if j < k { 1int } else { 0int }) <= count_above(s, s[i], k),
    decreases k,
{
    if k > 0 {
        lemma_below_counts_strict(s, i, j, (k - 1) as nat);
    }
}

/// In the entries' ranks: an entry clearly below another has fewer entries
/// clearly below it and more clearly above it.
proof fn lemma_ranks_strict(s: Seq<int>, i: int, j: int)
    requires
        0 <= i < s.len(),
        0 <= j < s.len(),
        clearly_below(s[i], s[j]),
    ensures
        ranks_below(s)[i] < ranks_below(s)[j],
        ranks_above(s)[j] < ranks_above(s)[i],
{
    lemma_below_counts_strict(s, i, j, s.len());
}

/// Behavior keys separate shapes: two predictions with the same key order
/// the data points consistently, either the same way (no clearly ordered
/// pair is reversed) or exactly the opposite way (no clearly ordered pair
/// keeps its order). Predictions that order the points differently, in
/// neither of these two ways, get different keys.
pub proof fn law_behavior_key_separates(p: Seq<u64>, q: Seq<u64>)
    requires
        spec_behavior_key(p) == spec_behavior_key(q),
    ensures
        never_flips(order_values(p), order_values(q)) || never_keeps(order_values(p), order_values(q)),
{
    let s = order_values(p);
    let t = order_values(q);
    let kp = spec_behavior_key(p);
    let kq = spec_behavior_key(q);
    assert(kp.len() == s.len());
    assert(kq.len() == t.len());
    let p_below = kp == ranks_below(s);
    let q_below = kq == ranks_below(t);
    if p_below == q_below {
        assert forall|i: int, j: int|
            0 <= i < s.len() && 0 <= j < s.len() && #[trigger] clearly_below(s[i], s[j]) implies !clearly_below(
                t[j],
                t[i],
            ) by {
            lemma_ranks_strict(s, i, j);
            if clearly_below(t[j], t[i]) {
                lemma_ranks_strict(t, j, i);
            }
        }
    } else {
        assert forall|i: int, j: int|
            0 <= i < s.len() && 0 <= j < s.len() && #[trigger] clearly_below(s[i], s[j]) implies !clearly_below(
                t[i],
                t[j],
            ) by {
            lemma_ranks_strict(s, i, j);
            if clearly_below(t[i], t[j]) {
                lemma_ranks_strict(t, i, j);
            }
        }
    }
}

} // verus!
