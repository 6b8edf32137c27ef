//! Pareto fronts over (complexity, error): the best expression found for
//! each complexity, and the strict front along which the error improves as
//! the complexity grows.
//!
//! Errors are IEEE-754 doubles given by their bit patterns; they compare as
//! the doubles do (see `order_value`).

use vstd::prelude::*;

use crate::bfs::{order_of, order_value};
use crate::expression::{ExprView, Expression};
use crate::realbits::nan_bits;

verus! {

/// The double with bit pattern `bits` is finite (neither infinite nor NaN).
pub open spec fn finite_bits(bits: u64) -> bool {
    (bits >> 52u64) & 0x7ffu64 != 0x7ffu64
}

/// `a < b` for doubles that are not NaN.
pub open spec fn error_below(a: u64, b: u64) -> bool {
    order_value(a) < order_value(b)
}

/// `a <= b` for doubles: false when either is NaN.
pub open spec fn at_most(a: u64, b: u64) -> bool {
    !nan_bits(a) && !nan_bits(b) && order_value(a) <= order_value(b)
}

/// `a <= b` on two errors.
pub fn error_at_most(a: u64, b: u64) -> (r: bool)
    ensures
        r == at_most(a, b),
{
    let a_nan = (a >> 52u64) & 0x7ffu64 == 0x7ffu64 && a & 0xf_ffff_ffff_ffffu64 != 0;
    let b_nan = (b >> 52u64) & 0x7ffu64 == 0x7ffu64 && b & 0xf_ffff_ffff_ffffu64 != 0;
    !a_nan && !b_nan && order_of(a) <= order_of(b)
}

/// Whether an error is finite.
pub fn is_finite_error(bits: u64) -> (r: bool)
    ensures
        r == finite_bits(bits),
{
    (bits >> 52u64) & 0x7ffu64 != 0x7ffu64
}

/// `a < b` on two errors.
pub fn error_less(a: u64, b: u64) -> (r: bool)
    ensures
        r == error_below(a, b),
{
    order_of(a) < order_of(b)
}

/// One slot of a front: an expression, its error and, when an affine map
/// `a*f + b` scored better than `f` itself, the map's coefficients.
pub struct FrontEntry {
    pub error: u64,
    pub expr: Expression,
    pub affine: Option<(u64, u64)>,
}

/// A front slot as a mathematical value.
pub struct EntryView {
    pub error: u64,
    pub expr: ExprView,
    pub affine: Option<(u64, u64)>,
}

impl View for FrontEntry {
    type V = EntryView;

    open spec fn view(&self) -> EntryView {
        EntryView { error: self.error, expr: self.expr@, affine: self.affine }
    }
}

/// The complexity (node count) of an expression value.
pub open spec fn complexity_of(e: ExprView) -> nat {
    e.nodes.len()
}

/// `entry` offered to the front `m`: it takes the slot of its complexity
/// when that slot is empty or holds a larger error, and is dropped otherwise.
pub open spec fn offer(m: Map<nat, EntryView>, entry: EntryView) -> Map<nat, EntryView> {
    let c = complexity_of(entry.expr);
    if !m.dom().contains(c) || error_below(entry.error, m[c].error) {
        m.insert(c, entry)
    } else {
        m
    }
}

/// The values of a list of slots.
pub open spec fn entry_views(s: Seq<FrontEntry>) -> Seq<EntryView> {
    s.map_values(|e: FrontEntry| e@)
}

/// Slots listed by strictly increasing complexity.
pub open spec fn by_complexity(s: Seq<EntryView>) -> bool {
    forall|i: int, j: int|
        0 <= i < j < s.len() ==> complexity_of(#[trigger] s[i].expr) < complexity_of(
            #[trigger] s[j].expr,
        )
}

/// Some listed slot has complexity `c`.
pub open spec fn has_slot(s: Seq<EntryView>, c: nat) -> bool {
    exists|i: int| 0 <= i < s.len() && complexity_of(#[trigger] s[i].expr) == c
}

/// The slots of a list, keyed by complexity.
pub open spec fn slot_map(s: Seq<EntryView>) -> Map<nat, EntryView> {
    Map::new(
        |c: nat| has_slot(s, c),
        |c: nat| s[choose|i: int| 0 <= i < s.len() && complexity_of(#[trigger] s[i].expr) == c],
    )
}

/// In a list ordered by complexity, slot `i` is what the map holds for its
/// complexity.
pub proof fn lemma_slot_map_at(s: Seq<EntryView>, i: int)
    requires
        by_complexity(s),
        0 <= i < s.len(),
    ensures
        slot_map(s).dom().contains(complexity_of(s[i].expr)),
        slot_map(s)[complexity_of(s[i].expr)] == s[i],
{
    let c = complexity_of(s[i].expr);
    assert(has_slot(s, c));
    let j = choose|j: int| 0 <= j < s.len() && complexity_of(#[trigger] s[j].expr) == c;
    if j < i {
        assert(complexity_of(s[j].expr) < complexity_of(s[i].expr));
    }
    if i < j {
        assert(complexity_of(s[i].expr) < complexity_of(s[j].expr));
    }
}

/// The best expression found for each complexity.
pub struct Front {
    entries: Vec<FrontEntry>,
}

impl View for Front {
    type V = Map<nat, EntryView>;

    closed spec fn view(&self) -> Map<nat, EntryView> {
        slot_map(entry_views(self.entries@))
    }
}

impl Front {
    /// The slots are kept ordered by complexity.
    pub closed spec fn wf(&self) -> bool {
        by_complexity(entry_views(self.entries@))
    }

    /// An empty front.
    pub fn new() -> (f: Front)
        ensures
            f.wf(),
            f@ == Map::<nat, EntryView>::empty(),
    {
        let f = Front { entries: Vec::new() };
        assert(f@ =~= Map::<nat, EntryView>::empty());
        f
    }

    /// Number of occupied slots.
    pub fn len(&self) -> (r: usize)
        requires
            self.wf(),
        ensures
            r == self@.dom().len(),
    {
        proof {
            self.lemma_dom_len();
        }
        self.entries.len()
    }

    proof fn lemma_dom_len(&self)
        requires
            self.wf(),
        ensures
            self@.dom().len() == self.entries@.len(),
            self@.dom().finite(),
    {
        let s = entry_views(self.entries@);
        let keys = s.map_values(|e: EntryView| complexity_of(e.expr));
        assert forall|i: int, j: int| 0 <= i < j < keys.len() implies keys[i] != keys[j] by {
            assert(complexity_of(s[i].expr) < complexity_of(s[j].expr));
        }
        keys.unique_seq_to_set();
        assert(self@.dom() =~= keys.to_set()) by {
            assert forall|c: nat| self@.dom().contains(c) implies keys.to_set().contains(c) by {
                let i = choose|i: int| 0 <= i < s.len() && complexity_of(#[trigger] s[i].expr) == c;
                assert(keys[i] == c);
            }
            assert forall|c: nat| keys.to_set().contains(c) implies self@.dom().contains(c) by {
                let i = choose|i: int| 0 <= i < keys.len() && keys[i] == c;
                assert(complexity_of(s[i].expr) == c);
            }
        }
    }

    /// The occupied slots, by increasing complexity.
    pub fn slots(&self) -> (r: &[FrontEntry])
        requires
            self.wf(),
        ensures
            by_complexity(entry_views(r@)),
            slot_map(entry_views(r@)) == self@,
    {
        self.entries.as_slice()
    }

    /// Offers `expr` with its error and affine map to the front: it takes
    /// the slot of its complexity when that slot is empty or holds a larger
    /// error.
    #[verifier::spinoff_prover]
    #[verifier::rlimit(30)]
    pub fn update(&mut self, expr: &Expression, error: u64, affine: Option<(u64, u64)>)
        requires
            old(self).wf(),
        ensures
            final(self).wf(),
            final(self)@ == offer(old(self)@, EntryView { error, expr: expr@, affine }),
    {
        let c = expr.complexity();
        let ghost s = entry_views(self.entries@);
        let ghost ev = EntryView { error, expr: expr@, affine };
        let mut p: usize = 0;
        while p < self.entries.len() && self.entries[p].expr.complexity() < c
            invariant
                s == entry_views(self.entries@),
                by_complexity(s),
                c == complexity_of(expr@),
                p <= s.len(),
                forall|i: int| 0 <= i < p ==> complexity_of(#[trigger] s[i].expr) < c,
            decreases s.len() - p,
        {
            p += 1;
        }
        proof {
            assert forall|i: int| p <= i < s.len() implies c <= complexity_of(
                #[trigger] s[i].expr,
            ) by {
                if p < i {
                    assert(complexity_of(s[p as int].expr) < complexity_of(s[i].expr));
                }
            }
        }
        let found = p < self.entries.len() && self.entries[p].expr.complexity() == c;
        if found {
            if error_less(error, self.entries[p].error) {
                let entry = FrontEntry { error, expr: expr.duplicate(), affine };
                self.entries.set(p, entry);
                proof {
                    let s2 = entry_views(self.entries@);
                    assert(s2 =~= s.update(p as int, ev));
                    lemma_slot_map_at(s, p as int);
                    assert(by_complexity(s2));
                    lemma_slot_map_at(s2, p as int);
                    self.lemma_replace(s, p as int, ev);
                }
            } else {
                proof {
                    lemma_slot_map_at(s, p as int);
                }
            }
        } else {
            let entry = FrontEntry { error, expr: expr.duplicate(), affine };
            self.entries.insert(p, entry);
            proof {
                let s2 = entry_views(self.entries@);
                assert(s2 =~= s.insert(p as int, ev));
                assert(!has_slot(s, c as nat)) by {
                    if has_slot(s, c as nat) {
                        let i = choose|i: int| 0 <= i < s.len() && complexity_of(#[trigger] s[i].expr) == c;
                        assert(i >= p);
                        if i > p {
                            assert(complexity_of(s[p as int].expr) < complexity_of(s[i].expr));
                        }
                    }
                }
                self.lemma_insert(s, p as int, ev);
            }
        }
    }

    proof fn lemma_replace(&self, s: Seq<EntryView>, p: int, ev: EntryView)
        requires
            by_complexity(s),
            0 <= p < s.len(),
            complexity_of(s[p].expr) == complexity_of(ev.expr),
            entry_views(self.entries@) == s.update(p, ev),
        ensures
            self.wf(),
            self@ == slot_map(s).insert(complexity_of(ev.expr), ev),
    {
        let s2 = s.update(p, ev);
        let c = complexity_of(ev.expr);
        assert(by_complexity(s2));
        let m = slot_map(s).insert(c, ev);
        assert forall|k: nat| #[trigger] self@.dom().contains(k) == m.dom().contains(k) by {
            if has_slot(s2, k) {
                let i = choose|i: int| 0 <= i < s2.len() && complexity_of(#[trigger] s2[i].expr) == k;
                if i != p {
                    assert(complexity_of(s[i].expr) == k);
                    assert(has_slot(s, k));
                }
            }
            if has_slot(s, k) {
                let i = choose|i: int| 0 <= i < s.len() && complexity_of(#[trigger] s[i].expr) == k;
                assert(complexity_of(s2[i].expr) == k);
            }
            if k == c {
                assert(complexity_of(s2[p].expr) == k);
            }
        }
        assert forall|k: nat| self@.dom().contains(k) implies #[trigger] self@[k] == m[k] by {
            let i = choose|i: int| 0 <= i < s2.len() && complexity_of(#[trigger] s2[i].expr) == k;
            lemma_slot_map_at(s2, i);
            if i != p {
                lemma_slot_map_at(s, i);
            }
        }
        assert(self@ =~= m);
    }

    proof fn lemma_insert(&self, s: Seq<EntryView>, p: int, ev: EntryView)
        requires
            by_complexity(s),
            0 <= p <= s.len(),
            forall|i: int| 0 <= i < p ==> complexity_of(#[trigger] s[i].expr) < complexity_of(
                ev.expr,
            ),
            forall|i: int| p <= i < s.len() ==> complexity_of(ev.expr) < complexity_of(
                #[trigger] s[i].expr,
            ),
            entry_views(self.entries@) == s.insert(p, ev),
        ensures
            self.wf(),
            self@ == slot_map(s).insert(complexity_of(ev.expr), ev),
    {
        let s2 = s.insert(p, ev);
        let c = complexity_of(ev.expr);
        assert forall|i: int, j: int| 0 <= i < j < s2.len() implies complexity_of(
            #[trigger] s2[i].expr,
        ) < complexity_of(#[trigger] s2[j].expr) by {
            if i < p && j > p {
                assert(s2[j] == s[j - 1]);
            } else if i > p {
                assert(s2[i] == s[i - 1]);
                assert(s2[j] == s[j - 1]);
            } else if j < p {
            } else if i == p {
                assert(s2[j] == s[j - 1]);
            }
        }
        let m = slot_map(s).insert(c, ev);
        assert forall|k: nat| #[trigger] self@.dom().contains(k) == m.dom().contains(k) by {
            if has_slot(s2, k) {
                let i = choose|i: int| 0 <= i < s2.len() && complexity_of(#[trigger] s2[i].expr) == k;
                if i < p {
                    assert(complexity_of(s[i].expr) == k);
                } else if i > p {
                    assert(complexity_of(s[i - 1].expr) == k);
                }
            }
            if has_slot(s, k) {
                let i = choose|i: int| 0 <= i < s.len() && complexity_of(#[trigger] s[i].expr) == k;
                if i < p {
                    assert(complexity_of(s2[i].expr) == k);
                } else {
                    assert(complexity_of(s2[i + 1].expr) == k);
                }
            }
            if k == c {
                assert(complexity_of(s2[p].expr) == k);
            }
        }
        assert forall|k: nat| self@.dom().contains(k) implies #[trigger] self@[k] == m[k] by {
            let i = choose|i: int| 0 <= i < s2.len() && complexity_of(#[trigger] s2[i].expr) == k;
            lemma_slot_map_at(s2, i);
            if i < p {
                lemma_slot_map_at(s, i);
            } else if i > p {
                lemma_slot_map_at(s, i - 1);
            }
        }
        assert(self@ =~= m);
    }
}


/// The values of (error, expression) pairs.
pub open spec fn pair_views(s: Seq<(u64, Expression)>) -> Seq<(u64, ExprView)> {
    s.map_values(|p: (u64, Expression)| (p.0, p.1@))
}

/// The front of a list of (error, expression) pairs: every pair with a
/// finite error offered in turn, with no affine map.
pub open spec fn front_of(s: Seq<(u64, ExprView)>) -> Map<nat, EntryView>
    decreases s.len(),
{
    if s.len() == 0 {
        Map::empty()
    } else {
        let m = front_of(s.drop_last());
        let (e, x) = s.last();
        if finite_bits(e) {
            offer(m, EntryView { error: e, expr: x, affine: None })
        } else {
            m
        }
    }
}

/// Slot `c` of `m` is on the strict front: its error is below the error of
/// every slot of smaller complexity.
pub open spec fn on_front(m: Map<nat, EntryView>, c: nat) -> bool {
    &&& m.dom().contains(c)
    &&& forall|c2: nat|
        #![trigger m.dom().contains(c2)]
        m.dom().contains(c2) && c2 < c ==> error_below(m[c].error, m[c2].error)
}

/// Every slot of the front of `s` holds a finite error.
pub proof fn lemma_front_of_finite(s: Seq<(u64, ExprView)>)
    ensures
        forall|c: nat| #[trigger] front_of(s).dom().contains(c) ==> finite_bits(front_of(s)[c].error),
    decreases s.len(),
{
    if s.len() > 0 {
        lemma_front_of_finite(s.drop_last());
    }
}

/// Slot `q` of the list has an error below that of every earlier slot.
pub open spec fn below_earlier(s: Seq<EntryView>, q: int) -> bool {
    forall|j2: int| 0 <= j2 < q ==> error_below(s[q].error, #[trigger] s[j2].error)
}

/// In a list ordered by complexity, slot `j` is on the strict front of the
/// list's map exactly when its error is below that of every earlier slot.
proof fn lemma_on_front_index(s: Seq<EntryView>, j: int)
    requires
        by_complexity(s),
        0 <= j < s.len(),
    ensures
        on_front(slot_map(s), complexity_of(s[j].expr)) <==> below_earlier(s, j),
{
    let m = slot_map(s);
    let c = complexity_of(s[j].expr);
    lemma_slot_map_at(s, j);
    if on_front(m, c) {
        assert forall|j2: int| 0 <= j2 < j implies error_below(s[j].error, #[trigger] s[j2].error) by {
            lemma_slot_map_at(s, j2);
            assert(complexity_of(s[j2].expr) < c);
            assert(m.dom().contains(complexity_of(s[j2].expr)));
        }
    }
    if below_earlier(s, j) {
        assert forall|c2: nat| m.dom().contains(c2) && c2 < c implies error_below(
            m[c].error,
            m[c2].error,
        ) by {
            let j2 = choose|i: int| 0 <= i < s.len() && complexity_of(#[trigger] s[i].expr) == c2;
            lemma_slot_map_at(s, j2);
            if j2 >= j {
                if j2 > j {
                    assert(complexity_of(s[j].expr) < complexity_of(s[j2].expr));
                }
            }
            assert(error_below(s[j].error, s[j2].error));
        }
    }
}

/// Merges (error, expression) pairs into a strict Pareto front, best error
/// first: of each complexity the first pair with the least finite error,
/// kept only when its error is below that of every simpler slot. Along the
/// result the complexity falls and the error rises strictly.
#[verifier::spinoff_prover]
#[verifier::rlimit(30)]
pub fn merge_pareto(entries: Vec<(u64, Expression)>) -> (r: Vec<(u64, Expression)>)
    ensures
        ({
            let m = front_of(pair_views(entries@));
            &&& forall|i: int|
                0 <= i < r@.len() ==> {
                    let c = complexity_of(#[trigger] r@[i].1@);
                    &&& m.dom().contains(c)
                    &&& m[c].error == r@[i].0
                    &&& m[c].expr == r@[i].1@
                    &&& finite_bits(r@[i].0)
                }
            &&& forall|i: int, j: int|
                0 <= i < j < r@.len() ==> complexity_of(#[trigger] r@[j].1@) < complexity_of(
                    #[trigger] r@[i].1@,
                ) && error_below(r@[i].0, r@[j].0)
            &&& forall|c: nat|
                #[trigger] on_front(m, c) <==> exists|i: int|
                    0 <= i < r@.len() && complexity_of(#[trigger] r@[i].1@) == c
        }),
        merged(front_of(pair_views(entries@)), pair_views(r@)),
{
    let ghost pv = pair_views(entries@);
    let mut front = Front::new();
    let mut k: usize = 0;
    while k < entries.len()
        invariant
            pv == pair_views(entries@),
            k <= entries@.len(),
            front.wf(),
            front@ == front_of(pv.take(k as int)),
        decreases entries@.len() - k,
    {
        let error = entries[k].0;
        if is_finite_error(error) {
            front.update(&entries[k].1, error, None);
        }
        proof {
            let t = pv.take(k + 1);
            assert(t.drop_last() =~= pv.take(k as int));
            assert(t.last() == (error, entries@[k as int].1@));
        }
        k += 1;
    }
    assert(pv.take(pv.len() as int) =~= pv);
    let ghost m = front@;
    proof {
        lemma_front_of_finite(pv);
    }
    let slots = front.entries;
    let ghost s = entry_views(slots@);
    let mut acc: Vec<(u64, Expression)> = Vec::new();
    let ghost mut idx: Seq<int> = Seq::empty();
    let mut best: u64 = 0;
    let mut j: usize = 0;
    while j < slots.len()
        invariant
            s == entry_views(slots@),
            by_complexity(s),
            m == slot_map(s),
            j <= s.len(),
            acc@.len() == idx.len(),
            forall|t: int| 0 <= t < idx.len() ==> 0 <= #[trigger] idx[t] < j,
            forall|t: int, u: int| 0 <= t < u < idx.len() ==> #[trigger] idx[t] < #[trigger] idx[u],
            forall|t: int|
                0 <= t < idx.len() ==> acc@[t].0 == s[#[trigger] idx[t]].error && acc@[t].1@
                    == s[idx[t]].expr,
            forall|t: int| 0 <= t < idx.len() ==> below_earlier(s, #[trigger] idx[t]),
            forall|q: int|
                0 <= q < j && #[trigger] below_earlier(s, q) ==> exists|t: int|
                    0 <= t < idx.len() && #[trigger] idx[t] == q,
            j > 0 ==> idx.len() > 0 && best == s[idx.last()].error,
            j > 0 ==> forall|q: int| 0 <= q < j ==> order_value(best) <= order_value(#[trigger] s[q].error),
        decreases s.len() - j,
    {
        let error = slots[j].error;
        if acc.len() == 0 || error_less(error, best) {
            proof {
                if j > 0 {
                    assert forall|j2: int| 0 <= j2 < j implies error_below(s[j as int].error, #[trigger] s[j2].error) by {
                        assert(order_value(best) <= order_value(s[j2].error));
                    }
                }
            }
            acc.push((error, slots[j].expr.duplicate()));
            let ghost old_idx = idx;
            proof {
                idx = idx.push(j as int);
                assert forall|q: int| 0 <= q < j + 1 && #[trigger] below_earlier(s, q) implies exists|t: int|
                    0 <= t < idx.len() && #[trigger] idx[t] == q by {
                    if q < j {
                        let t = choose|t: int| 0 <= t < old_idx.len() && #[trigger] old_idx[t] == q;
                        assert(idx[t] == q);
                    } else {
                        assert(idx[idx.len() - 1] == q);
                    }
                }
            }
            best = error;
        } else {
            proof {
                assert(j > 0);
                let last = idx.last();
                assert(!error_below(s[j as int].error, s[last].error));
                assert(!below_earlier(s, j as int));
            }
        }
        j += 1;
    }
    let mut r: Vec<(u64, Expression)> = Vec::new();
    let ghost n = acc@.len();
    let ghost acc0 = acc@;
    while acc.len() > 0
        invariant
            acc@ == acc0.take(acc@.len() as int),
            acc@.len() <= n,
            n == acc0.len(),
            r@.len() == n - acc@.len(),
            forall|i: int| 0 <= i < r@.len() ==> #[trigger] r@[i] == acc0[n - 1 - i],
        decreases acc@.len(),
    {
        let item = acc.pop().unwrap();
        proof {
            assert(acc@ =~= acc0.take(acc@.len() as int));
        }
        r.push(item);
    }
    proof {
        assert forall|i: int| 0 <= i < r@.len() implies ({
            let c = complexity_of(#[trigger] r@[i].1@);
            &&& m.dom().contains(c)
            &&& m[c].error == r@[i].0
            &&& m[c].expr == r@[i].1@
            &&& finite_bits(r@[i].0)
        }) by {
            let t = n - 1 - i;
            lemma_slot_map_at(s, idx[t]);
        }
        assert forall|i: int, jj: int| 0 <= i < jj < r@.len() implies complexity_of(
            #[trigger] r@[jj].1@,
        ) < complexity_of(#[trigger] r@[i].1@) && error_below(r@[i].0, r@[jj].0) by {
            let ti = n - 1 - i;
            let tj = n - 1 - jj;
            assert(idx[tj] < idx[ti]);
            assert(complexity_of(s[idx[tj]].expr) < complexity_of(s[idx[ti]].expr));
        }
        assert forall|c: nat| #[trigger] on_front(m, c) <==> exists|i: int|
            0 <= i < r@.len() && complexity_of(#[trigger] r@[i].1@) == c by {
            if on_front(m, c) {
                let q = choose|q: int| 0 <= q < s.len() && complexity_of(#[trigger] s[q].expr) == c;
                lemma_on_front_index(s, q);
                let t = choose|t: int| 0 <= t < idx.len() && #[trigger] idx[t] == q;
                let i = n - 1 - t;
                assert(r@[i] == acc0[t]);
                assert(complexity_of(r@[i].1@) == c);
            }
            if exists|i: int| 0 <= i < r@.len() && complexity_of(#[trigger] r@[i].1@) == c {
                let i = choose|i: int| 0 <= i < r@.len() && complexity_of(#[trigger] r@[i].1@) == c;
                let t = n - 1 - i;
                lemma_on_front_index(s, idx[t]);
            }
        }
        let rv = pair_views(r@);
        assert forall|i: int| 0 <= i < rv.len() implies #[trigger] rv[i] == (r@[i].0, r@[i].1@) by {}
        assert forall|c: nat| #[trigger] on_front(m, c) <==> exists|i: int|
            0 <= i < rv.len() && complexity_of(#[trigger] rv[i].1) == c by {
            if on_front(m, c) {
                let i = choose|i: int| 0 <= i < r@.len() && complexity_of(#[trigger] r@[i].1@) == c;
                assert(rv[i].1 == r@[i].1@);
            }
            if exists|i: int| 0 <= i < rv.len() && complexity_of(#[trigger] rv[i].1) == c {
                let i = choose|i: int| 0 <= i < rv.len() && complexity_of(#[trigger] rv[i].1) == c;
                assert(rv[i].1 == r@[i].1@);
            }
        }
    }
    r
}

/// A strict Pareto front listed best error first: finite errors, complexity
/// falling and error rising strictly along the list.
pub open spec fn is_strict_front(r: Seq<(u64, ExprView)>) -> bool {
    &&& forall|i: int| 0 <= i < r.len() ==> finite_bits(#[trigger] r[i].0)
    &&& forall|i: int, j: int|
        0 <= i < j < r.len() ==> complexity_of(#[trigger] r[j].1) < complexity_of(#[trigger] r[i].1)
            && error_below(r[i].0, r[j].0)
}

/// `r` is what merging a pool whose front is `m` yields: a strict front of
/// slots of `m`, holding exactly the slots of `m` on the strict front.
pub open spec fn merged(m: Map<nat, EntryView>, r: Seq<(u64, ExprView)>) -> bool {
    &&& is_strict_front(r)
    &&& forall|i: int|
        0 <= i < r.len() ==> {
            let c = complexity_of(#[trigger] r[i].1);
            &&& m.dom().contains(c)
            &&& m[c].error == r[i].0
            &&& m[c].expr == r[i].1
        }
    &&& forall|c: nat|
        #[trigger] on_front(m, c) <==> exists|i: int| 0 <= i < r.len() && complexity_of(#[trigger] r[i].1) == c
}

/// The front of a strict front holds exactly its pairs.
#[verifier::spinoff_prover]
#[verifier::rlimit(30)]
proof fn lemma_front_of_strict(s: Seq<(u64, ExprView)>)
    requires
        is_strict_front(s),
    ensures
        forall|c: nat|
            #[trigger] front_of(s).dom().contains(c) <==> exists|i: int|
                0 <= i < s.len() && complexity_of(#[trigger] s[i].1) == c,
        forall|i: int|
            0 <= i < s.len() ==> #[trigger] front_of(s)[complexity_of(s[i].1)] == (EntryView {
                error: s[i].0,
                expr: s[i].1,
                affine: None,
            }),
    decreases s.len(),
{
    if s.len() > 0 {
        let pre = s.drop_last();
        assert(is_strict_front(pre)) by {
            assert forall|i: int| 0 <= i < pre.len() implies finite_bits(#[trigger] pre[i].0) by {
                assert(pre[i] == s[i]);
            }
            assert forall|i: int, j: int| 0 <= i < j < pre.len() implies complexity_of(#[trigger] pre[j].1)
                < complexity_of(#[trigger] pre[i].1) && error_below(pre[i].0, pre[j].0) by {
                assert(pre[i] == s[i] && pre[j] == s[j]);
            }
        }
        lemma_front_of_strict(pre);
        let last = s[s.len() - 1];
        let c = complexity_of(last.1);
        let mp = front_of(pre);
        assert(!mp.dom().contains(c)) by {
            if mp.dom().contains(c) {
                let i = choose|i: int| 0 <= i < pre.len() && complexity_of(#[trigger] pre[i].1) == c;
                assert(pre[i] == s[i]);
            }
        }
        assert(finite_bits(last.0));
        assert(front_of(s) == mp.insert(c, EntryView { error: last.0, expr: last.1, affine: None }));
        assert forall|k: nat| #[trigger] front_of(s).dom().contains(k) <==> exists|i: int|
            0 <= i < s.len() && complexity_of(#[trigger] s[i].1) == k by {
            if mp.dom().contains(k) {
                let i = choose|i: int| 0 <= i < pre.len() && complexity_of(#[trigger] pre[i].1) == k;
                assert(s[i] == pre[i]);
            }
            if exists|i: int| 0 <= i < s.len() && complexity_of(#[trigger] s[i].1) == k {
                let i = choose|i: int| 0 <= i < s.len() && complexity_of(#[trigger] s[i].1) == k;
                if i < pre.len() {
                    assert(pre[i] == s[i]);
                    assert(mp.dom().contains(k));
                }
            }
        }
        assert forall|i: int| 0 <= i < s.len() implies #[trigger] front_of(s)[complexity_of(s[i].1)]
            == (EntryView { error: s[i].0, expr: s[i].1, affine: None }) by {
            if i < pre.len() {
                assert(pre[i] == s[i]);
                assert(complexity_of(s[i].1) != c);
            }
        }
    }
}

/// Two strictly falling lists with the same elements are equal.
proof fn lemma_falling_unique(a: Seq<nat>, b: Seq<nat>)
    requires
        forall|i: int, j: int| 0 <= i < j < a.len() ==> #[trigger] a[j] < #[trigger] a[i],
        forall|i: int, j: int| 0 <= i < j < b.len() ==> #[trigger] b[j] < #[trigger] b[i],
        forall|v: nat| a.contains(v) <==> b.contains(v),
    ensures
        a == b,
    decreases a.len() + b.len(),
{
    if a.len() == 0 {
        if b.len() > 0 {
            assert(b.contains(b[0]));
        }
        assert(a =~= b);
    } else {
        assert(a.contains(a[0]));
        assert(b.len() > 0);
        assert(b.contains(b[0]));
        let ia = choose|i: int| 0 <= i < a.len() && a[i] == b[0];
        let ib = choose|i: int| 0 <= i < b.len() && b[i] == a[0];
        if ia > 0 {
            assert(a[ia] < a[0]);
        }
        if ib > 0 {
            assert(b[ib] < b[0]);
        }
        assert(a[0] == b[0]);
        let a1 = a.drop_first();
        let b1 = b.drop_first();
        assert forall|v: nat| a1.contains(v) <==> b1.contains(v) by {
            if a1.contains(v) {
                let i = choose|i: int| 0 <= i < a1.len() && a1[i] == v;
                assert(a[i + 1] == v && a[i + 1] < a[0]);
                assert(a.contains(v));
                let k = choose|k: int| 0 <= k < b.len() && b[k] == v;
                assert(k != 0);
                assert(b1[k - 1] == v);
            }
            if b1.contains(v) {
                let i = choose|i: int| 0 <= i < b1.len() && b1[i] == v;
                assert(b[i + 1] == v && b[i + 1] < b[0]);
                assert(b.contains(v));
                let k = choose|k: int| 0 <= k < a.len() && a[k] == v;
                assert(k != 0);
                assert(a1[k - 1] == v);
            }
        }
        lemma_falling_unique(a1, b1);
        assert(a =~= seq![a[0]] + a1);
        assert(b =~= seq![b[0]] + b1);
    }
}

/// Merging is idempotent: merging the pairs of a strict front gives back
/// that very front.
#[verifier::spinoff_prover]
#[verifier::rlimit(30)]
pub proof fn law_merge_idempotent(s: Seq<(u64, ExprView)>, r: Seq<(u64, ExprView)>)
    requires
        is_strict_front(s),
        merged(front_of(s), r),
    ensures
        r == s,
{
    let m = front_of(s);
    lemma_front_of_strict(s);
    assert forall|i: int| 0 <= i < s.len() implies on_front(m, complexity_of(#[trigger] s[i].1)) by {
        let c = complexity_of(s[i].1);
        assert(m.dom().contains(c));
        assert forall|c2: nat| #![trigger m.dom().contains(c2)] m.dom().contains(c2) && c2 < c implies error_below(
            m[c].error,
            m[c2].error,
        ) by {
            let j = choose|j: int| 0 <= j < s.len() && complexity_of(#[trigger] s[j].1) == c2;
            if j < i {
                assert(complexity_of(s[i].1) < complexity_of(s[j].1));
            }
            assert(j != i);
            assert(m[c2] == (EntryView { error: s[j].0, expr: s[j].1, affine: None }));
        }
    }
    let cs = s.map_values(|p: (u64, ExprView)| complexity_of(p.1));
    let cr = r.map_values(|p: (u64, ExprView)| complexity_of(p.1));
    assert forall|v: nat| cs.contains(v) <==> cr.contains(v) by {
        if cs.contains(v) {
            let i = choose|i: int| 0 <= i < cs.len() && cs[i] == v;
            assert(complexity_of(s[i].1) == v);
            assert(on_front(m, v));
            let k = choose|k: int| 0 <= k < r.len() && complexity_of(#[trigger] r[k].1) == v;
            assert(cr[k] == v);
        }
        if cr.contains(v) {
            let k = choose|k: int| 0 <= k < cr.len() && cr[k] == v;
            assert(complexity_of(r[k].1) == v);
            assert(m.dom().contains(v));
            let i = choose|i: int| 0 <= i < s.len() && complexity_of(#[trigger] s[i].1) == v;
            assert(cs[i] == v);
        }
    }
    assert forall|i: int, j: int| 0 <= i < j < cs.len() implies #[trigger] cs[j] < #[trigger] cs[i] by {
        assert(complexity_of(s[j].1) < complexity_of(s[i].1));
    }
    assert forall|i: int, j: int| 0 <= i < j < cr.len() implies #[trigger] cr[j] < #[trigger] cr[i] by {
        assert(complexity_of(r[j].1) < complexity_of(r[i].1));
    }
    lemma_falling_unique(cs, cr);
    assert forall|k: int| 0 <= k < r.len() implies #[trigger] r[k] == s[k] by {
        assert(cs[k] == cr[k]);
        let c = complexity_of(r[k].1);
        assert(complexity_of(s[k].1) == c);
        assert(m[c] == (EntryView { error: s[k].0, expr: s[k].1, affine: None }));
    }
    assert(r =~= s);
}

/// Offering never makes a slot worse: every occupied slot stays occupied,
/// with an error no larger than before.
pub proof fn law_offer_keeps_slots(m: Map<nat, EntryView>, entry: EntryView, c: nat)
    requires
        m.dom().contains(c),
    ensures
        offer(m, entry).dom().contains(c),
        order_value(offer(m, entry)[c].error) <= order_value(m[c].error),
{
}

/// After an offer, the slot of the entry's complexity holds an error no
/// larger than the entry's.
pub proof fn law_offer_at_least_as_good(m: Map<nat, EntryView>, entry: EntryView)
    ensures
        offer(m, entry).dom().contains(complexity_of(entry.expr)),
        order_value(offer(m, entry)[complexity_of(entry.expr)].error) <= order_value(entry.error),
{
}

/// Each slot of the front of a list holds the least error among the pairs
/// of its complexity with a finite error: no such pair has a smaller error,
/// and every such pair has its complexity occupied.
pub proof fn law_front_of_least(s: Seq<(u64, ExprView)>, i: int)
    requires
        0 <= i < s.len(),
        finite_bits(s[i].0),
    ensures
        front_of(s).dom().contains(complexity_of(s[i].1)),
        order_value(front_of(s)[complexity_of(s[i].1)].error) <= order_value(s[i].0),
    decreases s.len(),
{
    let c = complexity_of(s[i].1);
    if i < s.len() - 1 {
        law_front_of_least(s.drop_last(), i);
        let m = front_of(s.drop_last());
        let (e, x) = s.last();
        if finite_bits(e) {
            law_offer_keeps_slots(m, EntryView { error: e, expr: x, affine: None }, c);
        }
    }
}

/// Every slot of the front of a list holds one of the listed pairs, with a
/// finite error.
pub proof fn law_front_of_members(s: Seq<(u64, ExprView)>, c: nat)
    requires
        front_of(s).dom().contains(c),
    ensures
        exists|i: int|
            0 <= i < s.len() && #[trigger] s[i] == (front_of(s)[c].error, front_of(s)[c].expr),
        finite_bits(front_of(s)[c].error),
        complexity_of(front_of(s)[c].expr) == c,
    decreases s.len(),
{
    let m = front_of(s.drop_last());
    let (e, x) = s.last();
    if finite_bits(e) && complexity_of(x) == c && (!m.dom().contains(c) || error_below(
        e,
        m[c].error,
    )) {
        assert(s[s.len() - 1] == (front_of(s)[c].error, front_of(s)[c].expr));
    } else {
        law_front_of_members(s.drop_last(), c);
        let i = choose|i: int|
            0 <= i < s.drop_last().len() && #[trigger] s.drop_last()[i] == (m[c].error, m[c].expr);
        assert(s[i] == s.drop_last()[i]);
    }
}

/// What a search reports when no candidate survived.
pub enum SearchError {
    /// No expression up to the given complexity was found.
    NotFound { max_complexity: usize },
    /// The inputs and the target are empty or of different lengths.
    InvalidInput,
}

/// The shape check every search starts with: the input rows and the target
/// values must be non-empty and equally many.
pub fn check_shapes(n_rows: usize, n_targets: usize) -> (r: Result<(), SearchError>)
    ensures
        r is Ok <==> (n_rows > 0 && n_targets > 0 && n_rows == n_targets),
        r is Err ==> r == Err::<(), SearchError>(SearchError::InvalidInput),
{
    if n_rows == 0 || n_targets == 0 || n_rows != n_targets {
        Err(SearchError::InvalidInput)
    } else {
        Ok(())
    }
}

/// The strict Pareto front of a search's final pool, or `NotFound` when the
/// pool is empty.
pub fn finalize_result(front: Vec<(u64, Expression)>, max_complexity: usize) -> (r: Result<
    Vec<(u64, Expression)>,
    SearchError,
>)
    ensures
        front@.len() == 0 <==> r == Err::<Vec<(u64, Expression)>, SearchError>(
            SearchError::NotFound { max_complexity },
        ),
        r is Ok ==> {
            let m = front_of(pair_views(front@));
            let v = r->Ok_0;
            &&& forall|i: int|
                0 <= i < v@.len() ==> {
                    let c = complexity_of(#[trigger] v@[i].1@);
                    &&& m.dom().contains(c)
                    &&& m[c].error == v@[i].0
                    &&& m[c].expr == v@[i].1@
                }
            &&& forall|i: int, j: int|
                0 <= i < j < v@.len() ==> complexity_of(#[trigger] v@[j].1@) < complexity_of(
                    #[trigger] v@[i].1@,
                ) && error_below(v@[i].0, v@[j].0)
            &&& forall|c: nat|
                #[trigger] on_front(m, c) <==> exists|i: int|
                    0 <= i < v@.len() && complexity_of(#[trigger] v@[i].1@) == c
        },
{
    if front.len() == 0 {
        return Err(SearchError::NotFound { max_complexity });
    }
    Ok(merge_pareto(front))
}

} // verus!
