//! The supports a dictionary pursuit has already finalized: each support is
//! the collection of chosen dictionary columns, compared without regard to
//! the order in which the columns were chosen.

use vstd::prelude::*;
use vstd::multiset::Multiset;
use vstd::relations::{sorted_by, total_ordering};
use vstd::seq_lib::lemma_sorted_unique;

verus! {

/// The sequence is in ascending order.
pub open spec fn ascending(s: Seq<usize>) -> bool {
    forall|i: int, j: int| 0 <= i < j < s.len() ==> s[i] <= s[j]
}

/// The order `<=` on column indices.
pub open spec fn index_leq() -> spec_fn(usize, usize) -> bool {
    |a: usize, b: usize| a <= b
}

proof fn lemma_ascending_unique(x: Seq<usize>, y: Seq<usize>)
    requires
        ascending(x),
        ascending(y),
        x.to_multiset() == y.to_multiset(),
    ensures
        x == y,
{
    let leq = index_leq();
    assert(total_ordering(leq));
    assert(sorted_by(x, leq)) by {
        assert forall|i: int, j: int| 0 <= i < j < x.len() implies #[trigger] leq(x[i], x[j]) by {}
    }
    assert(sorted_by(y, leq)) by {
        assert forall|i: int, j: int| 0 <= i < j < y.len() implies #[trigger] leq(y[i], y[j]) by {}
    }
    lemma_sorted_unique(x, y, leq);
}

/// The columns of `v` in ascending order.
fn sorted_copy(v: &[usize]) -> (r: Vec<usize>)
    ensures
        ascending(r@),
        r@.to_multiset() == v@.to_multiset(),
{
    broadcast use vstd::seq_lib::group_to_multiset_ensures;

    let mut r: Vec<usize> = Vec::with_capacity(v.len());
    let mut i: usize = 0;
    assert(v@.take(0) =~= Seq::<usize>::empty());
    while i < v.len()
        invariant
            i <= v@.len(),
            ascending(r@),
            r@.to_multiset() == v@.take(i as int).to_multiset(),
        decreases v@.len() - i,
    {
        let x = v[i];
        let mut p: usize = 0;
        while p < r.len() && r[p] <= x
            invariant
                p <= r@.len(),
                forall|q: int| 0 <= q < p ==> r@[q] <= x,
            decreases r@.len() - p,
        {
            p += 1;
        }
        let ghost before = r@;
        r.insert(p, x);
        proof {
            assert(r@ == before.insert(p as int, x));
            assert forall|a: int, b: int| 0 <= a < b < r@.len() implies r@[a] <= r@[b] by {
                if b < p {
                } else if a < p && b == p {
                } else if a < p {
                    assert(r@[b] == before[b - 1]);
                } else if a == p {
                    assert(r@[b] == before[b - 1]);
                    if p < before.len() {
                        assert(x < before[p as int]);
                        assert(before[p as int] <= before[b - 1]);
                    }
                } else {
                    assert(r@[a] == before[a - 1]);
                    assert(r@[b] == before[b - 1]);
                }
            }
            vstd::seq_lib::to_multiset_insert(before, p as int, x);
            assert(v@.take(i + 1) =~= v@.take(i as int).push(x));
            vstd::seq_lib::to_multiset_build(v@.take(i as int), x);
        }
        i += 1;
    }
    assert(v@.take(v@.len() as int) =~= v@);
    r
}

/// Two column lists are equal.
fn same_columns(a: &Vec<usize>, b: &Vec<usize>) -> (r: bool)
    ensures
        r == (a@ == b@),
{
    if a.len() != b.len() {
        return false;
    }
    let mut i: usize = 0;
    while i < a.len()
        invariant
            a@.len() == b@.len(),
            i <= a@.len(),
            forall|k: int| 0 <= k < i ==> a@[k] == b@[k],
        decreases a@.len() - i,
    {
        if a[i] != b[i] {
            return false;
        }
        i += 1;
    }
    assert(a@ =~= b@);
    true
}

/// The supports seen so far.
pub struct SeenSupports {
    supports: Vec<Vec<usize>>,
}

impl View for SeenSupports {
    type V = Set<Multiset<usize>>;

    closed spec fn view(&self) -> Set<Multiset<usize>> {
        Set::new(
            |m: Multiset<usize>|
                exists|i: int|
                    0 <= i < self.supports@.len() && #[trigger] self.supports@[i]@.to_multiset() == m,
        )
    }
}

impl SeenSupports {
    /// Every stored support is kept in ascending order.
    pub closed spec fn wf(&self) -> bool {
        forall|i: int| 0 <= i < self.supports@.len() ==> ascending(#[trigger] self.supports@[i]@)
    }

    /// No support seen yet.
    pub fn new() -> (s: SeenSupports)
        ensures
            s.wf(),
            s@ == Set::<Multiset<usize>>::empty(),
    {
        let s = SeenSupports { supports: Vec::new() };
        assert(s@ =~= Set::<Multiset<usize>>::empty());
        s
    }

    /// Where `key` is stored, if anywhere.
    fn position(&self, key: &Vec<usize>) -> (r: Option<usize>)
        ensures
            match r {
                Some(i) => i < self.supports@.len() && self.supports@[i as int]@ == key@,
                None => forall|q: int| 0 <= q < self.supports@.len() ==> #[trigger] self.supports@[q]@ != key@,
            },
    {
        let mut i: usize = 0;
        while i < self.supports.len()
            invariant
                i <= self.supports@.len(),
                forall|q: int| 0 <= q < i ==> #[trigger] self.supports@[q]@ != key@,
            decreases self.supports@.len() - i,
        {
            if same_columns(&self.supports[i], key) {
                return Some(i);
            }
            i += 1;
        }
        None
    }

    /// Records the support of `chosen` (its columns, in any order); returns
    /// whether it had not been seen before.
    pub fn insert(&mut self, chosen: &[usize]) -> (fresh: bool)
        requires
            old(self).wf(),
        ensures
            final(self).wf(),
            fresh == !old(self)@.contains(chosen@.to_multiset()),
            final(self)@ == old(self)@.insert(chosen@.to_multiset()),
    {
        let key = sorted_copy(chosen);
        let ghost m = chosen@.to_multiset();
        match self.position(&key) {
            Some(i) => {
                proof {
                    assert(self.supports@[i as int]@.to_multiset() == m);
                    assert(self@.contains(m));
                    assert(self@.insert(m) =~= self@);
                }
                return false;
            },
            None => {},
        }
        proof {
            assert forall|q: int| 0 <= q < self.supports@.len() implies #[trigger] self.supports@[q]@.to_multiset() != m by {
                if self.supports@[q]@.to_multiset() == m {
                    lemma_ascending_unique(self.supports@[q]@, key@);
                }
            }
        }
        let ghost old_view = self@;
        let ghost old_supports = self.supports@;
        proof {
            assert(!old_view.contains(m)) by {
                if old_view.contains(m) {
                    let q = choose|q: int|
                        0 <= q < old_supports.len() && #[trigger] old_supports[q]@.to_multiset() == m;
                }
            }
        }
        self.supports.push(key);
        proof {
            assert forall|x: Multiset<usize>| #[trigger] self@.contains(x) == old_view.insert(m).contains(x) by {
                if old_view.contains(x) {
                    let q = choose|q: int|
                        0 <= q < old_supports.len() && #[trigger] old_supports[q]@.to_multiset() == x;
                    assert(self.supports@[q] == old_supports[q]);
                }
                if self@.contains(x) {
                    let q = choose|q: int|
                        0 <= q < self.supports@.len() && #[trigger] self.supports@[q]@.to_multiset() == x;
                    if q < old_supports.len() {
                        assert(self.supports@[q] == old_supports[q]);
                    }
                }
                if x == m {
                    assert(self.supports@[old_supports.len() as int]@.to_multiset() == m);
                }
            }
            assert(self@ =~= old_view.insert(m));
        }
        true
    }
}

} // verus!
