//! The record of expression fingerprints a beam search has met, kept in a
//! `dashmap::DashMap`: a candidate enters the search only the first time
//! its fingerprint is met.

use vstd::prelude::*;

use crate::bfs::exprs_view;
use crate::expression::{ExprView, Expression};
use dashmap::DashMap;
use std::collections::hash_map::RandomState;

verus! {

/// `dashmap::DashMap`, the concurrent map holding the fingerprints.
#[verifier::external_type_specification]
#[verifier::external_body]
#[verifier::reject_recursive_types(K)]
#[verifier::reject_recursive_types(V)]
#[verifier::reject_recursive_types(S)]
pub struct ExDashMap<K, V, S>(DashMap<K, V, S>);

/// The keys a fingerprint map holds.
pub uninterp spec fn map_keys(m: DashMap<u64, (), RandomState>) -> Set<u64>;

/// `DashMap::new`: a map with no key.
#[verifier::external_body]
fn new_map() -> (m: DashMap<u64, (), RandomState>)
    ensures
        map_keys(m) == Set::<u64>::empty(),
{
    DashMap::new()
}

/// `DashMap::insert(key, ())`: afterwards the map holds `key` besides what
/// it held; the old value is returned, `None` exactly when `key` was absent.
#[verifier::external_body]
fn map_insert(m: &mut DashMap<u64, (), RandomState>, key: u64) -> (prev: Option<()>)
    ensures
        map_keys(*final(m)) == map_keys(*old(m)).insert(key),
        prev is None <==> !map_keys(*old(m)).contains(key),
{
    m.insert(key, ())
}

/// `DashMap::contains_key`.
#[verifier::external_body]
fn map_contains(m: &DashMap<u64, (), RandomState>, key: u64) -> (r: bool)
    ensures
        r == map_keys(*m).contains(key),
{
    m.contains_key(&key)
}

/// The fingerprints met so far.
pub struct SeenFingerprints {
    map: DashMap<u64, (), RandomState>,
}

impl View for SeenFingerprints {
    type V = Set<u64>;

    closed spec fn view(&self) -> Set<u64> {
        map_keys(self.map)
    }
}

/// The candidates kept, in order, and the fingerprints met, when the
/// candidates `cs` with fingerprints `fps` are offered to the record
/// `seen`: a candidate is kept when it has a fingerprint not met before
/// (among the earlier candidates too); a candidate without one is dropped.
pub open spec fn spec_take_new(seen: Set<u64>, cs: Seq<ExprView>, fps: Seq<Option<u64>>) -> (Seq<ExprView>, Set<u64>)
    decreases cs.len(),
{
    if cs.len() == 0 || fps.len() != cs.len() {
        (Seq::empty(), seen)
    } else {
        let (kept, met) = spec_take_new(seen, cs.drop_last(), fps.drop_last());
        match fps.last() {
            Some(f) => if met.contains(f) {
                (kept, met)
            } else {
                (kept.push(cs.last()), met.insert(f))
            },
            None => (kept, met),
        }
    }
}

/// At most `max` members of `s`: its first `max`.
pub open spec fn cut(s: Seq<ExprView>, max: nat) -> Seq<ExprView> {
    if s.len() <= max {
        s
    } else {
        s.take(max as int)
    }
}

impl SeenFingerprints {
    /// No fingerprint met yet.
    pub fn new() -> (s: SeenFingerprints)
        ensures
            s@ == Set::<u64>::empty(),
    {
        SeenFingerprints { map: new_map() }
    }

    /// Whether the fingerprint has been met.
    pub fn contains(&self, fp: u64) -> (r: bool)
        ensures
            r == self@.contains(fp),
    {
        map_contains(&self.map, fp)
    }

    /// Records a fingerprint; true when it had not been met before.
    pub fn insert(&mut self, fp: u64) -> (fresh: bool)
        ensures
            final(self)@ == old(self)@.insert(fp),
            fresh == !old(self)@.contains(fp),
    {
        let prev = map_insert(&mut self.map, fp);
        match prev {
            None => true,
            Some(_) => false,
        }
    }

    /// Offers the candidates of a level, in order, with their fingerprints
    /// (`None` where none could be computed): the ones whose fingerprint
    /// has not been met enter, and every fingerprint offered is recorded;
    /// the entrants are then cut to at most `max_pool`.
    pub fn take_new(&mut self, cands: Vec<Expression>, fps: &Vec<Option<u64>>, max_pool: usize) -> (kept: Vec<
        Expression,
    >)
        requires
            cands@.len() == fps@.len(),
        ensures
            final(self)@ == spec_take_new(old(self)@, exprs_view(cands@), fps@).1,
            exprs_view(kept@) == cut(spec_take_new(old(self)@, exprs_view(cands@), fps@).0, max_pool as nat),
    {
        let ghost start = self@;
        let ghost cv = exprs_view(cands@);
        let mut kept: Vec<Expression> = Vec::new();
        let mut i: usize = 0;
        let mut cands = cands;
        let ghost all = cands@;
        while i < fps.len()
            invariant
                cands@ == all,
                cv == exprs_view(all),
                all.len() == fps@.len(),
                i <= fps@.len(),
                ({
                    let (k, m) = spec_take_new(start, cv.take(i as int), fps@.take(i as int));
                    exprs_view(kept@) == k && self@ == m
                }),
            decreases fps@.len() - i,
        {
            let ghost before = kept@;
            let ghost pre = spec_take_new(start, cv.take(i as int), fps@.take(i as int));
            proof {
                assert(cv.take(i + 1).drop_last() =~= cv.take(i as int));
                assert(fps@.take(i + 1).drop_last() =~= fps@.take(i as int));
                assert(cv.take(i + 1).last() == cands@[i as int]@);
            }
            match fps[i] {
                Some(f) => {
                    let fresh = self.insert(f);
                    if fresh {
                        kept.push(cands[i].duplicate());
                        proof {
                            assert(exprs_view(kept@) =~= exprs_view(before).push(all[i as int]@));
                        }
                    }
                },
                None => {},
            }
            i += 1;
        }
        proof {
            assert(cv.take(all.len() as int) =~= cv);
            assert(fps@.take(fps@.len() as int) =~= fps@);
        }
        let ghost full = kept@;
        kept.truncate(max_pool);
        proof {
            if max_pool < full.len() {
                assert(exprs_view(kept@) =~= exprs_view(full).take(max_pool as int));
            }
        }
        kept
    }
}

} // verus!

verus! {

/// The fingerprints among `fps`.
pub open spec fn offered(fps: Seq<Option<u64>>) -> Set<u64> {
    Set::new(|f: u64| exists|i: int| 0 <= i < fps.len() && fps[i] == Some(f))
}

/// Offering a level's candidates records exactly the fingerprints offered
/// besides those met before, and keeps at most one candidate per new
/// fingerprint: no more candidates than there are fingerprints offered that
/// had not been met.
pub proof fn law_take_new_records(seen: Set<u64>, cs: Seq<ExprView>, fps: Seq<Option<u64>>)
    requires
        cs.len() == fps.len(),
        seen.finite(),
    ensures
        spec_take_new(seen, cs, fps).1 == seen.union(offered(fps)),
        spec_take_new(seen, cs, fps).1.finite(),
        spec_take_new(seen, cs, fps).0.len() == spec_take_new(seen, cs, fps).1.len() - seen.len(),
    decreases cs.len(),
{
    if cs.len() > 0 {
        let cp = cs.drop_last();
        let fp = fps.drop_last();
        law_take_new_records(seen, cp, fp);
        let (kept, met) = spec_take_new(seen, cp, fp);
        assert(spec_take_new(seen, cs, fps).1 =~= seen.union(offered(fps))) by {
            assert forall|f: u64| offered(fps).contains(f) implies #[trigger] spec_take_new(seen, cs, fps).1.contains(f) by {
                let i = choose|i: int| 0 <= i < fps.len() && fps[i] == Some(f);
                if i < fps.len() - 1 {
                    assert(fp[i] == Some(f));
                    assert(offered(fp).contains(f));
                }
            }
            assert forall|f: u64| #[trigger] spec_take_new(seen, cs, fps).1.contains(f) && !seen.contains(f) implies offered(fps).contains(f) by {
                if met.contains(f) {
                    assert(offered(fp).contains(f));
                    let i = choose|i: int| 0 <= i < fp.len() && fp[i] == Some(f);
                    assert(fps[i] == Some(f));
                } else {
                    assert(fps[fps.len() - 1] == Some(f));
                }
            }
        }
    } else {
        assert(offered(fps) =~= Set::<u64>::empty());
        assert(seen.union(offered(fps)) =~= seen);
    }
}

} // verus!
