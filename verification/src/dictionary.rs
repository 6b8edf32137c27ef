//! Exponent vectors of the monomial dictionaries: every way of giving at
//! most `cap` of the usable variables one exponent each, enumerated
//! depth-first.

use vstd::prelude::*;

use crate::expression::{
    copy_reals, one_bits, real_half, real_minus_half, real_minus_one, real_minus_three,
    real_minus_two, real_one, real_three, real_two, real_zero, Real,
};
use crate::feature::{
    feature_candidates, feature_vars, logs, pair_block, pair_row, pairs, single_block,
    single_variable_features, singles, Feature, Term,
};
use crate::realbits::{is_zero, zero_bits};
use crate::powerlaw::{binom, dict_count, dict_size_estimate, lemma_binom_zero, power};

verus! {

/// A number as a mathematical value.
pub open spec fn real_view(r: Real) -> (u64, Seq<char>) {
    (r.bits, r.text@)
}

/// The value of `0.0`.
pub open spec fn zero_view() -> (u64, Seq<char>) {
    (0, seq!['0'])
}

/// An active list: (position in `usable`, position in the exponent set)
/// pairs. `vector_of` turns it into an exponent vector over `d` variables.
pub open spec fn vector_of(
    usable: Seq<usize>,
    exps: Seq<(u64, Seq<char>)>,
    d: nat,
    active: Seq<(nat, nat)>,
) -> Seq<(u64, Seq<char>)>
    decreases active.len(),
{
    if active.len() == 0 {
        Seq::new(d, |i: int| zero_view())
    } else {
        let (u, e) = active.last();
        vector_of(usable, exps, d, active.drop_last()).update(usable[u as int] as int, exps[e as int])
    }
}

/// Measure of the enumeration below `start`.
pub open spec fn rest(n: nat, start: nat) -> nat {
    if start <= n {
        (n - start) as nat
    } else {
        0
    }
}

/// The vectors the depth-first enumeration emits from the node
/// (`start`, `active`): the node's own vector (unless `active` is empty),
/// then, unless `active` already has `cap` entries, the subtrees of its
/// children, last child first.
pub open spec fn dfs(
    usable: Seq<usize>,
    exps: Seq<(u64, Seq<char>)>,
    d: nat,
    cap: nat,
    start: nat,
    active: Seq<(nat, nat)>,
) -> Seq<Seq<(u64, Seq<char>)>>
    decreases rest(usable.len(), start), 2nat, 0nat,
{
    let own = if active.len() > 0 {
        seq![vector_of(usable, exps, d, active)]
    } else {
        Seq::empty()
    };
    if active.len() >= cap {
        own
    } else {
        own + kids(usable, exps, d, cap, start, active, usable.len())
    }
}

/// The subtrees of the children `(u + 1, active + [(u, e)])` for
/// `start <= u < u_hi`, larger `u` first.
pub open spec fn kids(
    usable: Seq<usize>,
    exps: Seq<(u64, Seq<char>)>,
    d: nat,
    cap: nat,
    start: nat,
    active: Seq<(nat, nat)>,
    u_hi: nat,
) -> Seq<Seq<(u64, Seq<char>)>>
    decreases rest(usable.len(), start), 1nat, u_hi,
{
    if u_hi <= start || u_hi > usable.len() {
        Seq::empty()
    } else {
        let u = (u_hi - 1) as nat;
        block(usable, exps, d, cap, u, active, exps.len()) + kids(
            usable,
            exps,
            d,
            cap,
            start,
            active,
            u,
        )
    }
}

/// The subtrees of the children `(u + 1, active + [(u, e)])` for
/// `e < e_hi`, larger `e` first.
pub open spec fn block(
    usable: Seq<usize>,
    exps: Seq<(u64, Seq<char>)>,
    d: nat,
    cap: nat,
    u: nat,
    active: Seq<(nat, nat)>,
    e_hi: nat,
) -> Seq<Seq<(u64, Seq<char>)>>
    decreases rest(usable.len(), u), 0nat, e_hi,
{
    if e_hi == 0 || u >= usable.len() {
        Seq::empty()
    } else {
        let e = (e_hi - 1) as nat;
        dfs(usable, exps, d, cap, u + 1, active.push((u, e))) + block(
            usable,
            exps,
            d,
            cap,
            u,
            active,
            e,
        )
    }
}

/// All exponent vectors of the dictionary: the zero vector, then the
/// depth-first enumeration from the root.
pub open spec fn spec_enumerate(
    usable: Seq<usize>,
    exps: Seq<(u64, Seq<char>)>,
    d: nat,
    cap: nat,
) -> Seq<Seq<(u64, Seq<char>)>> {
    seq![Seq::new(d, |i: int| zero_view())] + dfs(usable, exps, d, cap, 0, Seq::empty())
}

/// The values of a vector of numbers.
pub open spec fn vec_view(v: Seq<Real>) -> Seq<(u64, Seq<char>)> {
    v.map_values(|r: Real| real_view(r))
}

/// The values of a list of vectors of numbers.
pub open spec fn vecs_view(v: Seq<Vec<Real>>) -> Seq<Seq<(u64, Seq<char>)>> {
    v.map_values(|x: Vec<Real>| vec_view(x@))
}

/// The pairs of an active list, as naturals.
pub open spec fn active_view(a: Seq<(usize, usize)>) -> Seq<(nat, nat)> {
    a.map_values(|p: (usize, usize)| (p.0 as nat, p.1 as nat))
}

/// Every variable listed in `usable` is one of the `d` variables.
pub open spec fn usable_ok(usable: Seq<usize>, d: nat) -> bool {
    forall|k: int| 0 <= k < usable.len() ==> #[trigger] usable[k] < d
}

/// The exponent vector of an active list.
fn build_vector(d: usize, usable: &[usize], exponent_set: &[Real], active: &Vec<(usize, usize)>) -> (v:
    Vec<Real>)
    requires
        usable_ok(usable@, d as nat),
        forall|k: int|
            0 <= k < active@.len() ==> #[trigger] active@[k].0 < usable@.len() && active@[k].1
                < exponent_set@.len(),
    ensures
        vec_view(v@) == vector_of(usable@, vec_view(exponent_set@), d as nat, active_view(active@)),
{
    let ghost ev = vec_view(exponent_set@);
    let mut v: Vec<Real> = Vec::with_capacity(d);
    let mut i: usize = 0;
    while i < d
        invariant
            i <= d,
            v@.len() == i,
            forall|j: int| 0 <= j < i ==> real_view(#[trigger] v@[j]) == zero_view(),
        decreases d - i,
    {
        v.push(real_zero());
        i += 1;
    }
    assert(vec_view(v@) =~= vector_of(usable@, ev, d as nat, active_view(active@).take(0)));
    let mut k: usize = 0;
    while k < active.len()
        invariant
            usable_ok(usable@, d as nat),
            forall|q: int|
                0 <= q < active@.len() ==> #[trigger] active@[q].0 < usable@.len() && active@[q].1
                    < exponent_set@.len(),
            ev == vec_view(exponent_set@),
            v@.len() == d,
            k <= active@.len(),
            vec_view(v@) == vector_of(usable@, ev, d as nat, active_view(active@).take(k as int)),
        decreases active@.len() - k,
    {
        let (u, e) = active[k];
        let j = usable[u];
        assert(j < d);
        let x = exponent_set[e].duplicate();
        v.set(j, x);
        proof {
            let a = active_view(active@).take(k + 1);
            assert(a.drop_last() =~= active_view(active@).take(k as int));
            assert(a.last() == (u as nat, e as nat));
            assert(vec_view(v@) =~= vector_of(usable@, ev, d as nat, a));
        }
        k += 1;
    }
    assert(active_view(active@).take(active@.len() as int) =~= active_view(active@));
    v
}

} // verus!

verus! {

/// The entries of an active list point into `usable` and the exponent set.
pub open spec fn active_ok(active: Seq<(usize, usize)>, n_usable: nat, n_exps: nat) -> bool {
    forall|k: int|
        0 <= k < active.len() ==> #[trigger] active[k].0 < n_usable && active[k].1 < n_exps
}

/// Appends the depth-first enumeration from (`start`, `active`) to `out`.
fn explore(
    d: usize,
    usable: &[usize],
    exponent_set: &[Real],
    cap: usize,
    start: usize,
    active: &mut Vec<(usize, usize)>,
    out: &mut Vec<Vec<Real>>,
)
    requires
        usable_ok(usable@, d as nat),
        active_ok(old(active)@, usable@.len(), exponent_set@.len()),
        start <= usable@.len(),
    ensures
        final(active)@ == old(active)@,
        vecs_view(final(out)@) == vecs_view(old(out)@) + dfs(
            usable@,
            vec_view(exponent_set@),
            d as nat,
            cap as nat,
            start as nat,
            active_view(old(active)@),
        ),
    decreases rest(usable@.len(), start as nat),
{
    let ghost ev = vec_view(exponent_set@);
    let ghost n = usable@.len();
    let ghost a0 = active@;
    let ghost av = active_view(a0);
    let ghost base = vecs_view(out@);
    if active.len() > 0 {
        let v = build_vector(d, usable, exponent_set, active);
        out.push(v);
    }
    let ghost own = if av.len() > 0 {
        seq![vector_of(usable@, ev, d as nat, av)]
    } else {
        Seq::<Seq<(u64, Seq<char>)>>::empty()
    };
    assert(vecs_view(out@) =~= base + own);
    if active.len() >= cap {
        return;
    }
    let n_exec: usize = usable.len();
    let mut u_hi: usize = n_exec;
    proof {
        let k = kids(usable@, ev, d as nat, cap as nat, start as nat, av, n);
        assert(Seq::<Seq<(u64, Seq<char>)>>::empty() + k =~= k);
        assert(vecs_view(out@) =~= base + own + Seq::<Seq<(u64, Seq<char>)>>::empty());
    }
    while u_hi > start
        invariant
            n == n_exec as nat,
            usable_ok(usable@, d as nat),
            active_ok(a0, usable@.len(), exponent_set@.len()),
            active@ == a0,
            av == active_view(a0),
            ev == vec_view(exponent_set@),
            n == usable@.len(),
            start <= u_hi <= n,
            av.len() < cap,
            exists|x: Seq<Seq<(u64, Seq<char>)>>|
                #![trigger x + kids(usable@, ev, d as nat, cap as nat, start as nat, av, u_hi as nat)]
                vecs_view(out@) == base + own + x && x + kids(
                    usable@,
                    ev,
                    d as nat,
                    cap as nat,
                    start as nat,
                    av,
                    u_hi as nat,
                ) == kids(usable@, ev, d as nat, cap as nat, start as nat, av, n),
        decreases u_hi - start,
    {
        let u = u_hi - 1;
        let ghost x0 = choose|x: Seq<Seq<(u64, Seq<char>)>>|
            #![trigger x + kids(usable@, ev, d as nat, cap as nat, start as nat, av, u_hi as nat)]
            vecs_view(out@) == base + own + x && x + kids(
                usable@,
                ev,
                d as nat,
                cap as nat,
                start as nat,
                av,
                u_hi as nat,
            ) == kids(usable@, ev, d as nat, cap as nat, start as nat, av, n);
        let ghost before = vecs_view(out@);
        let mut e_hi: usize = exponent_set.len();
        proof {
            let b = block(usable@, ev, d as nat, cap as nat, u as nat, av, ev.len());
            assert(ev.len() == e_hi);
            assert(Seq::<Seq<(u64, Seq<char>)>>::empty() + b =~= b);
            assert(vecs_view(out@) =~= before + Seq::<Seq<(u64, Seq<char>)>>::empty());
        }
        while e_hi > 0
            invariant
                n == n_exec as nat,
                usable_ok(usable@, d as nat),
                active_ok(a0, usable@.len(), exponent_set@.len()),
                active@ == a0,
                av == active_view(a0),
                ev == vec_view(exponent_set@),
                n == usable@.len(),
                start <= u < n,
                e_hi <= exponent_set@.len(),
                exists|y: Seq<Seq<(u64, Seq<char>)>>|
                    #![trigger y + block(usable@, ev, d as nat, cap as nat, u as nat, av, e_hi as nat)]
                    vecs_view(out@) == before + y && y + block(
                        usable@,
                        ev,
                        d as nat,
                        cap as nat,
                        u as nat,
                        av,
                        e_hi as nat,
                    ) == block(usable@, ev, d as nat, cap as nat, u as nat, av, ev.len()),
            decreases e_hi,
        {
            let e = e_hi - 1;
            let ghost y0 = choose|y: Seq<Seq<(u64, Seq<char>)>>|
                #![trigger y + block(usable@, ev, d as nat, cap as nat, u as nat, av, e_hi as nat)]
                vecs_view(out@) == before + y && y + block(
                    usable@,
                    ev,
                    d as nat,
                    cap as nat,
                    u as nat,
                    av,
                    e_hi as nat,
                ) == block(usable@, ev, d as nat, cap as nat, u as nat, av, ev.len());
            let ghost mid = vecs_view(out@);
            active.push((u, e));
            proof {
                assert(active_view(active@) =~= av.push((u as nat, e as nat)));
                assert forall|k: int| 0 <= k < active@.len() implies #[trigger] active@[k].0
                    < usable@.len() && active@[k].1 < exponent_set@.len() by {
                    if k < a0.len() {
                        assert(active@[k] == a0[k]);
                    }
                }
            }
            explore(d, usable, exponent_set, cap, u + 1, active, out);
            let _ = active.pop();
            proof {
                assert(active@ =~= a0);
                let sub = dfs(usable@, ev, d as nat, cap as nat, (u + 1) as nat, av.push((u as nat, e as nat)));
                assert(vecs_view(out@) == mid + sub);
                let blk_hi = block(usable@, ev, d as nat, cap as nat, u as nat, av, e_hi as nat);
                let blk_lo = block(usable@, ev, d as nat, cap as nat, u as nat, av, e as nat);
                assert(blk_hi == sub + blk_lo);
                let y1 = y0 + sub;
                assert(vecs_view(out@) =~= before + y1);
                assert(y1 + blk_lo =~= y0 + blk_hi);
            }
            e_hi = e;
        }
        proof {
            let y = choose|y: Seq<Seq<(u64, Seq<char>)>>|
                #![trigger y + block(usable@, ev, d as nat, cap as nat, u as nat, av, 0nat)]
                vecs_view(out@) == before + y && y + block(
                    usable@,
                    ev,
                    d as nat,
                    cap as nat,
                    u as nat,
                    av,
                    0nat,
                ) == block(usable@, ev, d as nat, cap as nat, u as nat, av, ev.len());
            assert(block(usable@, ev, d as nat, cap as nat, u as nat, av, 0nat) == Seq::<
                Seq<(u64, Seq<char>)>,
            >::empty());
            assert(y + Seq::<Seq<(u64, Seq<char>)>>::empty() =~= y);
            let blk = block(usable@, ev, d as nat, cap as nat, u as nat, av, ev.len());
            let kh = kids(usable@, ev, d as nat, cap as nat, start as nat, av, u_hi as nat);
            let kl = kids(usable@, ev, d as nat, cap as nat, start as nat, av, u as nat);
            assert(kh == blk + kl);
            let x1 = x0 + blk;
            assert(vecs_view(out@) =~= base + own + x1);
            assert(x1 + kl =~= x0 + kh);
        }
        u_hi = u;
    }
    proof {
        let x = choose|x: Seq<Seq<(u64, Seq<char>)>>|
            #![trigger x + kids(usable@, ev, d as nat, cap as nat, start as nat, av, u_hi as nat)]
            vecs_view(out@) == base + own + x && x + kids(
                usable@,
                ev,
                d as nat,
                cap as nat,
                start as nat,
                av,
                u_hi as nat,
            ) == kids(usable@, ev, d as nat, cap as nat, start as nat, av, n);
        assert(kids(usable@, ev, d as nat, cap as nat, start as nat, av, u_hi as nat) == Seq::<
            Seq<(u64, Seq<char>)>,
        >::empty());
        assert(x + Seq::<Seq<(u64, Seq<char>)>>::empty() =~= x);
        assert(vecs_view(out@) =~= base + (own + kids(
            usable@,
            ev,
            d as nat,
            cap as nat,
            start as nat,
            av,
            n,
        )));
    }
}

/// Enumerates monomial exponent vectors over `usable` variables, with a
/// per-term active-variable cap chosen so the dictionary stays small.
pub fn enumerate_exponents(d: usize, usable: &[usize], exponent_set: &[Real], cap: usize) -> (r: Vec<
    Vec<Real>,
>)
    requires
        usable_ok(usable@, d as nat),
    ensures
        vecs_view(r@) == spec_enumerate(usable@, vec_view(exponent_set@), d as nat, cap as nat),
{
    let mut out: Vec<Vec<Real>> = Vec::new();
    let mut active: Vec<(usize, usize)> = Vec::new();
    let zero = build_vector(d, usable, exponent_set, &active);
    assert(active_view(active@) =~= Seq::<(nat, nat)>::empty());
    assert(vec_view(zero@) =~= Seq::new(d as nat, |i: int| zero_view()));
    out.push(zero);
    explore(d, usable, exponent_set, cap, 0, &mut active, &mut out);
    assert(vecs_view(out@) =~= spec_enumerate(
        usable@,
        vec_view(exponent_set@),
        d as nat,
        cap as nat,
    ));
    out
}

} // verus!

verus! {

/// What `dict_size_estimate` returns.
pub open spec fn size_estimate(n: nat, e: nat, cap: nat) -> nat {
    let m = if cap <= n {
        cap
    } else {
        n
    };
    if dict_count(n, e, m) <= usize::MAX {
        dict_count(n, e, m)
    } else {
        usize::MAX as nat
    }
}

/// The active-variable cap `build_dictionary` settles on: starting from
/// `cap`, lowered one step at a time (never below 1) while the dictionary
/// would exceed `limit` vectors.
pub open spec fn chosen_cap(n: nat, e: nat, cap: nat, limit: nat) -> nat
    decreases cap,
{
    if cap > 1 && size_estimate(n, e, cap) > limit {
        chosen_cap(n, e, (cap - 1) as nat, limit)
    } else {
        cap
    }
}

/// `dict_size_estimate` can be evaluated for every cap up to `cap`.
pub open spec fn estimate_fits(n: nat, e: nat, cap: nat) -> bool {
    forall|k: nat|
        1 <= k <= cap && k <= n ==> #[trigger] binom(n, (k - 1) as nat) * ((n - k + 1) as nat)
            <= usize::MAX && power(e, k) <= usize::MAX
}

/// Builds the plain-monomial dictionary: one unit-coefficient term per
/// exponent vector, with the active-variable cap lowered until the
/// dictionary fits `size_limit`.
#[verifier::spinoff_prover]
pub fn build_dictionary(
    d: usize,
    usable: &[usize],
    exponent_set: &[Real],
    max_active: usize,
    size_limit: usize,
) -> (r: Vec<Term>)
    requires
        usable_ok(usable@, d as nat),
        estimate_fits(usable@.len(), exponent_set@.len(), max_active as nat),
    ensures
        term_values(r@) == plain_dictionary(
            d as nat,
            usable@,
            vec_view(exponent_set@),
            max_active as nat,
            size_limit as nat,
        ),
{
    let ghost n = usable@.len();
    let ghost ne = exponent_set@.len();
    let mut cap: usize = if usable.len() <= max_active {
        usable.len()
    } else {
        max_active
    };
    let ghost start = cap as nat;
    loop
        invariant
            n == usable@.len(),
            ne == exponent_set@.len(),
            cap <= max_active,
            estimate_fits(n, ne, max_active as nat),
            chosen_cap(n, ne, cap as nat, size_limit as nat) == chosen_cap(
                n,
                ne,
                start,
                size_limit as nat,
            ),
        ensures
            cap <= max_active,
            chosen_cap(n, ne, cap as nat, size_limit as nat) == cap,
            chosen_cap(n, ne, cap as nat, size_limit as nat) == chosen_cap(
                n,
                ne,
                start,
                size_limit as nat,
            ),
        decreases cap,
    {
        if cap <= 1 {
            break;
        }
        proof {
            assert forall|k: nat| 1 <= k <= cap && k <= n implies #[trigger] binom(n, (k - 1) as nat) * (
                (n - k + 1) as nat) <= usize::MAX && power(ne, k) <= usize::MAX by {
                assert(1 <= k <= max_active && k <= n);
            }
        }
        let est = dict_size_estimate(usable.len(), exponent_set.len(), cap);
        if est <= size_limit {
            break;
        }
        cap -= 1;
    }
    let ghost c = cap as nat;
    assert(chosen_cap(n, ne, c, size_limit as nat) == c);
    let vectors = enumerate_exponents(d, usable, exponent_set, cap);
    let ghost spec_vecs = spec_enumerate(usable@, vec_view(exponent_set@), d as nat, c);
    let mut terms: Vec<Term> = Vec::with_capacity(vectors.len());
    let mut i: usize = 0;
    while i < vectors.len()
        invariant
            i <= vectors@.len(),
            vecs_view(vectors@) == spec_vecs,
            term_values(terms@) == plain_columns(spec_vecs.take(i as int)),
        decreases vectors@.len() - i,
    {
        let exponents = copy_reals(&vectors[i]);
        let t = Term { coeff: real_one(), exponents, feature: Feature::NoFactor };
        let ghost old_terms = terms@;
        terms.push(t);
        proof {
            assert(vec_view(vectors@[i as int]@) == spec_vecs[i as int]);
            assert(term_values(terms@) =~= term_values(old_terms).push(term_value(t)));
            assert(spec_vecs.take(i + 1) =~= spec_vecs.take(i as int).push(spec_vecs[i as int]));
            assert(plain_columns(spec_vecs.take(i + 1)) =~= plain_columns(spec_vecs.take(i as int)).push(
                (one_view(), spec_vecs[i as int], Feature::NoFactor),
            ));
        }
        i += 1;
    }
    assert(spec_vecs.take(spec_vecs.len() as int) =~= spec_vecs);
    assert(start == min_nat(usable@.len(), max_active as nat));
    terms
}

/// The value of `1.0`.
pub open spec fn one_view() -> (u64, Seq<char>) {
    (one_bits(), seq!['1'])
}

/// Dictionaries only grow with the active-variable cap.
pub proof fn law_dict_count_monotone(n: nat, e: nat, a: nat, b: nat)
    requires
        a <= b,
    ensures
        dict_count(n, e, a) <= dict_count(n, e, b),
    decreases b - a,
{
    if a < b {
        law_dict_count_monotone(n, e, a, (b - 1) as nat);
        assert(dict_count(n, e, b) == dict_count(n, e, (b - 1) as nat) + binom(n, b) * power(e, b));
        assert(binom(n, b) * power(e, b) >= 0) by (nonlinear_arith);
    }
}

/// The cap `build_dictionary` settles on is the largest cap not above the
/// starting one whose dictionary fits the limit, or 1 when none does.
pub proof fn law_chosen_cap_largest(n: nat, e: nat, cap: nat, limit: nat)
    ensures
        chosen_cap(n, e, cap, limit) <= cap,
        chosen_cap(n, e, cap, limit) > 1 ==> size_estimate(n, e, chosen_cap(n, e, cap, limit))
            <= limit,
        forall|c: nat|
            chosen_cap(n, e, cap, limit) < c <= cap ==> #[trigger] size_estimate(n, e, c) > limit,
    decreases cap,
{
    if cap > 1 && size_estimate(n, e, cap) > limit {
        law_chosen_cap_largest(n, e, (cap - 1) as nat, limit);
    }
}

/// The exponent sets of the feature dictionary's monomial part, richest
/// first: halves and integers up to 2, integers up to 2, unit exponents.
pub open spec fn config_exps(k: int) -> Seq<(u64, Seq<char>)> {
    let m2 = (0xC000_0000_0000_0000u64, seq!['-', '2']);
    let m1 = (0xBFF0_0000_0000_0000u64, seq!['-', '1']);
    let mh = (0xBFE0_0000_0000_0000u64, seq!['-', '0', '.', '5']);
    let h = (0x3FE0_0000_0000_0000u64, seq!['0', '.', '5']);
    let p1 = (0x3FF0_0000_0000_0000u64, seq!['1']);
    let p2 = (0x4000_0000_0000_0000u64, seq!['2']);
    if k == 0 {
        seq![m2, m1, mh, h, p1, p2]
    } else if k == 1 || k == 2 {
        seq![m2, m1, p1, p2]
    } else {
        seq![m1, p1]
    }
}

/// The active-variable cap of each configuration.
pub open spec fn config_cap(k: int) -> nat {
    if k == 0 || k == 1 || k == 3 {
        3
    } else if k == 2 || k == 4 {
        2
    } else {
        1
    }
}

/// Configuration `k` is usable: fractional exponents need a positive
/// variable, and the dictionary over `n` variables fits `budget` columns.
pub open spec fn config_admits(k: int, any_positive: bool, n: nat, budget: nat) -> bool {
    &&& (any_positive || k != 0)
    &&& size_estimate(n, config_exps(k).len(), config_cap(k)) <= budget
}

/// The first usable configuration, or the smallest one when none is.
pub open spec fn chosen_config(any_positive: bool, n: nat, budget: nat) -> int {
    if config_admits(0, any_positive, n, budget) {
        0
    } else if config_admits(1, any_positive, n, budget) {
        1
    } else if config_admits(2, any_positive, n, budget) {
        2
    } else if config_admits(3, any_positive, n, budget) {
        3
    } else if config_admits(4, any_positive, n, budget) {
        4
    } else {
        5
    }
}

/// A term as a mathematical value: coefficient, exponents, feature.
pub open spec fn term_value(t: Term) -> ((u64, Seq<char>), Seq<(u64, Seq<char>)>, Feature) {
    (real_view(t.coeff), vec_view(t.exponents@), t.feature)
}

/// The values of a list of terms.
pub open spec fn term_values(s: Seq<Term>) -> Seq<((u64, Seq<char>), Seq<(u64, Seq<char>)>, Feature)> {
    s.map_values(|t: Term| term_value(t))
}

/// The feature's variables have zero exponents in `v`.
pub open spec fn keeps_out(f: Feature, v: Seq<(u64, Seq<char>)>) -> bool {
    forall|t: int| 0 <= t < feature_vars(f).len() ==> zero_bits(v[feature_vars(f)[t] as int].0)
}

/// Unit-coefficient plain-monomial columns, one per vector.
pub open spec fn plain_columns(base: Seq<Seq<(u64, Seq<char>)>>) -> Seq<
    ((u64, Seq<char>), Seq<(u64, Seq<char>)>, Feature),
> {
    base.map_values(|v: Seq<(u64, Seq<char>)>| (one_view(), v, Feature::NoFactor))
}

/// Unit-coefficient `monomial x f` columns for the vectors that keep the
/// feature's variables out.
pub open spec fn feature_columns(base: Seq<Seq<(u64, Seq<char>)>>, f: Feature) -> Seq<
    ((u64, Seq<char>), Seq<(u64, Seq<char>)>, Feature),
>
    decreases base.len(),
{
    if base.len() == 0 {
        Seq::empty()
    } else {
        feature_columns(base.drop_last(), f) + if keeps_out(f, base.last()) {
            seq![(one_view(), base.last(), f)]
        } else {
            Seq::empty()
        }
    }
}

/// The feature columns of every feature, feature by feature.
pub open spec fn all_feature_columns(base: Seq<Seq<(u64, Seq<char>)>>, feats: Seq<Feature>) -> Seq<
    ((u64, Seq<char>), Seq<(u64, Seq<char>)>, Feature),
>
    decreases feats.len(),
{
    if feats.len() == 0 {
        Seq::empty()
    } else {
        all_feature_columns(base, feats.drop_last()) + feature_columns(base, feats.last())
    }
}

/// Dictionary sizes for up to three active variables over `n` variables
/// can be computed in `usize`.
pub open spec fn small_caps_fit(n: nat) -> bool {
    forall|k: nat|
        1 <= k <= 3 && k <= n ==> #[trigger] binom(n, (k - 1) as nat) * ((n - k + 1) as nat)
            <= usize::MAX
}

/// The exponent set of configuration `k`.
fn config_exponents(k: usize) -> (r: Vec<Real>)
    requires
        k < 6,
    ensures
        vec_view(r@) == config_exps(k as int),
{
    let mut r: Vec<Real> = Vec::new();
    if k == 0 {
        r.push(real_minus_two());
        r.push(real_minus_one());
        r.push(real_minus_half());
        r.push(real_half());
        r.push(real_one());
        r.push(real_two());
    } else if k <= 2 {
        r.push(real_minus_two());
        r.push(real_minus_one());
        r.push(real_one());
        r.push(real_two());
    } else {
        r.push(real_minus_one());
        r.push(real_one());
    }
    assert(vec_view(r@) =~= config_exps(k as int));
    r
}

/// The active-variable cap of configuration `k`.
fn config_cap_of(k: usize) -> (r: usize)
    requires
        k < 6,
    ensures
        r == config_cap(k as int),
{
    if k == 0 || k == 1 || k == 3 {
        3
    } else if k == 2 || k == 4 {
        2
    } else {
        1
    }
}

proof fn lemma_small_powers(e: nat, k: nat)
    requires
        e <= 6,
        k <= 3,
    ensures
        power(e, k) <= 216,
{
    let p0 = power(e, 0);
    let p1 = power(e, 1);
    let p2 = power(e, 2);
    let p3 = power(e, 3);
    assert(p0 == 1);
    assert(p1 == e * p0);
    assert(p2 == e * p1);
    assert(p3 == e * p2);
    assert(p1 <= 6 && p2 <= 36 && p3 <= 216) by (nonlinear_arith)
        requires
            e <= 6,
            p0 == 1,
            p1 == e * p0,
            p2 == e * p1,
            p3 == e * p2,
    ;
}

/// Whether the exponent vector keeps the feature's variables out.
fn keeps_feature_out(vars: &Vec<usize>, v: &Vec<Real>, f: Ghost<Feature>) -> (r: bool)
    requires
        vars@ == feature_vars(f@),
        forall|t: int| 0 <= t < vars@.len() ==> #[trigger] vars@[t] < v@.len(),
    ensures
        r == keeps_out(f@, vec_view(v@)),
{
    let mut t: usize = 0;
    while t < vars.len()
        invariant
            t <= vars@.len(),
            vars@ == feature_vars(f@),
            forall|q: int| 0 <= q < vars@.len() ==> #[trigger] vars@[q] < v@.len(),
            forall|q: int| 0 <= q < t ==> zero_bits(vec_view(v@)[#[trigger] vars@[q] as int].0),
        decreases vars@.len() - t,
    {
        if !is_zero(&v[vars[t]]) {
            assert(vec_view(v@)[vars@[t as int] as int].0 == v@[vars@[t as int] as int].bits);
            return false;
        }
        t += 1;
    }
    true
}

proof fn lemma_vector_len(
    usable: Seq<usize>,
    exps: Seq<(u64, Seq<char>)>,
    d: nat,
    active: Seq<(nat, nat)>,
)
    requires
        usable_ok(usable, d),
        forall|q: int| 0 <= q < active.len() ==> #[trigger] active[q].0 < usable.len(),
    ensures
        vector_of(usable, exps, d, active).len() == d,
    decreases active.len(),
{
    if active.len() > 0 {
        let pre = active.drop_last();
        assert forall|q: int| 0 <= q < pre.len() implies #[trigger] pre[q].0 < usable.len() by {
            assert(pre[q] == active[q]);
        }
        lemma_vector_len(usable, exps, d, pre);
        assert(active.last() == active[active.len() - 1]);
    }
}

proof fn lemma_dfs_lens(
    usable: Seq<usize>,
    exps: Seq<(u64, Seq<char>)>,
    d: nat,
    cap: nat,
    start: nat,
    active: Seq<(nat, nat)>,
)
    requires
        usable_ok(usable, d),
        forall|q: int| 0 <= q < active.len() ==> #[trigger] active[q].0 < usable.len(),
    ensures
        forall|i: int|
            0 <= i < dfs(usable, exps, d, cap, start, active).len() ==> #[trigger] dfs(
                usable,
                exps,
                d,
                cap,
                start,
                active,
            )[i].len() == d,
    decreases rest(usable.len(), start), 2nat, 0nat,
{
    lemma_vector_len(usable, exps, d, active);
    let own = if active.len() > 0 {
        seq![vector_of(usable, exps, d, active)]
    } else {
        Seq::empty()
    };
    if active.len() < cap {
        lemma_kids_lens(usable, exps, d, cap, start, active, usable.len());
        lemma_concat_lens(own, kids(usable, exps, d, cap, start, active, usable.len()), d);
    }
}

proof fn lemma_kids_lens(
    usable: Seq<usize>,
    exps: Seq<(u64, Seq<char>)>,
    d: nat,
    cap: nat,
    start: nat,
    active: Seq<(nat, nat)>,
    u_hi: nat,
)
    requires
        usable_ok(usable, d),
        forall|q: int| 0 <= q < active.len() ==> #[trigger] active[q].0 < usable.len(),
    ensures
        forall|i: int|
            0 <= i < kids(usable, exps, d, cap, start, active, u_hi).len() ==> #[trigger] kids(
                usable,
                exps,
                d,
                cap,
                start,
                active,
                u_hi,
            )[i].len() == d,
    decreases rest(usable.len(), start), 1nat, u_hi,
{
    if !(u_hi <= start || u_hi > usable.len()) {
        let u = (u_hi - 1) as nat;
        lemma_block_lens(usable, exps, d, cap, u, active, exps.len());
        lemma_kids_lens(usable, exps, d, cap, start, active, u);
        lemma_concat_lens(
            block(usable, exps, d, cap, u, active, exps.len()),
            kids(usable, exps, d, cap, start, active, u),
            d,
        );
    }
}

proof fn lemma_block_lens(
    usable: Seq<usize>,
    exps: Seq<(u64, Seq<char>)>,
    d: nat,
    cap: nat,
    u: nat,
    active: Seq<(nat, nat)>,
    e_hi: nat,
)
    requires
        usable_ok(usable, d),
        forall|q: int| 0 <= q < active.len() ==> #[trigger] active[q].0 < usable.len(),
    ensures
        forall|i: int|
            0 <= i < block(usable, exps, d, cap, u, active, e_hi).len() ==> #[trigger] block(
                usable,
                exps,
                d,
                cap,
                u,
                active,
                e_hi,
            )[i].len() == d,
    decreases rest(usable.len(), u), 0nat, e_hi,
{
    if !(e_hi == 0 || u >= usable.len()) {
        let e = (e_hi - 1) as nat;
        let next = active.push((u, e));
        assert forall|q: int| 0 <= q < next.len() implies #[trigger] next[q].0 < usable.len() by {
            if q < active.len() {
                assert(next[q] == active[q]);
            }
        }
        lemma_dfs_lens(usable, exps, d, cap, u + 1, next);
        lemma_block_lens(usable, exps, d, cap, u, active, e);
        lemma_concat_lens(
            dfs(usable, exps, d, cap, u + 1, next),
            block(usable, exps, d, cap, u, active, e),
            d,
        );
    }
}

proof fn lemma_concat_lens(a: Seq<Seq<(u64, Seq<char>)>>, b: Seq<Seq<(u64, Seq<char>)>>, d: nat)
    requires
        forall|i: int| 0 <= i < a.len() ==> #[trigger] a[i].len() == d,
        forall|i: int| 0 <= i < b.len() ==> #[trigger] b[i].len() == d,
    ensures
        forall|i: int| 0 <= i < (a + b).len() ==> #[trigger] (a + b)[i].len() == d,
{
    assert forall|i: int| 0 <= i < (a + b).len() implies #[trigger] (a + b)[i].len() == d by {
        if i < a.len() {
            assert((a + b)[i] == a[i]);
        } else {
            assert((a + b)[i] == b[i - a.len()]);
        }
    }
}

/// Every enumerated exponent vector has one entry per variable.
pub proof fn lemma_enumerate_lens(usable: Seq<usize>, exps: Seq<(u64, Seq<char>)>, d: nat, cap: nat)
    requires
        usable_ok(usable, d),
    ensures
        forall|i: int|
            0 <= i < spec_enumerate(usable, exps, d, cap).len() ==> #[trigger] spec_enumerate(
                usable,
                exps,
                d,
                cap,
            )[i].len() == d,
{
    let z = Seq::new(d, |i: int| zero_view());
    lemma_dfs_lens(usable, exps, d, cap, 0, Seq::empty());
    lemma_concat_lens(seq![z], dfs(usable, exps, d, cap, 0, Seq::empty()), d);
}

/// Every feature of the list refers to variables below `d` only.
pub open spec fn vars_below(fs: Seq<Feature>, d: nat) -> bool {
    forall|i: int, t: int|
        0 <= i < fs.len() && 0 <= t < feature_vars(fs[i]).len() ==> #[trigger] feature_vars(fs[i])[t]
            < d
}

proof fn lemma_vars_below_concat(a: Seq<Feature>, b: Seq<Feature>, d: nat)
    requires
        vars_below(a, d),
        vars_below(b, d),
    ensures
        vars_below(a + b, d),
{
    assert forall|i: int, t: int|
        0 <= i < (a + b).len() && 0 <= t < feature_vars((a + b)[i]).len() implies #[trigger] feature_vars(
        (a + b)[i],
    )[t] < d by {
        if i < a.len() {
            assert((a + b)[i] == a[i]);
        } else {
            assert((a + b)[i] == b[i - a.len()]);
        }
    }
}

proof fn lemma_singles_below(finite: Seq<usize>, d: nat)
    requires
        usable_ok(finite, d),
    ensures
        vars_below(singles(finite), d),
    decreases finite.len(),
{
    if finite.len() > 0 {
        lemma_singles_below(finite.drop_last(), d);
        assert(finite.last() == finite[finite.len() - 1]);
        let blk = single_block(finite.last());
        assert forall|i: int, t: int|
            0 <= i < blk.len() && 0 <= t < feature_vars(blk[i]).len() implies #[trigger] feature_vars(
            blk[i],
        )[t] < d by {}
        lemma_vars_below_concat(singles(finite.drop_last()), blk, d);
    }
}

proof fn lemma_logs_below(positive: Seq<usize>, d: nat)
    requires
        usable_ok(positive, d),
    ensures
        vars_below(logs(positive), d),
    decreases positive.len(),
{
    if positive.len() > 0 {
        lemma_logs_below(positive.drop_last(), d);
        assert(positive.last() == positive[positive.len() - 1]);
        let blk = seq![Feature::Ln(positive.last())];
        lemma_vars_below_concat(logs(positive.drop_last()), blk, d);
        assert(logs(positive) =~= logs(positive.drop_last()) + blk);
    }
}

proof fn lemma_pair_row_below(finite: Seq<usize>, a: int, b_hi: int, d: nat)
    requires
        usable_ok(finite, d),
        0 <= a,
    ensures
        vars_below(pair_row(finite, a, b_hi), d),
    decreases b_hi - a,
{
    if !(b_hi <= a + 1 || b_hi > finite.len()) {
        lemma_pair_row_below(finite, a, b_hi - 1, d);
        let i = finite[a];
        let j = finite[b_hi - 1];
        let blk = pair_block(i, j);
        assert forall|q: int, t: int|
            0 <= q < blk.len() && 0 <= t < feature_vars(blk[q]).len() implies #[trigger] feature_vars(
            blk[q],
        )[t] < d by {}
        lemma_vars_below_concat(pair_row(finite, a, b_hi - 1), blk, d);
    }
}

proof fn lemma_pairs_below(finite: Seq<usize>, a_hi: int, d: nat)
    requires
        usable_ok(finite, d),
    ensures
        vars_below(pairs(finite, a_hi), d),
    decreases a_hi,
{
    if !(a_hi <= 0 || a_hi > finite.len()) {
        lemma_pairs_below(finite, a_hi - 1, d);
        lemma_pair_row_below(finite, a_hi - 1, finite.len() as int, d);
        lemma_vars_below_concat(pairs(finite, a_hi - 1), pair_row(finite, a_hi - 1, finite.len() as int), d);
    }
}

/// The smaller of two naturals.
pub open spec fn min_nat(a: nat, b: nat) -> nat {
    if a <= b {
        a
    } else {
        b
    }
}

/// The exponent vectors of the feature dictionary's monomial part: the
/// chosen configuration's exponents over the positive variables (for the
/// fractional configuration) or over the finite ones.
pub open spec fn feature_base(
    d: nat,
    positive: Seq<usize>,
    finite: Seq<usize>,
    budget: nat,
) -> Seq<Seq<(u64, Seq<char>)>> {
    let k = chosen_config(positive.len() > 0, finite.len(), budget);
    let vars = if k == 0 {
        positive
    } else {
        finite
    };
    let m = if vars.len() > 1 {
        vars.len()
    } else {
        1nat
    };
    spec_enumerate(vars, config_exps(k), d, min_nat(config_cap(k), m))
}

/// Builds the feature-augmented dictionary: the plain monomial columns of
/// the chosen configuration, then, feature by feature, `monomial x feature`
/// for every monomial that avoids the feature's own variables. The
/// configuration is the richest whose dictionary fits the per-feature
/// share of `size_limit`; there is no dictionary without features.
#[verifier::spinoff_prover]
#[verifier::rlimit(30)]
pub fn build_feature_dictionary(d: usize, positive: &[usize], finite: &[usize], size_limit: usize) -> (r:
    Vec<Term>)
    requires
        usable_ok(positive@, d as nat),
        usable_ok(finite@, d as nat),
        small_caps_fit(finite@.len()),
    ensures
        ({
            let feats = singles(finite@) + logs(positive@) + pairs(finite@, finite@.len() as int);
            term_values(r@) == if feats.len() == 0 {
                Seq::empty()
            } else {
                let base = feature_base(
                    d as nat,
                    positive@,
                    finite@,
                    (size_limit as nat / feats.len()) as nat,
                );
                plain_columns(base) + all_feature_columns(base, feats)
            }
        }),
{
    let features = feature_candidates(positive, finite);
    if features.len() == 0 {
        assert(term_values(Seq::<Term>::empty()) =~= Seq::empty());
        return Vec::new();
    }
    proof {
        lemma_singles_below(finite@, d as nat);
        lemma_logs_below(positive@, d as nat);
        lemma_pairs_below(finite@, finite@.len() as int, d as nat);
        lemma_vars_below_concat(singles(finite@), logs(positive@), d as nat);
        lemma_vars_below_concat(singles(finite@) + logs(positive@), pairs(finite@, finite@.len() as int), d as nat);
    }
    let budget = size_limit / features.len();
    let any_positive = positive.len() > 0;
    let n = finite.len();
    let mut k: usize = 0;
    loop
        invariant
            k <= 5,
            n == finite@.len(),
            small_caps_fit(n as nat),
            any_positive == (positive@.len() > 0),
            forall|j: int| 0 <= j < k ==> !config_admits(j, any_positive, n as nat, budget as nat),
        ensures
            k == chosen_config(any_positive, n as nat, budget as nat),
        decreases 5 - k,
    {
        if k == 5 {
            break;
        }
        let exps_len: usize = if k == 0 { 6 } else if k <= 2 { 4 } else { 2 };
        assert(exps_len == config_exps(k as int).len());
        let cap = config_cap_of(k);
        if any_positive || k != 0 {
            proof {
                assert forall|kk: nat| 1 <= kk <= cap && kk <= n implies #[trigger] binom(n as nat, (kk - 1) as nat) * (
                    (n - kk + 1) as nat) <= usize::MAX && power(exps_len as nat, kk) <= usize::MAX by {
                    lemma_small_powers(exps_len as nat, kk);
                }
            }
            let est = dict_size_estimate(n, exps_len, cap);
            if est <= budget {
                break;
            }
        }
        k += 1;
    }
    let exps = config_exponents(k);
    let mono_vars: &[usize] = if k == 0 {
        positive
    } else {
        finite
    };
    let m: usize = if mono_vars.len() > 1 {
        mono_vars.len()
    } else {
        1
    };
    let cap0 = config_cap_of(k);
    let cap = if cap0 <= m {
        cap0
    } else {
        m
    };
    let base = enumerate_exponents(d, mono_vars, exps.as_slice(), cap);
    let ghost bv = vecs_view(base@);
    let ghost feats = features@;
    proof {
        assert(bv == feature_base(d as nat, positive@, finite@, budget as nat));
        lemma_enumerate_lens(mono_vars@, vec_view(exps@), d as nat, cap as nat);
        assert forall|i: int| 0 <= i < base@.len() implies (#[trigger] base@[i])@.len() == d by {
            assert(bv[i] == vec_view(base@[i]@));
        }
    }
    let mut dictionary: Vec<Term> = Vec::new();
    let mut i: usize = 0;
    while i < base.len()
        invariant
            bv == vecs_view(base@),
            i <= base@.len(),
            term_values(dictionary@) == plain_columns(bv.take(i as int)),
        decreases base@.len() - i,
    {
        let t = Term { coeff: real_one(), exponents: copy_reals(&base[i]), feature: Feature::NoFactor };
        let ghost old_dict = dictionary@;
        dictionary.push(t);
        proof {
            assert(bv[i as int] == vec_view(base@[i as int]@));
            assert(term_values(dictionary@) =~= term_values(old_dict).push(term_value(t)));
            assert(bv.take(i + 1) =~= bv.take(i as int).push(bv[i as int]));
            assert(plain_columns(bv.take(i + 1)) =~= plain_columns(bv.take(i as int)).push(
                (one_view(), bv[i as int], Feature::NoFactor),
            ));
        }
        i += 1;
    }
    assert(bv.take(bv.len() as int) =~= bv);
    let ghost plain = term_values(dictionary@);
    let mut fi: usize = 0;
    while fi < features.len()
        invariant
            bv == vecs_view(base@),
            feats == features@,
            vars_below(feats, d as nat),
            forall|q: int| 0 <= q < base@.len() ==> (#[trigger] base@[q])@.len() == d,
            plain == plain_columns(bv),
            fi <= feats.len(),
            term_values(dictionary@) == plain + all_feature_columns(bv, feats.take(fi as int)),
        decreases feats.len() - fi,
    {
        let f = features[fi];
        let vars = f.vars();
        let ghost before = term_values(dictionary@);
        let mut bi: usize = 0;
        while bi < base.len()
            invariant
                bv == vecs_view(base@),
                feats == features@,
                f == feats[fi as int],
                fi < feats.len(),
                vars@ == feature_vars(f),
                vars_below(feats, d as nat),
                forall|q: int| 0 <= q < base@.len() ==> (#[trigger] base@[q])@.len() == d,
                bi <= base@.len(),
                term_values(dictionary@) == before + feature_columns(bv.take(bi as int), f),
            decreases base@.len() - bi,
        {
            proof {
                assert forall|t: int| 0 <= t < vars@.len() implies #[trigger] vars@[t] < base@[bi as int]@.len() by {
                    assert(feature_vars(feats[fi as int])[t] < d);
                }
                assert(bv[bi as int] == vec_view(base@[bi as int]@));
                let tk = bv.take(bi + 1);
                assert(tk.drop_last() =~= bv.take(bi as int));
            }
            let ghost old_dict = dictionary@;
            if keeps_feature_out(&vars, &base[bi], Ghost(f)) {
                let t = Term { coeff: real_one(), exponents: copy_reals(&base[bi]), feature: f };
                dictionary.push(t);
                proof {
                    assert(term_values(dictionary@) =~= term_values(old_dict).push(term_value(t)));
                    assert(term_value(t) == (one_view(), bv[bi as int], f));
                }
            }
            proof {
                let tk = bv.take(bi + 1);
                assert(tk.last() == bv[bi as int]);
                assert(feature_columns(tk, f) == feature_columns(bv.take(bi as int), f) + if keeps_out(
                    f,
                    bv[bi as int],
                ) {
                    seq![(one_view(), bv[bi as int], f)]
                } else {
                    Seq::empty()
                });
            }
            bi += 1;
            proof {
                assert(term_values(dictionary@) =~= before + feature_columns(bv.take(bi as int), f));
            }
        }
        assert(bv.take(bv.len() as int) =~= bv);
        fi += 1;
        proof {
            let tk = feats.take(fi as int);
            assert(tk.drop_last() =~= feats.take(fi - 1));
            assert(tk.last() == f);
            assert(term_values(dictionary@) =~= plain + all_feature_columns(bv, feats.take(fi as int)));
        }
    }
    assert(feats.take(feats.len() as int) =~= feats);
    dictionary
}

/// The plain-monomial dictionary `build_dictionary` returns, as values.
pub open spec fn plain_dictionary(
    d: nat,
    usable: Seq<usize>,
    exps: Seq<(u64, Seq<char>)>,
    max_active: nat,
    limit: nat,
) -> Seq<((u64, Seq<char>), Seq<(u64, Seq<char>)>, Feature)> {
    plain_columns(
        spec_enumerate(
            usable,
            exps,
            d,
            chosen_cap(usable.len(), exps.len(), min_nat(usable.len(), max_active), limit),
        ),
    )
}

/// Exponents -3, -2, -1, -1/2, 1/2, 1, 2, 3 (for positive variables).
pub open spec fn fractional_exps() -> Seq<(u64, Seq<char>)> {
    seq![
        (0xC008_0000_0000_0000u64, seq!['-', '3']),
        (0xC000_0000_0000_0000u64, seq!['-', '2']),
        (0xBFF0_0000_0000_0000u64, seq!['-', '1']),
        (0xBFE0_0000_0000_0000u64, seq!['-', '0', '.', '5']),
        (0x3FE0_0000_0000_0000u64, seq!['0', '.', '5']),
        (0x3FF0_0000_0000_0000u64, seq!['1']),
        (0x4000_0000_0000_0000u64, seq!['2']),
        (0x4008_0000_0000_0000u64, seq!['3']),
    ]
}

/// Exponents -3, -2, -1, 1, 2, 3.
pub open spec fn integer3_exps() -> Seq<(u64, Seq<char>)> {
    seq![
        (0xC008_0000_0000_0000u64, seq!['-', '3']),
        (0xC000_0000_0000_0000u64, seq!['-', '2']),
        (0xBFF0_0000_0000_0000u64, seq!['-', '1']),
        (0x3FF0_0000_0000_0000u64, seq!['1']),
        (0x4000_0000_0000_0000u64, seq!['2']),
        (0x4008_0000_0000_0000u64, seq!['3']),
    ]
}

/// Exponents -2, -1, 1, 2.
pub open spec fn integer2_exps() -> Seq<(u64, Seq<char>)> {
    seq![
        (0xC000_0000_0000_0000u64, seq!['-', '2']),
        (0xBFF0_0000_0000_0000u64, seq!['-', '1']),
        (0x3FF0_0000_0000_0000u64, seq!['1']),
        (0x4000_0000_0000_0000u64, seq!['2']),
    ]
}

/// A unit-coefficient column with a zero exponent vector and feature `f`.
pub open spec fn bare_value(d: nat, f: Feature) -> ((u64, Seq<char>), Seq<(u64, Seq<char>)>, Feature) {
    (one_view(), Seq::new(d, |i: int| zero_view()), f)
}

/// The bare columns of a list of features, in order.
pub open spec fn bare_values(d: nat, fs: Seq<Feature>) -> Seq<
    ((u64, Seq<char>), Seq<(u64, Seq<char>)>, Feature),
>
    decreases fs.len(),
{
    if fs.len() == 0 {
        Seq::empty()
    } else {
        bare_values(d, fs.drop_last()).push(bare_value(d, fs.last()))
    }
}

/// The bare single-variable feature columns: the six trig/gate factors of
/// every finite variable, then ln of every positive variable, each with a
/// zero exponent vector.
pub open spec fn bare_columns(d: nat, positive: Seq<usize>, finite: Seq<usize>) -> Seq<
    ((u64, Seq<char>), Seq<(u64, Seq<char>)>, Feature),
> {
    bare_values(d, singles(finite) + logs(positive))
}

/// The dictionaries of the basic orthogonal pursuit pass: fractional
/// exponents over the positive variables (when there are any), integer
/// exponents up to 3 over the finite variables, and integer exponents up to
/// 2 over the finite variables with the bare feature columns appended;
/// none when no variable is finite.
pub open spec fn pursuit_dictionaries(d: nat, positive: Seq<usize>, finite: Seq<usize>) -> Seq<
    Seq<((u64, Seq<char>), Seq<(u64, Seq<char>)>, Feature)>,
> {
    if finite.len() == 0 {
        Seq::empty()
    } else {
        let frac = if positive.len() > 0 {
            seq![plain_dictionary(d, positive, fractional_exps(), 4, 70_000)]
        } else {
            Seq::empty()
        };
        frac + seq![
            plain_dictionary(d, finite, integer3_exps(), 5, 70_000),
            plain_dictionary(d, finite, integer2_exps(), 5, 70_000) + bare_columns(
                d,
                positive,
                finite,
            ),
        ]
    }
}

/// Dictionary sizes for up to `cap` active variables over `n` variables can
/// be computed in `usize`.
pub open spec fn caps_fit(n: nat, cap: nat) -> bool {
    forall|k: nat|
        1 <= k <= cap && k <= n ==> #[trigger] binom(n, (k - 1) as nat) * ((n - k + 1) as nat)
            <= usize::MAX
}

proof fn lemma_powers_to_five(e: nat, k: nat)
    requires
        e <= 8,
        k <= 5,
    ensures
        power(e, k) <= 32768,
{
    let p0 = power(e, 0);
    let p1 = power(e, 1);
    let p2 = power(e, 2);
    let p3 = power(e, 3);
    let p4 = power(e, 4);
    let p5 = power(e, 5);
    assert(p0 == 1);
    assert(p1 == e * p0);
    assert(p2 == e * p1);
    assert(p3 == e * p2);
    assert(p4 == e * p3);
    assert(p5 == e * p4);
    assert(p1 <= 8 && p2 <= 64 && p3 <= 512 && p4 <= 4096 && p5 <= 32768) by (nonlinear_arith)
        requires
            e <= 8,
            p0 == 1,
            p1 == e * p0,
            p2 == e * p1,
            p3 == e * p2,
            p4 == e * p3,
            p5 == e * p4,
    ;
}

fn fractional_exponents() -> (r: Vec<Real>)
    ensures
        vec_view(r@) == fractional_exps(),
{
    let mut r: Vec<Real> = Vec::new();
    r.push(real_minus_three());
    r.push(real_minus_two());
    r.push(real_minus_one());
    r.push(real_minus_half());
    r.push(real_half());
    r.push(real_one());
    r.push(real_two());
    r.push(real_three());
    assert(vec_view(r@) =~= fractional_exps());
    r
}

fn integer3_exponents() -> (r: Vec<Real>)
    ensures
        vec_view(r@) == integer3_exps(),
{
    let mut r: Vec<Real> = Vec::new();
    r.push(real_minus_three());
    r.push(real_minus_two());
    r.push(real_minus_one());
    r.push(real_one());
    r.push(real_two());
    r.push(real_three());
    assert(vec_view(r@) =~= integer3_exps());
    r
}

fn integer2_exponents() -> (r: Vec<Real>)
    ensures
        vec_view(r@) == integer2_exps(),
{
    let mut r: Vec<Real> = Vec::new();
    r.push(real_minus_two());
    r.push(real_minus_one());
    r.push(real_one());
    r.push(real_two());
    assert(vec_view(r@) =~= integer2_exps());
    r
}

/// A unit-coefficient term with a zero exponent vector and feature `f`.
fn bare_term(d: usize, f: Feature) -> (t: Term)
    ensures
        term_value(t) == bare_value(d as nat, f),
{
    let mut exps: Vec<Real> = Vec::with_capacity(d);
    let mut i: usize = 0;
    while i < d
        invariant
            i <= d,
            exps@.len() == i,
            forall|j: int| 0 <= j < i ==> real_view(#[trigger] exps@[j]) == zero_view(),
        decreases d - i,
    {
        exps.push(real_zero());
        i += 1;
    }
    let t = Term { coeff: real_one(), exponents: exps, feature: f };
    assert(vec_view(t.exponents@) =~= Seq::new(d as nat, |i: int| zero_view()));
    t
}

/// The values of a list of dictionaries.
pub open spec fn dictionaries_values(s: Seq<Vec<Term>>) -> Seq<
    Seq<((u64, Seq<char>), Seq<(u64, Seq<char>)>, Feature)>,
> {
    s.map_values(|v: Vec<Term>| term_values(v@))
}

/// Builds the dictionaries of the basic orthogonal pursuit pass (see
/// `pursuit_dictionaries`), each held under 70 000 columns by lowering its
/// active-variable cap.
#[verifier::spinoff_prover]
#[verifier::rlimit(30)]
pub fn basic_pursuit_dictionaries(d: usize, positive: &[usize], finite: &[usize]) -> (r: Vec<
    Vec<Term>,
>)
    requires
        usable_ok(positive@, d as nat),
        usable_ok(finite@, d as nat),
        caps_fit(positive@.len(), 4),
        caps_fit(finite@.len(), 5),
    ensures
        dictionaries_values(r@) == pursuit_dictionaries(d as nat, positive@, finite@),
{
    let mut out: Vec<Vec<Term>> = Vec::new();
    if finite.len() == 0 {
        assert(dictionaries_values(out@) =~= pursuit_dictionaries(d as nat, positive@, finite@));
        return out;
    }
    let frac = fractional_exponents();
    let int3 = integer3_exponents();
    let int2 = integer2_exponents();
    assert(frac@.len() == 8 && int3@.len() == 6 && int2@.len() == 4) by {
        assert(vec_view(frac@).len() == frac@.len());
        assert(vec_view(int3@).len() == int3@.len());
        assert(vec_view(int2@).len() == int2@.len());
    }
    proof {
        assert forall|k: nat| 1 <= k <= 4 && k <= positive@.len() implies #[trigger] binom(
            positive@.len(),
            (k - 1) as nat,
        ) * ((positive@.len() - k + 1) as nat) <= usize::MAX && power(8, k) <= usize::MAX by {
            lemma_powers_to_five(8, k);
        }
        assert forall|k: nat| 1 <= k <= 5 && k <= finite@.len() implies #[trigger] binom(
            finite@.len(),
            (k - 1) as nat,
        ) * ((finite@.len() - k + 1) as nat) <= usize::MAX && power(6, k) <= usize::MAX
            && power(4, k) <= usize::MAX by {
            lemma_powers_to_five(6, k);
            lemma_powers_to_five(4, k);
        }
    }
    if positive.len() > 0 {
        out.push(build_dictionary(d, positive, &frac, 4, 70_000));
    }
    out.push(build_dictionary(d, finite, &int3, 5, 70_000));
    let mut dict = build_dictionary(d, finite, &int2, 5, 70_000);
    let ghost plain = term_values(dict@);
    let feats = single_variable_features(positive, finite);
    let mut k: usize = 0;
    while k < feats.len()
        invariant
            k <= feats@.len(),
            term_values(dict@) == plain + bare_values(d as nat, feats@.take(k as int)),
        decreases feats@.len() - k,
    {
        let t = bare_term(d, feats[k]);
        let ghost old_dict = dict@;
        dict.push(t);
        proof {
            assert(term_values(dict@) =~= term_values(old_dict).push(term_value(t)));
            let tk = feats@.take(k + 1);
            assert(tk.drop_last() =~= feats@.take(k as int));
            assert(tk.last() == feats@[k as int]);
            assert(term_values(dict@) =~= plain + bare_values(d as nat, tk));
        }
        k += 1;
    }
    assert(feats@.take(feats@.len() as int) =~= feats@);
    out.push(dict);
    assert(dictionaries_values(out@) =~= pursuit_dictionaries(d as nat, positive@, finite@));
    out
}

/// Pascal's rule for dictionary sizes: a dictionary over `m` variables
/// either leaves the first variable out or gives it one of `e` exponents.
proof fn lemma_dict_count_pascal(m: nat, e: nat, r: nat)
    requires
        m >= 1,
        r >= 1,
    ensures
        dict_count(m, e, r) == dict_count((m - 1) as nat, e, r) + e * dict_count(
            (m - 1) as nat,
            e,
            (r - 1) as nat,
        ),
    decreases r,
{
    let m1 = (m - 1) as nat;
    let r1 = (r - 1) as nat;
    let bm = binom(m, r);
    let b1 = binom(m1, r1);
    let b2 = binom(m1, r);
    let p = power(e, r);
    let p1 = power(e, r1);
    assert(bm == b1 + b2);
    assert(p == e * p1);
    if r == 1 {
        assert(dict_count(m, e, 0) == 1);
        assert(dict_count(m1, e, 0) == 1);
        assert(b1 == 1);
        assert(p1 == 1);
        assert(bm * p == b2 * p + e * 1) by (nonlinear_arith)
            requires
                bm == 1 + b2,
                p == e * 1,
        ;
    } else {
        lemma_dict_count_pascal(m, e, r1);
        let a = dict_count(m1, e, (r1 - 1) as nat);
        assert(dict_count(m1, e, r1) == a + b1 * p1);
        assert(e * (a + b1 * p1) == e * a + bm * p - b2 * p) by (nonlinear_arith)
            requires
                bm == b1 + b2,
                p == e * p1,
        ;
    }
}

/// No variable, no dictionary beyond the constant vector.
proof fn lemma_dict_count_empty(e: nat, r: nat)
    ensures
        dict_count(0, e, r) == 1,
    decreases r,
{
    if r > 0 {
        lemma_dict_count_empty(e, (r - 1) as nat);
        assert(binom(0, r) == 0);
    }
}

proof fn lemma_dfs_count(
    usable: Seq<usize>,
    exps: Seq<(u64, Seq<char>)>,
    d: nat,
    cap: nat,
    start: nat,
    active: Seq<(nat, nat)>,
)
    requires
        start <= usable.len(),
    ensures
        dfs(usable, exps, d, cap, start, active).len() == (if active.len() > 0 {
            1int
        } else {
            0int
        }) + if active.len() < cap {
            dict_count((usable.len() - start) as nat, exps.len(), (cap - active.len()) as nat) - 1
        } else {
            0int
        },
    decreases rest(usable.len(), start), 2nat, 0nat,
{
    if active.len() < cap {
        lemma_kids_count(usable, exps, d, cap, start, active, usable.len());
        lemma_dict_count_empty(exps.len(), (cap - active.len()) as nat);
    }
}

proof fn lemma_kids_count(
    usable: Seq<usize>,
    exps: Seq<(u64, Seq<char>)>,
    d: nat,
    cap: nat,
    start: nat,
    active: Seq<(nat, nat)>,
    u_hi: nat,
)
    requires
        start <= u_hi <= usable.len(),
        active.len() < cap,
    ensures
        kids(usable, exps, d, cap, start, active, u_hi).len() == dict_count(
            (usable.len() - start) as nat,
            exps.len(),
            (cap - active.len()) as nat,
        ) - dict_count((usable.len() - u_hi) as nat, exps.len(), (cap - active.len()) as nat),
    decreases rest(usable.len(), start), 1nat, u_hi,
{
    if u_hi > start {
        let u = (u_hi - 1) as nat;
        let r = (cap - active.len()) as nat;
        lemma_block_count(usable, exps, d, cap, u, active, exps.len());
        lemma_kids_count(usable, exps, d, cap, start, active, u);
        lemma_dict_count_pascal((usable.len() - u) as nat, exps.len(), r);
    }
}

proof fn lemma_block_count(
    usable: Seq<usize>,
    exps: Seq<(u64, Seq<char>)>,
    d: nat,
    cap: nat,
    u: nat,
    active: Seq<(nat, nat)>,
    e_hi: nat,
)
    requires
        u < usable.len(),
        active.len() < cap,
    ensures
        block(usable, exps, d, cap, u, active, e_hi).len() == e_hi * dict_count(
            (usable.len() - u - 1) as nat,
            exps.len(),
            (cap - active.len() - 1) as nat,
        ),
    decreases rest(usable.len(), u), 0nat, e_hi,
{
    if e_hi > 0 {
        let e = (e_hi - 1) as nat;
        let next = active.push((u, e));
        lemma_dfs_count(usable, exps, d, cap, u + 1, next);
        lemma_block_count(usable, exps, d, cap, u, active, e);
        let x = dict_count((usable.len() - u - 1) as nat, exps.len(), (cap - active.len() - 1) as nat);
        assert(dfs(usable, exps, d, cap, u + 1, next).len() == x) by {
            if next.len() >= cap {
                assert(dict_count((usable.len() - u - 1) as nat, exps.len(), 0) == 1);
            }
        }
        assert(block(usable, exps, d, cap, u, active, e_hi) == dfs(usable, exps, d, cap, u + 1, next)
            + block(usable, exps, d, cap, u, active, e));
        assert(block(usable, exps, d, cap, u, active, e).len() == e * x);
        assert(x + e * x == e_hi * x) by (nonlinear_arith)
            requires
                e_hi == e + 1,
        ;
    } else {
        assert(block(usable, exps, d, cap, u, active, e_hi).len() == 0);
        assert(0 * dict_count((usable.len() - u - 1) as nat, exps.len(), (cap - active.len() - 1) as nat) == 0);
    }
}

/// Raising the cap past the number of variables adds nothing: no vector can
/// have more active variables than there are variables.
proof fn lemma_dict_count_saturates(n: nat, e: nat, cap: nat)
    ensures
        dict_count(n, e, cap) == dict_count(n, e, min_nat(cap, n)),
    decreases cap,
{
    if cap > n {
        lemma_dict_count_saturates(n, e, (cap - 1) as nat);
        lemma_binom_zero(n, cap);
        assert(binom(n, cap) * power(e, cap) == 0);
    }
}

/// The enumeration yields exactly the number of vectors the dictionary size
/// counts: the constant vector plus, for every k up to the cap, C(n, k)
/// choices of k variables times e^k exponent assignments. So
/// `dict_size_estimate` is the exact size of the dictionary (saturating at
/// `usize::MAX`).
pub proof fn law_enumeration_size(usable: Seq<usize>, exps: Seq<(u64, Seq<char>)>, d: nat, cap: nat)
    ensures
        spec_enumerate(usable, exps, d, cap).len() == dict_count(
            usable.len(),
            exps.len(),
            min_nat(cap, usable.len()),
        ),
        spec_enumerate(usable, exps, d, cap).len() <= usize::MAX ==> spec_enumerate(
            usable,
            exps,
            d,
            cap,
        ).len() == size_estimate(usable.len(), exps.len(), cap),
{
    lemma_dfs_count(usable, exps, d, cap, 0, Seq::empty());
    lemma_dict_count_saturates(usable.len(), exps.len(), cap);
}

/// The plain-monomial dictionary stays within `limit` columns unless its
/// active-variable cap had to be lowered all the way to 1 (or started there).
pub proof fn law_dictionary_within_limit(
    d: nat,
    usable: Seq<usize>,
    exps: Seq<(u64, Seq<char>)>,
    max_active: nat,
    limit: nat,
)
    requires
        limit < usize::MAX,
    ensures
        chosen_cap(usable.len(), exps.len(), min_nat(usable.len(), max_active), limit) > 1
            ==> plain_dictionary(d, usable, exps, max_active, limit).len() <= limit,
{
    let n = usable.len();
    let e = exps.len();
    let c = chosen_cap(n, e, min_nat(n, max_active), limit);
    law_chosen_cap_largest(n, e, min_nat(n, max_active), limit);
    law_enumeration_size(usable, exps, d, c);
    assert(plain_dictionary(d, usable, exps, max_active, limit).len() == spec_enumerate(
        usable,
        exps,
        d,
        c,
    ).len());
}

} // verus!
