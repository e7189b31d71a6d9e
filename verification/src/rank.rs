//! Ranking: drop candidates at or below the acceptance threshold and order
//! the rest by descending fitness, ties broken by catalog position.

use vstd::prelude::*;
use vstd::relations::total_ordering;
use vstd::relations::sorted_by;
use vstd::seq_lib::lemma_sorted_unique;
use vstd::seq_lib::to_multiset_update;
use vstd::multiset::Multiset;

verus! {

/// A successfully probed candidate: its position in the catalog and its
/// computed fitness.
#[derive(Clone, Copy, Debug, PartialEq, Eq, Structural)]
pub struct Scored {
    pub pos: usize,
    pub fitness: u128,
}

/// The ranking order: higher fitness comes first; equal fitness keeps catalog
/// order.  A total order on `Scored`.
pub open spec fn rank_le(a: Scored, b: Scored) -> bool {
    a.fitness > b.fitness || (a.fitness == b.fitness && a.pos <= b.pos)
}

/// The ranking order as a relation value, for `sorted_by` and `sort_by`.
pub open spec fn rank_order() -> spec_fn(Scored, Scored) -> bool {
    |a: Scored, b: Scored| rank_le(a, b)
}

/// Whether a candidate clears the acceptance threshold.
pub open spec fn above(threshold: u128) -> spec_fn(Scored) -> bool {
    |s: Scored| s.fitness > threshold
}

/// The ranked list: the candidates strictly above the threshold, in ranking
/// order.
pub open spec fn ranked_spec(scored: Seq<Scored>, threshold: u128) -> Seq<Scored> {
    scored.filter(above(threshold)).sort_by(rank_order())
}

/// The ranking order is a total order.
pub proof fn lemma_rank_order_total()
    ensures
        total_ordering(rank_order()),
{
    assert forall|a: Scored, b: Scored| #[trigger] rank_order()(a, b) && rank_order()(b, a)
        implies a == b by {
        assert(a.fitness == b.fitness && a.pos == b.pos);
    }
}

fn rank_le_exec(a: &Scored, b: &Scored) -> (r: bool)
    ensures
        r == rank_le(*a, *b),
{
    a.fitness > b.fitness || (a.fitness == b.fitness && a.pos <= b.pos)
}

/// Stable insertion sort under the ranking order.  The result is exactly the
/// (unique) sorted permutation of the input.
pub fn sort_scored(v: &mut Vec<Scored>)
    ensures
        final(v)@ == old(v)@.sort_by(rank_order()),
        final(v)@.to_multiset() == old(v)@.to_multiset(),
        sorted_by(final(v)@, rank_order()),
{
    let ghost m0: Multiset<Scored> = old(v)@.to_multiset();
    let n: usize = v.len();
    let mut i: usize = 1;
    while i < n
        invariant
            n == v@.len(),
            1 <= i,
            i <= n || n <= 1,
            v@.to_multiset() == m0,
            forall|p: int, q: int| 0 <= p < q < i ==> rank_le(#[trigger] v@[p], #[trigger] v@[q]),
        decreases n - i,
    {
        let mut j: usize = i;
        while j > 0 && !rank_le_exec(&v[j - 1], &v[j])
            invariant
                n == v@.len(),
                0 <= j <= i < n,
                v@.to_multiset() == m0,
                forall|p: int, q: int|
                    0 <= p < q <= i && q != j ==> rank_le(#[trigger] v@[p], #[trigger] v@[q]),
                forall|q: int| j < q <= i ==> rank_le(v@[j as int], #[trigger] v@[q]),
            decreases j,
        {
            let ghost s = v@;
            let x = v[j - 1];
            let y = v[j];
            v.set(j - 1, y);
            v.set(j, x);
            proof {
                let s2 = s.update(j - 1, s[j as int]).update(j as int, s[j - 1]);
                assert(v@ == s2);
                to_multiset_update(s, j - 1, s[j as int]);
                to_multiset_update(s.update(j - 1, s[j as int]), j as int, s[j - 1]);
                assert(s.contains(s[j - 1]) && s.contains(s[j as int])) by {
                    vstd::seq_lib::to_multiset_contains(s, s[j - 1]);
                }
                broadcast use vstd::multiset::group_multiset_axioms;
                broadcast use vstd::seq_lib::group_to_multiset_ensures;

                assert(s2.to_multiset() =~= s.to_multiset());
            }
            j = j - 1;
        }
        proof {
            assert forall|p: int, q: int| 0 <= p < q <= i implies rank_le(
                #[trigger] v@[p],
                #[trigger] v@[q],
            ) by {
                if q == j {
                    // the loop stopped: v[j - 1] <= v[j], and everything
                    // before j - 1 is below v[j - 1]
                    assert(j > 0);
                    assert(rank_le(v@[j - 1], v@[j as int]));
                    if p < j - 1 {
                        assert(rank_le(v@[p], v@[j - 1]));
                    }
                }
            }
        }
        i = i + 1;
    }
    proof {
        assert(forall|p: int, q: int|
            0 <= p < q < v@.len() ==> rank_le(#[trigger] v@[p], #[trigger] v@[q]));
        lemma_rank_order_total();
        old(v)@.lemma_sort_by_ensures(rank_order());
        lemma_sorted_unique(v@, old(v)@.sort_by(rank_order()), rank_order());
    }
}

/// Filtering a sequence whose elements all satisfy the predicate returns the
/// sequence unchanged.
proof fn lemma_filter_all(s: Seq<Scored>, pred: spec_fn(Scored) -> bool)
    requires
        forall|i: int| 0 <= i < s.len() ==> pred(#[trigger] s[i]),
    ensures
        s.filter(pred) == s,
    decreases s.len(),
{
    reveal(Seq::filter);
    if s.len() > 0 {
        lemma_filter_all(s.drop_last(), pred);
        assert(s.filter(pred) =~= s);
    }
}

/// Every element of a filtered sequence is an element of the original.
proof fn lemma_filter_sub(s: Seq<Scored>, pred: spec_fn(Scored) -> bool)
    ensures
        forall|i: int|
            0 <= i < s.filter(pred).len() ==> s.contains(#[trigger] s.filter(pred)[i]),
    decreases s.len(),
{
    reveal(Seq::filter);
    if s.len() > 0 {
        lemma_filter_sub(s.drop_last(), pred);
        assert forall|i: int| 0 <= i < s.filter(pred).len() implies s.contains(
            #[trigger] s.filter(pred)[i],
        ) by {
            let f = s.filter(pred);
            let fpre = s.drop_last().filter(pred);
            if i < fpre.len() {
                let j = choose|j: int| 0 <= j < s.drop_last().len() && s.drop_last()[j] == fpre[i];
                assert(s[j] == f[i]);
            } else {
                assert(f[i] == s.last());
            }
        }
    }
}

/// What the ranked list guarantees: every entry is strictly above the
/// threshold; entries come in descending fitness; equal-fitness entries keep
/// their catalog order (ascending position); and the entries are exactly the
/// above-threshold entries of the input, none lost, none invented.
pub proof fn lemma_ranked_ensures(scored: Seq<Scored>, threshold: u128)
    ensures
        sorted_by(ranked_spec(scored, threshold), rank_order()),
        ranked_spec(scored, threshold).to_multiset() == scored.filter(above(threshold)).to_multiset(),
        forall|k: int|
            0 <= k < ranked_spec(scored, threshold).len() ==> (#[trigger] ranked_spec(
                scored,
                threshold,
            )[k]).fitness > threshold,
        forall|p: int, q: int|
            0 <= p < q < ranked_spec(scored, threshold).len() ==> (#[trigger] ranked_spec(
                scored,
                threshold,
            )[p]).fitness >= (#[trigger] ranked_spec(scored, threshold)[q]).fitness,
        forall|p: int, q: int|
            0 <= p < q < ranked_spec(scored, threshold).len() && (#[trigger] ranked_spec(
                scored,
                threshold,
            )[p]).fitness == (#[trigger] ranked_spec(scored, threshold)[q]).fitness
                ==> ranked_spec(scored, threshold)[p].pos <= ranked_spec(scored, threshold)[q].pos,
{
    let f = scored.filter(above(threshold));
    let r = ranked_spec(scored, threshold);
    lemma_rank_order_total();
    f.lemma_sort_by_ensures(rank_order());
    broadcast use vstd::seq_lib::group_to_multiset_ensures;

    assert forall|k: int| 0 <= k < r.len() implies (#[trigger] r[k]).fitness > threshold by {
        assert(r.contains(r[k]));
        assert(r.to_multiset().count(r[k]) > 0);
        assert(f.contains(r[k]));
        let j = choose|j: int| 0 <= j < f.len() && f[j] == r[k];
        scored.lemma_filter_pred(above(threshold), j);
    }
    assert forall|p: int, q: int| 0 <= p < q < r.len() implies rank_le(
        #[trigger] r[p],
        #[trigger] r[q],
    ) by {
        assert(rank_order()(r[p], r[q]));
    }
}

/// Filtering never raises an element's multiplicity.
proof fn lemma_filter_count(s: Seq<Scored>, pred: spec_fn(Scored) -> bool, x: Scored)
    ensures
        s.filter(pred).to_multiset().count(x) <= s.to_multiset().count(x),
    decreases s.len(),
{
    reveal(Seq::filter);
    broadcast use vstd::seq_lib::group_to_multiset_ensures;

    if s.len() > 0 {
        lemma_filter_count(s.drop_last(), pred, x);
        assert(s =~= s.drop_last().push(s.last()));
        assert(s.to_multiset() =~= s.drop_last().to_multiset().insert(s.last()));
        if pred(s.last()) {
            assert(s.filter(pred) == s.drop_last().filter(pred).push(s.last()));
        }
    }
}

/// Stability under ties, strictly: when no two scored entries share a catalog
/// position, equal-fitness entries of the ranked list appear in strictly
/// ascending catalog order — the original relative order.
pub proof fn lemma_ranked_stable(scored: Seq<Scored>, threshold: u128)
    requires
        forall|i1: int, i2: int|
            0 <= i1 < i2 < scored.len() ==> (#[trigger] scored[i1]).pos != (
            #[trigger] scored[i2]).pos,
    ensures
        forall|p: int, q: int|
            0 <= p < q < ranked_spec(scored, threshold).len() && (#[trigger] ranked_spec(
                scored,
                threshold,
            )[p]).fitness == (#[trigger] ranked_spec(scored, threshold)[q]).fitness
                ==> ranked_spec(scored, threshold)[p].pos < ranked_spec(scored, threshold)[q].pos,
{
    let f = scored.filter(above(threshold));
    let r = ranked_spec(scored, threshold);
    lemma_rank_order_total();
    f.lemma_sort_by_ensures(rank_order());
    broadcast use vstd::seq_lib::group_to_multiset_ensures;

    assert forall|p: int, q: int|
        0 <= p < q < r.len() && (#[trigger] r[p]).fitness == (#[trigger] r[q]).fitness implies r[p].pos
        < r[q].pos by {
        assert(rank_order()(r[p], r[q]));
        assert(r[p].pos <= r[q].pos);
        if r[p].pos == r[q].pos {
            // two occurrences of one value would need multiplicity two in the
            // scored input, where positions are distinct
            assert(r[p] == r[q]);
            assert(scored.no_duplicates()) by {
                assert forall|i1: int, i2: int|
                    0 <= i1 < scored.len() && 0 <= i2 < scored.len() && i1 != i2 implies scored[i1]
                    != scored[i2] by {
                    if i1 < i2 {
                        assert(scored[i1].pos != scored[i2].pos);
                    } else {
                        assert(scored[i2].pos != scored[i1].pos);
                    }
                }
            }
            scored.lemma_multiset_has_no_duplicates();
            lemma_filter_count(scored, above(threshold), r[p]);
            assert(r.to_multiset().count(r[p]) <= 1);
            assert(r.remove(q).to_multiset() =~= r.to_multiset().remove(r[q]));
            assert(r.remove(q)[p] == r[p]);
            assert(r.remove(q).to_multiset().count(r[p]) > 0);
            assert(r.to_multiset().count(r[p]) >= 2);
        }
    }
}

/// Every entry of the ranked list is an entry of the scored input: ranking
/// invents no candidate.
pub proof fn lemma_ranked_sub(scored: Seq<Scored>, threshold: u128)
    ensures
        forall|k: int|
            0 <= k < ranked_spec(scored, threshold).len() ==> scored.contains(
                #[trigger] ranked_spec(scored, threshold)[k],
            ),
{
    let f = scored.filter(above(threshold));
    let r = ranked_spec(scored, threshold);
    lemma_rank_order_total();
    f.lemma_sort_by_ensures(rank_order());
    lemma_filter_sub(scored, above(threshold));
    broadcast use vstd::seq_lib::group_to_multiset_ensures;

    assert forall|k: int| 0 <= k < r.len() implies scored.contains(#[trigger] r[k]) by {
        assert(r.contains(r[k]));
        assert(r.to_multiset().count(r[k]) > 0);
        assert(f.contains(r[k]));
        let j = choose|j: int| 0 <= j < f.len() && f[j] == r[k];
        assert(scored.contains(f[j]));
    }
}

/// Every element of the ranked list is an element of the scored input; in
/// particular its catalog position is bounded like the input's.
pub proof fn lemma_ranked_pos_bound(scored: Seq<Scored>, threshold: u128, bound: int)
    requires
        forall|i: int| 0 <= i < scored.len() ==> (#[trigger] scored[i]).pos < bound,
    ensures
        forall|k: int|
            0 <= k < ranked_spec(scored, threshold).len() ==> (#[trigger] ranked_spec(
                scored,
                threshold,
            )[k]).pos < bound,
{
    let f = scored.filter(above(threshold));
    let r = ranked_spec(scored, threshold);
    lemma_rank_order_total();
    f.lemma_sort_by_ensures(rank_order());
    lemma_filter_sub(scored, above(threshold));
    broadcast use vstd::seq_lib::group_to_multiset_ensures;

    assert forall|k: int| 0 <= k < r.len() implies (#[trigger] r[k]).pos < bound by {
        assert(r.contains(r[k]));
        assert(r.to_multiset().count(r[k]) > 0);
        assert(f.contains(r[k]));
        let j = choose|j: int| 0 <= j < f.len() && f[j] == r[k];
        assert(scored.contains(f[j]));
        let i = choose|i: int| 0 <= i < scored.len() && scored[i] == f[j];
    }
}

/// Ranking is idempotent: ranking an already ranked list changes nothing.
pub proof fn lemma_rank_idempotent(scored: Seq<Scored>, threshold: u128)
    ensures
        ranked_spec(ranked_spec(scored, threshold), threshold) == ranked_spec(scored, threshold),
{
    let r = ranked_spec(scored, threshold);
    lemma_ranked_ensures(scored, threshold);
    lemma_filter_all(r, above(threshold));
    lemma_rank_order_total();
    r.lemma_sort_by_ensures(rank_order());
    lemma_sorted_unique(r.sort_by(rank_order()), r, rank_order());
}

/// An empty scored set ranks to an empty list, not to an error.
pub proof fn lemma_ranked_empty(threshold: u128)
    ensures
        ranked_spec(Seq::<Scored>::empty(), threshold) == Seq::<Scored>::empty(),
{
    reveal(Seq::filter);
    let e = Seq::<Scored>::empty();
    assert(e.filter(above(threshold)) == e);
    lemma_rank_order_total();
    e.lemma_sort_by_ensures(rank_order());
    broadcast use vstd::seq_lib::group_to_multiset_ensures;

    assert(ranked_spec(e, threshold).to_multiset() =~= e.to_multiset());
    assert(ranked_spec(e, threshold).len() == ranked_spec(e, threshold).to_multiset().len());
    assert(e.len() == e.to_multiset().len());
    assert(ranked_spec(e, threshold).len() == 0);
    assert(ranked_spec(e, threshold) =~= e);
}

/// Keep only the candidates strictly above the threshold, then sort them in
/// ranking order.  The output is pinned exactly: it is `ranked_spec` of the
/// input, so ranking the same scores twice gives identical lists.
pub fn rank_scored(scored: &Vec<Scored>, threshold: u128) -> (out: Vec<Scored>)
    ensures
        out@ == ranked_spec(scored@, threshold),
{
    let mut kept: Vec<Scored> = Vec::new();
    let n: usize = scored.len();
    let mut i: usize = 0;
    while i < n
        invariant
            n == scored@.len(),
            0 <= i <= n,
            kept@ == scored@.subrange(0, i as int).filter(above(threshold)),
        decreases n - i,
    {
        let ghost pre = scored@.subrange(0, i as int);
        let s = scored[i];
        if s.fitness > threshold {
            kept.push(s);
        }
        proof {
            reveal(Seq::filter);
            let cur = scored@.subrange(0, i + 1);
            assert(cur.drop_last() =~= pre);
            assert(cur.last() == scored@[i as int]);
        }
        i = i + 1;
    }
    proof {
        assert(scored@.subrange(0, n as int) =~= scored@);
    }
    let mut out = kept;
    sort_scored(&mut out);
    out
}

} // verus!
