//! Survival: the individuals of a pool in the order of their novelty.

use vstd::prelude::*;
use crate::individual::{Genotype, Individual};

verus! {

/// Whether the individual at index `i` comes before the one at index `j`: it
/// has the higher score, or the same score and the later place in the pool.
pub open spec fn outranks(scores: Seq<nat>, i: int, j: int) -> bool {
    scores[i] > scores[j] || (scores[i] == scores[j] && i > j)
}

/// The first place at or after `p` in `order` whose index `x` outranks, or
/// the length of `order` if there is none.
pub open spec fn slot_from(scores: Seq<nat>, order: Seq<int>, x: int, p: int) -> int
    decreases order.len() - p,
{
    if p < 0 || p >= order.len() || outranks(scores, x, order[p]) {
        p
    } else {
        slot_from(scores, order, x, p + 1)
    }
}

/// The first `n` indices of the pool from the one that comes first to the one
/// that comes last. Each index in turn enters before the first that it
/// outranks.
pub open spec fn ranking(scores: Seq<nat>, n: nat) -> Seq<int>
    decreases n,
{
    if n == 0 {
        Seq::<int>::empty()
    } else {
        let before = ranking(scores, (n - 1) as nat);
        before.insert(slot_from(scores, before, n - 1, 0), n - 1)
    }
}

/// The scores of the individuals of a pool.
pub open spec fn scores_of(pool: Seq<Genotype>) -> Seq<nat> {
    Seq::new(pool.len(), |i: int| pool[i].novelty)
}

/// The `m` individuals of a pool that come first: those of the highest
/// scores, the highest first, and among equal scores the later in the pool
/// first.
pub open spec fn survivors(pool: Seq<Genotype>, m: nat) -> Seq<Genotype> {
    let order = ranking(scores_of(pool), pool.len());
    Seq::new(m, |t: int| pool[order[t]])
}

/// What individuals are, one by one.
pub open spec fn genotypes_of(pool: Vec<Individual>) -> Seq<Genotype> {
    Seq::new(pool.len() as nat, |i: int| pool[i]@)
}

/// Machine numbers as integers.
pub open spec fn as_ints(s: Seq<usize>) -> Seq<int> {
    Seq::new(s.len(), |i: int| s[i] as int)
}

/// Where `slot_from` stops: no index before that place is outranked by `x`,
/// and the index at that place, if there is one, is.
pub proof fn lemma_slot_from(scores: Seq<nat>, order: Seq<int>, x: int, p: int)
    requires
        0 <= p <= order.len(),
    ensures
        p <= slot_from(scores, order, x, p) <= order.len(),
        forall|t: int|
            p <= t < slot_from(scores, order, x, p) ==> !outranks(scores, x, #[trigger] order[t]),
        slot_from(scores, order, x, p) < order.len() ==> outranks(
            scores,
            x,
            order[slot_from(scores, order, x, p)],
        ),
    decreases order.len() - p,
{
    if p < order.len() && !outranks(scores, x, order[p]) {
        lemma_slot_from(scores, order, x, p + 1);
    }
}

/// The ranking is the pool's order of survival: it holds each of the first
/// `n` indices, and of any two of its places the earlier holds the index that
/// outranks the other.
pub proof fn lemma_ranking_ordered(scores: Seq<nat>, n: nat)
    ensures
        ranking(scores, n).len() == n,
        forall|t: int| 0 <= t < n ==> 0 <= #[trigger] ranking(scores, n)[t] < n,
        forall|i: int| 0 <= i < n ==> ranking(scores, n).contains(i),
        forall|s: int, t: int|
            0 <= s < t < n ==> outranks(
                scores,
                #[trigger] ranking(scores, n)[s],
                #[trigger] ranking(scores, n)[t],
            ),
    decreases n,
{
    if n > 0 {
        let before = ranking(scores, (n - 1) as nat);
        let x = n - 1;
        let p = slot_from(scores, before, x, 0);
        let after = ranking(scores, n);
        lemma_ranking_ordered(scores, (n - 1) as nat);
        lemma_slot_from(scores, before, x, 0);
        assert(after == before.insert(p, x));
        assert forall|i: int| 0 <= i < n implies after.contains(i) by {
            if i == x {
                assert(after[p] == x);
            } else {
                assert(before.contains(i));
                let at = choose|at: int| 0 <= at < before.len() && before[at] == i;
                if at < p {
                    assert(after[at] == i);
                } else {
                    assert(after[at + 1] == i);
                }
            }
        }
        assert forall|s: int, t: int| 0 <= s < t < n implies outranks(
            scores,
            #[trigger] after[s],
            #[trigger] after[t],
        ) by {
            if t < p {
                assert(after[s] == before[s] && after[t] == before[t]);
            } else if t == p {
                assert(after[s] == before[s]);
                assert(!outranks(scores, x, before[s]));
            } else if s < p {
                assert(after[s] == before[s] && after[t] == before[t - 1]);
            } else if s == p {
                assert(after[t] == before[t - 1]);
                assert(outranks(scores, x, before[p]));
                if t - 1 > p {
                    assert(outranks(scores, before[p], before[t - 1]));
                }
            } else {
                assert(after[s] == before[s - 1] && after[t] == before[t - 1]);
            }
        }
    }
}

/// Every survivor is an individual of the pool.
pub proof fn lemma_survivors_from_pool(competitors: Seq<Genotype>, m: nat)
    requires
        m <= competitors.len(),
    ensures
        survivors(competitors, m).len() == m,
        forall|t: int|
            0 <= t < m ==> exists|from: int|
                0 <= from < competitors.len() && competitors[from] == #[trigger] survivors(
                    competitors,
                    m,
                )[t],
{
    let scores = scores_of(competitors);
    lemma_ranking_ordered(scores, competitors.len());
    let order = ranking(scores, competitors.len());
    assert forall|t: int| 0 <= t < m implies exists|from: int|
        0 <= from < competitors.len() && competitors[from] == #[trigger] survivors(
            competitors,
            m,
        )[t] by {
        assert(0 <= order[t] < competitors.len());
        assert(competitors[order[t]] == survivors(competitors, m)[t]);
    }
}

/// The survivors are the best of the pool: they stand in the order of their
/// scores, the highest first, and none that is left out has a higher score
/// than one of them.
pub proof fn lemma_survivors_best(competitors: Seq<Genotype>, m: nat)
    requires
        m <= competitors.len(),
    ensures
        forall|s: int, t: int|
            0 <= s < t < m ==> (#[trigger] survivors(competitors, m)[s]).novelty >= (
            #[trigger] survivors(competitors, m)[t]).novelty,
        forall|t: int, u: int|
            0 <= t < m <= u < competitors.len() ==> (#[trigger] survivors(
                competitors,
                m,
            )[t]).novelty >= competitors[#[trigger] ranking(
                scores_of(competitors),
                competitors.len(),
            )[u]].novelty,
{
    let scores = scores_of(competitors);
    let order = ranking(scores, competitors.len());
    lemma_ranking_ordered(scores, competitors.len());
    assert forall|s: int, t: int| 0 <= s < t < m implies (#[trigger] survivors(
        competitors,
        m,
    )[s]).novelty >= (#[trigger] survivors(competitors, m)[t]).novelty by {
        assert(outranks(scores, order[s], order[t]));
    }
    assert forall|t: int, u: int| 0 <= t < m <= u < competitors.len() implies (
    #[trigger] survivors(competitors, m)[t]).novelty >= competitors[#[trigger] order[u]].novelty by {
        assert(outranks(scores, order[t], order[u]));
    }
}

/// The indices of the pool in the order of survival.
fn rank(pool: &Vec<Individual>) -> (order: Vec<usize>)
    ensures
        as_ints(order@) == ranking(scores_of(genotypes_of(*pool)), pool.len() as nat),
        order.len() == pool.len(),
        forall|t: int| 0 <= t < order.len() ==> #[trigger] order[t] < pool.len(),
{
    let ghost scores = scores_of(genotypes_of(*pool));
    let mut order: Vec<usize> = Vec::new();
    let mut i: usize = 0;
    assert(as_ints(order@) =~= ranking(scores, 0));
    while i < pool.len()
        invariant
            i <= pool.len(),
            scores == scores_of(genotypes_of(*pool)),
            order.len() == i,
            as_ints(order@) == ranking(scores, i as nat),
            forall|t: int| 0 <= t < order.len() ==> #[trigger] order[t] < i,
        decreases pool.len() - i,
    {
        let score = pool[i].novelty;
        let ghost ints = as_ints(order@);
        let mut p: usize = 0;
        while p < order.len() && pool[order[p]].novelty > score
            invariant
                p <= order.len(),
                i < pool.len(),
                order.len() == i,
                scores == scores_of(genotypes_of(*pool)),
                score == pool[i as int].novelty,
                ints == as_ints(order@),
                forall|t: int| 0 <= t < order.len() ==> #[trigger] order[t] < i,
                slot_from(scores, ints, i as int, 0) == slot_from(scores, ints, i as int, p as int),
            decreases order.len() - p,
        {
            assert(ints[p as int] == order[p as int]);
            assert(!outranks(scores, i as int, ints[p as int]));
            p += 1;
        }
        proof {
            if p < order.len() {
                assert(ints[p as int] == order[p as int]);
                assert(outranks(scores, i as int, ints[p as int]));
            }
            assert(slot_from(scores, ints, i as int, 0) == p);
        }
        order.insert(p, i);
        assert(as_ints(order@) =~= ints.insert(p as int, i as int));
        i += 1;
    }
    order
}

/// The `n_parents` individuals of the pool that survive, in the order of
/// survival.
pub fn select_parents(pool: &Vec<Individual>, n_parents: usize) -> (parents: Vec<Individual>)
    requires
        n_parents <= pool.len(),
    ensures
        genotypes_of(parents) == survivors(genotypes_of(*pool), n_parents as nat),
{
    let order = rank(pool);
    let ghost ranked = ranking(scores_of(genotypes_of(*pool)), pool.len() as nat);
    let mut parents: Vec<Individual> = Vec::new();
    let mut t: usize = 0;
    while t < n_parents
        invariant
            t <= n_parents <= pool.len(),
            order.len() == pool.len(),
            ranked == as_ints(order@),
            forall|s: int| 0 <= s < order.len() ==> #[trigger] order[s] < pool.len(),
            parents.len() == t,
            forall|s: int| 0 <= s < t ==> (#[trigger] parents[s])@ == pool[ranked[s]]@,
        decreases n_parents - t,
    {
        assert(ranked[t as int] == order[t as int]);
        parents.push(pool[order[t]].clone());
        t += 1;
    }
    assert(genotypes_of(parents) =~= survivors(genotypes_of(*pool), n_parents as nat));
    parents
}

} // verus!
