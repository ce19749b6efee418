//! The archive of outcomes, and the novelty of a universe against it.

use vstd::prelude::*;
use vstd::relations::{sorted_by, total_ordering};
use vstd::seq_lib::{
    lemma_sorted_unique, to_multiset_build, to_multiset_contains, to_multiset_insert,
    to_multiset_len, to_multiset_remove,
};
use crate::grid::{distance, is_universe, lemma_rows_distance_bound};
use crate::individual::NOVELTY_MIN;
use crate::lcell::LCell;
use crate::universe::{compute_distance, frames_of, Universe};

verus! {

/// The order of the natural numbers.
pub open spec fn at_most() -> spec_fn(nat, nat) -> bool {
    |a: nat, b: nat| a <= b
}

/// Machine numbers as natural numbers.
pub open spec fn as_nats(s: Seq<usize>) -> Seq<nat> {
    Seq::new(s.len(), |i: int| s[i] as nat)
}

/// The distance of a grid from each member of an archive, in the members'
/// order.
pub open spec fn distances_to(members: Seq<Seq<Seq<LCell>>>, g: Seq<Seq<LCell>>) -> Seq<nat> {
    Seq::new(members.len(), |i: int| distance(members[i], g))
}

/// The sum of the first `k` numbers of a sequence.
pub open spec fn sum_first(s: Seq<nat>, k: nat) -> nat
    decreases k,
{
    if k == 0 {
        0
    } else {
        sum_first(s, (k - 1) as nat) + s[k - 1]
    }
}

/// The novelty of a grid against an archive: the sum of its `k` smallest
/// distances from the members. Against fewer than `k` members there is no
/// such sum, and the novelty is the minimum.
pub open spec fn novelty_of(members: Seq<Seq<Seq<LCell>>>, g: Seq<Seq<LCell>>, k: nat) -> nat {
    if members.len() < k {
        NOVELTY_MIN as nat
    } else {
        sum_first(distances_to(members, g).sort_by(at_most()), k)
    }
}

/// What an archive may hold: universes of one side, none of them twice.
pub open spec fn is_archive(members: Seq<Seq<Seq<LCell>>>) -> bool {
    &&& forall|i: int| 0 <= i < members.len() ==> is_universe(#[trigger] members[i])
    &&& forall|i: int, j: int|
        0 <= i < members.len() && 0 <= j < members.len() ==> (#[trigger] members[i]).len() == (
        #[trigger] members[j]).len()
    &&& forall|i: int, j: int|
        0 <= i < j < members.len() ==> #[trigger] members[i] != #[trigger] members[j]
}

/// Whether a grid has the side of the members of an archive.
pub open spec fn fits(members: Seq<Seq<Seq<LCell>>>, g: Seq<Seq<LCell>>) -> bool {
    forall|i: int| 0 <= i < members.len() ==> (#[trigger] members[i]).len() == g.len()
}

/// The archive after a grid was handed to it: a grid that it holds already
/// changes nothing, another is added at the end.
pub open spec fn inserted(members: Seq<Seq<Seq<LCell>>>, g: Seq<Seq<LCell>>) -> Seq<
    Seq<Seq<LCell>>,
> {
    if members.contains(g) {
        members
    } else {
        members.push(g)
    }
}

/// An archive stays one when a universe of its members' side is handed to
/// it, and keeps that side.
pub proof fn lemma_inserted_archive(members: Seq<Seq<Seq<LCell>>>, g: Seq<Seq<LCell>>)
    requires
        is_archive(members),
        is_universe(g),
        fits(members, g),
    ensures
        is_archive(inserted(members, g)),
        fits(inserted(members, g), g),
{
    if !members.contains(g) {
        let after = members.push(g);
        assert forall|i: int, j: int| 0 <= i < j < after.len() implies #[trigger] after[i]
            != #[trigger] after[j] by {
            if j == members.len() {
                assert(members[i] == after[i]);
                assert(members.contains(members[i]));
            }
        }
    }
}

/// An archive only grows: what it held stays where it was, and what was
/// handed to it is held afterwards.
pub proof fn lemma_inserted_grows(members: Seq<Seq<Seq<LCell>>>, g: Seq<Seq<LCell>>)
    ensures
        members.len() <= inserted(members, g).len() <= members.len() + 1,
        forall|i: int| 0 <= i < members.len() ==> inserted(members, g)[i] == members[i],
        inserted(members, g).contains(g),
{
    if !members.contains(g) {
        assert(members.push(g)[members.len() as int] == g);
    }
}

/// Against an archive of fewer than `k` members every grid has the minimum
/// novelty, never a sum over the members that there are.
pub proof fn lemma_novelty_floor(members: Seq<Seq<Seq<LCell>>>, g: Seq<Seq<LCell>>, k: nat)
    requires
        members.len() < k,
    ensures
        novelty_of(members, g, k) == NOVELTY_MIN,
{
}

/// The distances come nearest first: in ascending order, each as often as it
/// occurs among the distances from the members.
pub proof fn lemma_nearest_first(members: Seq<Seq<Seq<LCell>>>, g: Seq<Seq<LCell>>)
    ensures
        distances_to(members, g).sort_by(at_most()).len() == members.len(),
        distances_to(members, g).sort_by(at_most()).to_multiset() == distances_to(
            members,
            g,
        ).to_multiset(),
        forall|i: int, j: int|
            0 <= i < j < members.len() ==> distances_to(members, g).sort_by(at_most())[i]
                <= distances_to(members, g).sort_by(at_most())[j],
{
    let found = distances_to(members, g);
    let sorted = found.sort_by(at_most());
    lemma_at_most_total();
    found.lemma_sort_by_ensures(at_most());
    to_multiset_len(found);
    to_multiset_len(sorted);
    assert forall|i: int, j: int| 0 <= i < j < members.len() implies sorted[i] <= sorted[j] by {
        assert(at_most()(sorted[i], sorted[j]));
    }
}

/// Two archives with the same members, in whatever order, lie at the same
/// distances from a grid.
pub proof fn lemma_distances_order_free(
    a: Seq<Seq<Seq<LCell>>>,
    b: Seq<Seq<Seq<LCell>>>,
    g: Seq<Seq<LCell>>,
)
    requires
        a.to_multiset() == b.to_multiset(),
    ensures
        distances_to(a, g).to_multiset() == distances_to(b, g).to_multiset(),
    decreases a.len(),
{
    to_multiset_len(a);
    to_multiset_len(b);
    if a.len() == 0 {
        assert(distances_to(a, g) =~= distances_to(b, g));
    } else {
        let x = a.last();
        assert(a.contains(x)) by {
            assert(a[a.len() - 1] == x);
        }
        to_multiset_contains(a, x);
        to_multiset_contains(b, x);
        let i = choose|i: int| 0 <= i < b.len() && b[i] == x;
        let shorter_a = a.drop_last();
        let shorter_b = b.remove(i);
        assert(shorter_a =~= a.remove(a.len() - 1));
        to_multiset_remove(a, a.len() - 1);
        to_multiset_remove(b, i);
        lemma_distances_order_free(shorter_a, shorter_b, g);
        let d = distance(x, g);
        assert(distances_to(a, g) =~= distances_to(shorter_a, g).push(d));
        assert(distances_to(b, g) =~= distances_to(shorter_b, g).insert(i, d));
        to_multiset_build(distances_to(shorter_a, g), d);
        to_multiset_insert(distances_to(shorter_b, g), i, d);
    }
}

/// The novelty of a grid does not depend on the order in which the archive
/// holds its members.
pub proof fn lemma_novelty_order_free(
    a: Seq<Seq<Seq<LCell>>>,
    b: Seq<Seq<Seq<LCell>>>,
    g: Seq<Seq<LCell>>,
    k: nat,
)
    requires
        a.to_multiset() == b.to_multiset(),
    ensures
        novelty_of(a, g, k) == novelty_of(b, g, k),
{
    to_multiset_len(a);
    to_multiset_len(b);
    lemma_distances_order_free(a, b, g);
    lemma_at_most_total();
    let from_a = distances_to(a, g);
    let from_b = distances_to(b, g);
    from_a.lemma_sort_by_ensures(at_most());
    from_b.lemma_sort_by_ensures(at_most());
    lemma_sorted_unique(from_a.sort_by(at_most()), from_b.sort_by(at_most()), at_most());
}

/// The outcomes seen so far. It only grows, and holds no universe twice.
#[derive(Debug)]
pub struct Archive {
    members: Vec<Universe>,
}

impl View for Archive {
    type V = Seq<Seq<Seq<LCell>>>;

    closed spec fn view(&self) -> Seq<Seq<Seq<LCell>>> {
        frames_of(self.members)
    }
}

/// The numbers in ascending order.
fn sorted_ascending(values: &Vec<usize>) -> (sorted: Vec<usize>)
    ensures
        as_nats(sorted@) == as_nats(values@).sort_by(at_most()),
        sorted.len() == values.len(),
        forall|j: int| 0 <= j < sorted.len() ==> values@.contains(#[trigger] sorted[j]),
{
    let mut sorted: Vec<usize> = Vec::new();
    let mut i: usize = 0;
    assert(as_nats(values@.take(0)) =~= Seq::<nat>::empty());
    assert(as_nats(sorted@) =~= Seq::<nat>::empty());
    while i < values.len()
        invariant
            i <= values.len(),
            sorted.len() == i,
            forall|a: int, b: int| 0 <= a < b < sorted.len() ==> sorted[a] <= sorted[b],
            as_nats(sorted@).to_multiset() == as_nats(values@.take(i as int)).to_multiset(),
            forall|j: int| 0 <= j < sorted.len() ==> values@.contains(#[trigger] sorted[j]),
        decreases values.len() - i,
    {
        let x = values[i];
        let mut p: usize = 0;
        while p < sorted.len() && sorted[p] <= x
            invariant
                p <= sorted.len(),
                forall|a: int| 0 <= a < p ==> sorted[a] <= x,
            decreases sorted.len() - p,
        {
            p += 1;
        }
        let ghost before = sorted@;
        sorted.insert(p, x);
        proof {
            assert(values@.contains(x)) by {
                assert(values@[i as int] == x);
            }
            assert(as_nats(sorted@) =~= as_nats(before).insert(p as int, x as nat));
            to_multiset_insert(as_nats(before), p as int, x as nat);
            assert(as_nats(values@.take(i + 1)) =~= as_nats(values@.take(i as int)).push(x as nat));
            to_multiset_build(as_nats(values@.take(i as int)), x as nat);
        }
        i += 1;
    }
    proof {
        assert(values@.take(values.len() as int) =~= values@);
        let got = as_nats(sorted@);
        let all = as_nats(values@);
        lemma_at_most_total();
        all.lemma_sort_by_ensures(at_most());
        assert(sorted_by(got, at_most()));
        lemma_sorted_unique(got, all.sort_by(at_most()), at_most());
    }
    sorted
}

/// The numbers are totally ordered.
pub proof fn lemma_at_most_total()
    ensures
        total_ordering(at_most()),
{
}

impl Archive {
    /// The invariant of every archive.
    pub open spec fn wf(&self) -> bool {
        is_archive(self@)
    }

    /// The archive without members.
    pub fn new() -> (archive: Archive)
        ensures
            archive.wf(),
            archive@.len() == 0,
    {
        Archive { members: Vec::new() }
    }

    /// The number of members.
    pub fn len(&self) -> (n: usize)
        ensures
            n == self@.len(),
    {
        self.members.len()
    }

    /// Whether the archive holds a universe with these cells.
    pub fn contains(&self, u: &Universe) -> (held: bool)
        ensures
            held == self@.contains(u@),
    {
        let mut i: usize = 0;
        while i < self.members.len()
            invariant
                i <= self.members.len(),
                forall|j: int| 0 <= j < i ==> self@[j] != u@,
            decreases self.members.len() - i,
        {
            if self.members[i] == *u {
                assert(self@[i as int] == u@);
                return true;
            }
            i += 1;
        }
        false
    }

    /// Hands a universe to the archive, which keeps it unless it holds one
    /// with the same cells already. Says whether it was kept.
    pub fn insert(&mut self, u: Universe) -> (added: bool)
        requires
            old(self).wf(),
            u.wf(),
            fits(old(self)@, u@),
        ensures
            final(self).wf(),
            added == !old(self)@.contains(u@),
            final(self)@ == inserted(old(self)@, u@),
    {
        if self.contains(&u) {
            return false;
        }
        let ghost before = self@;
        self.members.push(u);
        assert(self@ =~= before.push(u@));
        true
    }

    /// The distance of a universe from each member, in the members' order.
    fn distances(&self, u: &Universe) -> (found: Vec<usize>)
        requires
            self.wf(),
            u.wf(),
            fits(self@, u@),
        ensures
            as_nats(found@) == distances_to(self@, u@),
            found.len() == self@.len(),
            forall|i: int| 0 <= i < found.len() ==> #[trigger] found[i] <= u@.len() * u@.len(),
    {
        let mut found: Vec<usize> = Vec::new();
        let mut i: usize = 0;
        while i < self.members.len()
            invariant
                self.wf(),
                u.wf(),
                fits(self@, u@),
                i <= self.members.len(),
                found.len() == i,
                forall|j: int| 0 <= j < i ==> #[trigger] found[j] == distance(self@[j], u@),
                forall|j: int| 0 <= j < i ==> #[trigger] found[j] <= u@.len() * u@.len(),
            decreases self.members.len() - i,
        {
            assert(is_universe(self@[i as int]));
            assert(self@[i as int].len() == u@.len());
            let d = compute_distance(&self.members[i], u);
            proof {
                lemma_rows_distance_bound(self@[i as int], u@, u@.len());
            }
            found.push(d);
            i += 1;
        }
        assert(as_nats(found@) =~= distances_to(self@, u@));
        found
    }

    /// The novelty of a universe against the archive: the sum of its distances
    /// from the `k` members nearest to it. With fewer than `k` members it is
    /// the minimum, not the sum over those that there are.
    pub fn novelty(&self, u: &Universe, k: usize) -> (novelty: usize)
        requires
            self.wf(),
            u.wf(),
            fits(self@, u@),
            k * (u@.len() * u@.len()) <= usize::MAX,
        ensures
            novelty == novelty_of(self@, u@, k as nat),
    {
        if self.members.len() < k {
            return NOVELTY_MIN;
        }
        let found = self.distances(u);
        let sorted = sorted_ascending(&found);
        assert(self@.len() == self.members.len());
        assert forall|i: int| 0 <= i < sorted.len() implies #[trigger] sorted[i] <= u@.len()
            * u@.len() by {
            let at = choose|at: int| 0 <= at < found.len() && found[at] == sorted[i];
            assert(found[at] <= u@.len() * u@.len());
        }
        let ghost cells = u@.len() * u@.len();
        let mut novelty: usize = 0;
        let mut j: usize = 0;
        while j < k
            invariant
                j <= k <= sorted.len(),
                novelty == sum_first(as_nats(sorted@), j as nat),
                novelty <= j * cells,
                k * cells <= usize::MAX,
                forall|i: int| 0 <= i < sorted.len() ==> #[trigger] sorted[i] <= cells,
            decreases k - j,
        {
            proof {
                assert((j + 1) * cells == j * cells + cells) by (nonlinear_arith);
                assert((j + 1) * cells <= k * cells) by (nonlinear_arith)
                    requires
                        j + 1 <= k,
                ;
            }
            novelty += sorted[j];
            j += 1;
        }
        novelty
    }
}

} // verus!
