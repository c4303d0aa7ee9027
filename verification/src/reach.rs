//! The indices that can be reached from the first index, and the number of
//! moves that the solver needs to come to all of them.

use vstd::prelude::*;
use crate::lattice::{step_spec, Ix, Lattice, StepType};
use crate::lattice_solution::slot_of;

verus! {

/// The sum of the numbers of `s`.
pub open spec fn sum(s: Seq<nat>) -> nat
    decreases s.len(),
{
    if s.len() == 0 {
        0
    } else {
        sum(s.drop_last()) + s.last()
    }
}

/// A change to one number changes the sum by as much.
pub proof fn lemma_sum_update(s: Seq<nat>, i: int, v: nat)
    requires
        0 <= i < s.len(),
    ensures
        sum(s.update(i, v)) == sum(s) - s[i] + v,
        sum(s) >= s[i],
    decreases s.len(),
{
    let after = s.update(i, v);
    if i == s.len() - 1 {
        assert(after.drop_last() =~= s.drop_last());
    } else {
        lemma_sum_update(s.drop_last(), i, v);
        assert(after.drop_last() =~= s.drop_last().update(i, v));
    }
}

/// Where no number of `a` is more than the number of `b` at its place, the
/// sum of `a` is no more than the sum of `b`.
pub proof fn lemma_sum_le(a: Seq<nat>, b: Seq<nat>)
    requires
        a.len() == b.len(),
        forall|i: int| 0 <= i < a.len() ==> a[i] <= b[i],
    ensures
        sum(a) <= sum(b),
    decreases a.len(),
{
    if a.len() > 0 {
        lemma_sum_le(a.drop_last(), b.drop_last());
    }
}

/// Where, besides, one number of `a` is less than the number of `b` at its
/// place, the sum of `a` is less than the sum of `b`.
pub proof fn lemma_sum_lt(a: Seq<nat>, b: Seq<nat>, k: int)
    requires
        a.len() == b.len(),
        forall|i: int| 0 <= i < a.len() ==> a[i] <= b[i],
        0 <= k < a.len(),
        a[k] < b[k],
    ensures
        sum(a) < sum(b),
{
    lemma_sum_update(a, k, b[k]);
    lemma_sum_le(a.update(k, b[k]), b);
}

/// Where no number of `s` is more than 6, the sum of `s` is no more than 6
/// times the length of `s`.
pub proof fn lemma_sum_at_most_six(s: Seq<nat>)
    requires
        forall|i: int| 0 <= i < s.len() ==> s[i] <= 6,
    ensures
        sum(s) <= 6 * s.len(),
    decreases s.len(),
{
    if s.len() > 0 {
        lemma_sum_at_most_six(s.drop_last());
    }
}

impl Lattice {
    /// The index that `steps` lead to when they are taken one after the
    /// other from `from`.
    pub open spec fn walk_end(self, from: Ix, steps: Seq<StepType>) -> Ix
        decreases steps.len(),
    {
        if steps.len() == 0 {
            from
        } else {
            step_spec(self.walk_end(from, steps.drop_last()), steps.last())
        }
    }

    /// Whether each of `steps`, taken one after the other from `from`, is a
    /// step that leads on from where it is taken.
    pub open spec fn walk_allowed(self, from: Ix, steps: Seq<StepType>) -> bool
        decreases steps.len(),
    {
        steps.len() == 0 || (self.walk_allowed(from, steps.drop_last()) && self.allows(
            self.walk_end(from, steps.drop_last()),
            steps.last(),
        ))
    }

    /// Whether `steps` lead from the first index to `ix`.
    pub open spec fn reaches(self, steps: Seq<StepType>, ix: Ix) -> bool {
        self.walk_allowed(self.start(), steps) && self.walk_end(self.start(), steps) == ix
    }

    /// Whether some steps lead from the first index to `ix`.
    pub open spec fn reachable(self, ix: Ix) -> bool {
        exists|steps: Seq<StepType>| #[trigger] self.reaches(steps, ix)
    }

    /// The number of places that a store needs for the nodes of the lattice.
    pub open spec fn size(self) -> nat {
        (self.text.len() + 1) * (self.flat.len() + 1)
    }

    /// Whether `ix` is an index of the lattice that can be reached and whose
    /// node lies at the place `slot`.
    pub open spec fn owns(self, ix: Ix, slot: int) -> bool {
        self.valid(ix) && self.reachable(ix) && slot_of((self.flat.len() + 1) as nat, ix) == slot
    }

    /// Whether the place `slot` holds the node of an index that can be
    /// reached.
    pub open spec fn has_owner(self, slot: int) -> bool {
        exists|ix: Ix| #[trigger] self.owns(ix, slot)
    }

    /// The moves that the solver spends on the steps from the index whose
    /// node lies at `slot`: two for each step, one on the way down and one on
    /// the way back; none where no index that can be reached has its node at
    /// `slot`.
    pub open spec fn slot_moves(self, slot: int) -> nat {
        if self.has_owner(slot) {
            2 * self.steps(choose|ix: Ix| #[trigger] self.owns(ix, slot)).len()
        } else {
            0
        }
    }

    /// The moves of all the places of a store, in order.
    pub open spec fn all_moves(self) -> Seq<nat> {
        Seq::new(self.size(), |slot: int| self.slot_moves(slot))
    }

    /// The number of moves that the solver makes until the node of the first
    /// index is done: one to come to the first index, and two for every step
    /// from an index that can be reached.
    pub open spec fn moves_needed(self) -> nat {
        1 + sum(self.all_moves())
    }

    /// The first index can be reached.
    pub proof fn lemma_start_reachable(self)
        ensures
            self.reachable(self.start()),
    {
        assert(self.reaches(Seq::empty(), self.start()));
    }

    /// A step from an index that can be reached leads to an index that can
    /// be reached.
    pub proof fn lemma_step_reachable(self, ix: Ix, j: int)
        requires
            self.reachable(ix),
            0 <= j < self.steps(ix).len(),
        ensures
            self.reachable(step_spec(ix, self.steps(ix)[j])),
    {
        let steps = choose|steps: Seq<StepType>| #[trigger] self.reaches(steps, ix);
        let longer = steps.push(self.steps(ix)[j]);
        assert(longer.drop_last() =~= steps);
        assert(self.reaches(longer, step_spec(ix, self.steps(ix)[j])));
    }

    /// The place of the node of an index that can be reached holds that
    /// index and no other.
    pub proof fn lemma_slot_moves(self, ix: Ix)
        requires
            self.wf(),
            self.valid(ix),
            self.reachable(ix),
        ensures
            self.has_owner(slot_of((self.flat.len() + 1) as nat, ix)),
            self.slot_moves(slot_of((self.flat.len() + 1) as nat, ix)) == 2 * self.steps(ix).len(),
            0 <= slot_of((self.flat.len() + 1) as nat, ix) < self.size(),
    {
        let slot = slot_of((self.flat.len() + 1) as nat, ix);
        assert(self.owns(ix, slot));
        let owner = choose|owner: Ix| #[trigger] self.owns(owner, slot);
        if owner != ix {
            self.lemma_slots_differ(owner, ix);
        }
        self.lemma_slot(ix);
    }

    /// The solver needs no more than six moves for each place of the store,
    /// and one more.
    pub proof fn lemma_moves_needed(self)
        ensures
            self.moves_needed() <= 1 + 6 * self.size(),
    {
        assert forall|slot: int| 0 <= slot < self.all_moves().len() implies self.all_moves()[slot]
            <= 6 by {
            if self.has_owner(slot) {
                self.lemma_steps_len(choose|ix: Ix| #[trigger] self.owns(ix, slot));
            }
        }
        lemma_sum_at_most_six(self.all_moves());
    }
}

} // verus!
