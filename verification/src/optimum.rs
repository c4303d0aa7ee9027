//! The best score from each index of the lattice, the steps that reach it, and
//! what holds of them: no walk through the lattice is cheaper, the score
//! counts the skipped characters of the trace, and the trace holds the text.

use vstd::prelude::*;
use crate::{MatchView, Step};
use crate::flat_pattern::FlatView;
use crate::lattice::{step_cost, step_spec, Ix, Lattice, StepType};

verus! {

/// The best of the steps tried so far: its score, and which step it is.
pub struct Best {
    pub score: nat,
    pub choice: int,
}

impl Lattice {
    /// The best of the first `k` steps that lead on from `ix`, each step taken
    /// with the best score from the index that it leads to. Of two steps that
    /// are equally good the earlier one is the best.
    #[verifier::opaque]
    pub open spec fn best(self, ix: Ix, k: nat) -> Best
        decreases self.text.len() - ix.text, ix.reps - ix.rep_off, self.flat.len() - ix.pattern, k,
    {
        if !(self.wf() && self.valid(ix)) || k == 0 || k > self.steps(ix).len() {
            Best { score: 0, choice: 0 }
        } else {
            let step_type = self.steps(ix)[k - 1];
            let next = step_spec(ix, step_type);
            proof {
                self.lemma_step(ix, k - 1);
            }
            let via = step_cost(step_type) + self.best(next, self.steps(next).len()).score;
            if k == 1 {
                Best { score: via, choice: 0 }
            } else {
                let prev = self.best(ix, (k - 1) as nat);
                if via < prev.score {
                    Best { score: via, choice: k - 1 }
                } else {
                    prev
                }
            }
        }
    }

    /// The best score from `ix` to the last index: the least number of
    /// characters, of the text and of the pattern, that must be passed over.
    pub open spec fn opt(self, ix: Ix) -> nat {
        self.best(ix, self.steps(ix).len()).score
    }

    /// Which of the steps from `ix` the best alignment takes.
    pub open spec fn choice(self, ix: Ix) -> int {
        self.best(ix, self.steps(ix).len()).choice
    }

    /// The score of taking step `j` from `ix` and going on as well as can be.
    pub open spec fn via(self, ix: Ix, j: int) -> nat {
        step_cost(self.steps(ix)[j]) + self.opt(step_spec(ix, self.steps(ix)[j]))
    }

    /// The best of the first `k` steps is one of them, has the score of
    /// going on by it, and every step before it is strictly worse.
    pub proof fn lemma_best_choice(self, ix: Ix, k: nat)
        requires
            self.wf(),
            self.valid(ix),
            1 <= k <= self.steps(ix).len(),
        ensures
            0 <= self.best(ix, k).choice < k,
            self.best(ix, k).score == self.via(ix, self.best(ix, k).choice),
            forall|j: int| 0 <= j < k ==> self.best(ix, k).score <= #[trigger] self.via(ix, j),
            forall|j: int|
                0 <= j < self.best(ix, k).choice ==> self.best(ix, k).score < #[trigger] self.via(
                    ix,
                    j,
                ),
        decreases k,
    {
        reveal(Lattice::best);
        if k > 1 {
            self.lemma_best_choice(ix, (k - 1) as nat);
        }
    }

    /// Where no step leads on, nothing needs to be passed over.
    pub proof fn lemma_opt_end(self, ix: Ix)
        requires
            self.steps(ix).len() == 0,
        ensures
            self.opt(ix) == 0,
    {
        reveal(Lattice::best);
    }

    /// The steps of the best alignment from `ix` to the last index.
    pub open spec fn opt_steps(self, ix: Ix) -> Seq<StepType>
        decreases self.text.len() - ix.text, ix.reps - ix.rep_off, self.flat.len() - ix.pattern,
    {
        if !(self.wf() && self.valid(ix)) || self.steps(ix).len() == 0 {
            Seq::empty()
        } else {
            proof {
                self.lemma_best_choice(ix, self.steps(ix).len());
                self.lemma_step(ix, self.choice(ix));
            }
            let step_type = self.steps(ix)[self.choice(ix)];
            seq![step_type] + self.opt_steps(step_spec(ix, step_type))
        }
    }

    /// Whether `step_type` is one of the steps that lead on from `ix`.
    pub open spec fn allows(self, ix: Ix, step_type: StepType) -> bool {
        exists|j: int| 0 <= j < self.steps(ix).len() && #[trigger] self.steps(ix)[j] == step_type
    }

    /// Whether `steps`, taken one after the other from `ix`, are each a step
    /// that leads on from where it is taken, and together end at the last
    /// index.
    pub open spec fn walk_ok(self, ix: Ix, steps: Seq<StepType>) -> bool
        decreases steps.len(),
    {
        if steps.len() == 0 {
            ix == self.end()
        } else {
            self.allows(ix, steps[0]) && self.walk_ok(step_spec(ix, steps[0]), steps.drop_first())
        }
    }

    /// What the pattern asks at `ix`, where the instruction there is a
    /// literal or a class.
    pub open spec fn match_at(self, ix: Ix) -> MatchView {
        match self.flat[ix.pattern as int] {
            FlatView::Class(ranges) => MatchView::Class(ranges),
            FlatView::Lit(c) => MatchView::Lit(c),
            _ => arbitrary(),
        }
    }

    /// What the step from `ix` leaves in the trace, if anything.
    pub open spec fn emit(self, ix: Ix, step_type: StepType) -> Option<Step<MatchView, char>> {
        match step_type {
            StepType::Hit => Some(Step::Hit(self.match_at(ix), self.text[ix.text as int])),
            StepType::SkipPattern => Some(Step::SkipPattern(self.match_at(ix))),
            StepType::SkipText => Some(Step::SkipText(self.text[ix.text as int])),
            StepType::StartGroup => Some(Step::StartCapture),
            StepType::EndGroup => Some(Step::StopCapture),
            _ => None,
        }
    }

    /// The trace that `steps` leave when they are taken from `ix`.
    pub open spec fn walk_trace(self, ix: Ix, steps: Seq<StepType>) -> Seq<Step<MatchView, char>>
        decreases steps.len(),
    {
        if steps.len() == 0 {
            Seq::empty()
        } else {
            let rest = self.walk_trace(step_spec(ix, steps[0]), steps.drop_first());
            match self.emit(ix, steps[0]) {
                Some(step) => seq![step] + rest,
                None => rest,
            }
        }
    }

    /// The trace of the best alignment from `ix` to the last index.
    pub open spec fn opt_trace(self, ix: Ix) -> Seq<Step<MatchView, char>> {
        self.walk_trace(ix, self.opt_steps(ix))
    }

    /// The trace of the best alignment from `ix` is what its first step
    /// leaves, followed by the trace of the best alignment from the index
    /// that the step leads to.
    pub proof fn lemma_opt_trace(self, ix: Ix)
        requires
            self.wf(),
            self.valid(ix),
            self.steps(ix).len() > 0,
        ensures
            0 <= self.choice(ix) < self.steps(ix).len(),
            ({
                let step_type = self.steps(ix)[self.choice(ix)];
                let next = step_spec(ix, step_type);
                &&& self.valid(next)
                &&& self.further(next, ix)
                &&& self.opt_trace(ix) == (match self.emit(ix, step_type) {
                    Some(step) => seq![step],
                    None => Seq::empty(),
                }) + self.opt_trace(next)
            }),
    {
        self.lemma_best_choice(ix, self.steps(ix).len());
        self.lemma_step(ix, self.choice(ix));
        let step_type = self.steps(ix)[self.choice(ix)];
        let next = step_spec(ix, step_type);
        let steps = self.opt_steps(ix);
        assert(steps.drop_first() =~= self.opt_steps(next));
        assert(steps[0] == step_type);
        assert(self.opt_trace(ix) =~= (match self.emit(ix, step_type) {
            Some(step) => seq![step],
            None => Seq::empty(),
        }) + self.opt_trace(next));
    }

    /// The steps of the best alignment lead from `ix` to the last index, and
    /// cost what the best score says.
    pub proof fn lemma_opt_walk(self, ix: Ix)
        requires
            self.wf(),
            self.valid(ix),
        ensures
            self.walk_ok(ix, self.opt_steps(ix)),
            walk_cost(self.opt_steps(ix)) == self.opt(ix),
        decreases self.text.len() - ix.text, ix.reps - ix.rep_off, self.flat.len() - ix.pattern,
    {
        self.lemma_end(ix);
        if self.steps(ix).len() == 0 {
            self.lemma_opt_end(ix);
        } else {
            self.lemma_best_choice(ix, self.steps(ix).len());
            let step_type = self.steps(ix)[self.choice(ix)];
            let next = step_spec(ix, step_type);
            self.lemma_step(ix, self.choice(ix));
            self.lemma_opt_walk(next);
            let steps = self.opt_steps(ix);
            assert(steps.drop_first() =~= self.opt_steps(next));
            assert(steps[0] == step_type);
        }
    }

    /// No walk from `ix` to the last index costs less than the best score.
    pub proof fn lemma_optimal(self, ix: Ix, steps: Seq<StepType>)
        requires
            self.wf(),
            self.valid(ix),
            self.walk_ok(ix, steps),
        ensures
            self.opt(ix) <= walk_cost(steps),
        decreases steps.len(),
    {
        self.lemma_end(ix);
        if steps.len() == 0 {
            self.lemma_opt_end(ix);
        } else {
            let j = choose|j: int|
                0 <= j < self.steps(ix).len() && #[trigger] self.steps(ix)[j] == steps[0];
            self.lemma_step(ix, j);
            self.lemma_best_choice(ix, self.steps(ix).len());
            assert(self.opt(ix) <= self.via(ix, j));
            self.lemma_optimal(step_spec(ix, steps[0]), steps.drop_first());
        }
    }

    /// The best score from `ix` is no more than the number of characters of
    /// the text and of positions of the pattern that lie ahead.
    pub proof fn lemma_bound(self, ix: Ix)
        requires
            self.wf(),
            self.valid(ix),
        ensures
            self.opt(ix) <= (self.text.len() - ix.text) + (self.flat.len() - ix.pattern),
        decreases self.text.len() - ix.text, ix.reps - ix.rep_off, self.flat.len() - ix.pattern,
    {
        let steps = self.steps(ix);
        if steps.len() == 0 {
            self.lemma_opt_end(ix);
        } else {
            self.lemma_best_choice(ix, steps.len());
            if steps[0] is RestartRepetition {
                self.lemma_restart(ix);
                let back = step_spec(ix, steps[0]);
                self.lemma_best_choice(back, 2);
                let on = step_spec(back, self.steps(back)[1]);
                self.lemma_bound(on);
                assert(self.opt(back) <= self.via(back, 1));
                assert(self.opt(ix) <= self.via(ix, 0));
            } else {
                let j: int = if steps[0] is StartRepetition {
                    1
                } else {
                    0
                };
                self.lemma_step(ix, j);
                self.lemma_bound(step_spec(ix, steps[j]));
                assert(self.opt(ix) <= self.via(ix, j));
            }
        }
    }

    /// The characters that a walk from `ix` to the last index leaves in its
    /// trace, as the text's side of a hit or as a skipped character, are the
    /// text from `ix` on: every character once, in order.
    pub proof fn lemma_walk_text(self, ix: Ix, steps: Seq<StepType>)
        requires
            self.wf(),
            self.valid(ix),
            self.walk_ok(ix, steps),
        ensures
            trace_text(self.walk_trace(ix, steps)) == self.text.subrange(
                ix.text as int,
                self.text.len() as int,
            ),
        decreases steps.len(),
    {
        let rest_text = self.text.subrange(ix.text as int, self.text.len() as int);
        if steps.len() == 0 {
            assert(rest_text =~= Seq::<char>::empty());
        } else {
            let j = choose|j: int|
                0 <= j < self.steps(ix).len() && #[trigger] self.steps(ix)[j] == steps[0];
            self.lemma_step(ix, j);
            let next = step_spec(ix, steps[0]);
            self.lemma_walk_text(next, steps.drop_first());
            let rest = self.walk_trace(next, steps.drop_first());
            match self.emit(ix, steps[0]) {
                Some(step) => {
                    assert((seq![step] + rest).drop_first() =~= rest);
                    if steps[0] is Hit || steps[0] is SkipText {
                        assert(rest_text =~= seq![self.text[ix.text as int]]
                            + self.text.subrange(next.text as int, self.text.len() as int));
                    }
                },
                None => {},
            }
        }
    }

    /// The literals and classes that a walk from `ix` goes past: what the
    /// pattern asks at each index of the walk whose instruction is a literal
    /// or a class and from which the walk moves on in the pattern.
    pub open spec fn passed(self, ix: Ix, steps: Seq<StepType>) -> Seq<MatchView>
        decreases steps.len(),
    {
        if steps.len() == 0 {
            Seq::empty()
        } else {
            (if (self.flat_at(ix) matches Some(flat) && (flat is Lit || flat is Class))
                && !(steps[0] is SkipText) {
                seq![self.match_at(ix)]
            } else {
                Seq::empty()
            }) + self.passed(step_spec(ix, steps[0]), steps.drop_first())
        }
    }

    /// The pattern's sides of the hits and the skipped literals and classes
    /// of a walk's trace are the literals and classes that the walk goes past:
    /// each one once for every time that the walk goes past it, in order.
    pub proof fn lemma_walk_matches(self, ix: Ix, steps: Seq<StepType>)
        requires
            self.wf(),
            self.valid(ix),
            self.walk_ok(ix, steps),
        ensures
            trace_matches(self.walk_trace(ix, steps)) == self.passed(ix, steps),
        decreases steps.len(),
    {
        if steps.len() > 0 {
            let j = choose|j: int|
                0 <= j < self.steps(ix).len() && #[trigger] self.steps(ix)[j] == steps[0];
            self.lemma_step(ix, j);
            let next = step_spec(ix, steps[0]);
            self.lemma_walk_matches(next, steps.drop_first());
            let rest = self.walk_trace(next, steps.drop_first());
            match self.emit(ix, steps[0]) {
                Some(step) => {
                    assert((seq![step] + rest).drop_first() =~= rest);
                },
                None => {},
            }
            assert(trace_matches(self.walk_trace(ix, steps)) =~= self.passed(ix, steps));
        }
    }

    /// The cost of a walk is the number of skipped characters in its trace.
    pub proof fn lemma_walk_skips(self, ix: Ix, steps: Seq<StepType>)
        ensures
            trace_skips(self.walk_trace(ix, steps)) == walk_cost(steps),
        decreases steps.len(),
    {
        if steps.len() > 0 {
            let next = step_spec(ix, steps[0]);
            self.lemma_walk_skips(next, steps.drop_first());
            let rest = self.walk_trace(next, steps.drop_first());
            match self.emit(ix, steps[0]) {
                Some(step) => {
                    assert((seq![step] + rest).drop_first() =~= rest);
                },
                None => {},
            }
        }
    }
}

/// What the steps cost together.
pub open spec fn walk_cost(steps: Seq<StepType>) -> nat
    decreases steps.len(),
{
    if steps.len() == 0 {
        0
    } else {
        step_cost(steps[0]) + walk_cost(steps.drop_first())
    }
}

/// The number of steps of the trace that pass over a character, of the text
/// or of the pattern.
pub open spec fn trace_skips<P, T>(trace: Seq<Step<P, T>>) -> nat
    decreases trace.len(),
{
    if trace.len() == 0 {
        0
    } else {
        (match trace[0] {
            Step::SkipPattern(_) => 1nat,
            Step::SkipText(_) => 1nat,
            _ => 0nat,
        }) + trace_skips(trace.drop_first())
    }
}

/// What the pattern asked where the trace holds a hit or a skipped literal
/// or class, in order.
pub open spec fn trace_matches<P, T>(trace: Seq<Step<P, T>>) -> Seq<P>
    decreases trace.len(),
{
    if trace.len() == 0 {
        Seq::empty()
    } else {
        (match trace[0] {
            Step::Hit(m, _) => seq![m],
            Step::SkipPattern(m) => seq![m],
            _ => Seq::empty(),
        }) + trace_matches(trace.drop_first())
    }
}

/// The characters of the text that the trace holds, in order: the text's
/// side of each hit, and each skipped character of the text.
pub open spec fn trace_text<P>(trace: Seq<Step<P, char>>) -> Seq<char>
    decreases trace.len(),
{
    if trace.len() == 0 {
        Seq::empty()
    } else {
        (match trace[0] {
            Step::Hit(_, c) => seq![c],
            Step::SkipText(c) => seq![c],
            _ => Seq::empty(),
        }) + trace_text(trace.drop_first())
    }
}

} // verus!
