//! The lattice that the solver walks: its indices, the steps that lead from
//! one index to the next, and what each step costs.
//!
//! An index names a position in the flat pattern and a position in the text.
//! From every index but the last a few steps lead on: the text's character is
//! matched or passed over, the pattern's instruction is passed over, a group
//! or a branch is entered, a repetition is entered, left or begun again. No
//! sequence of steps comes back to an index that it has left.

use vstd::prelude::*;
use nonempty::NonEmpty;
use crate::{class_matches, Step};
use crate::flat_pattern::{Flat, FlatView};
use crate::layout::{base_ok, point_ok, segment_ok, Slot};

verus! {

/// An index into the lattice.
#[derive(Clone, Copy, PartialEq, Eq, Structural, Hash, Debug)]
pub struct Ix {
    /// The position in the flat pattern: that of the first copy of an
    /// instruction, or the pattern's length.
    pub pattern: usize,
    /// The position in the text.
    pub text: usize,
    /// How many times the instructions at `pattern` are written.
    pub reps: usize,
    /// How many repetitions have been entered since the position in the text
    /// last changed. A repetition may only begin again where this is 0: that
    /// is what keeps the solver from going round in circles.
    pub rep_off: usize,
}

impl Default for Ix {
    fn default() -> (ix: Ix)
        ensures
            ix == (Ix { pattern: 0, text: 0, reps: 0, rep_off: 0 }),
    {
        Ix { pattern: 0, text: 0, reps: 0, rep_off: 0 }
    }
}

/// What an index type offers to the solver beyond being an address.
pub trait LatticeIx: Sized {
    /// Whether a repetition that ends at this index may begin again.
    spec fn restarts(&self) -> bool;

    fn can_restart(&self) -> (b: bool)
        ensures
            b == self.restarts(),
    ;
}

impl LatticeIx for Ix {
    open spec fn restarts(&self) -> bool {
        self.rep_off == 0
    }

    fn can_restart(&self) -> (b: bool) {
        self.rep_off == 0
    }
}

/// What kind of place an index is: by this the steps that lead on are chosen.
///
/// The kinds that stand for a mark of the pattern say in their last field
/// whether a character of the text is left at the index: where one is left,
/// it may be passed over there, as at any other place.
#[derive(Clone, Copy, PartialEq, Eq, Structural, Hash, Debug)]
pub enum NodeType {
    /// The pattern is finished, and text is left.
    FinishedPattern,
    /// A literal or a class, and the text is finished.
    FinishedText,
    /// A literal or a class that accepts the character of the text.
    Hit,
    /// A literal or a class that does not accept the character of the text.
    NoHit,
    StartGroup(bool),
    EndGroup(bool),
    /// The first mark of an alternative, with the distance to the second.
    AlternativeLeft(usize, bool),
    /// The second mark of an alternative, with the distance to what follows
    /// the alternative.
    AlternativeRight(usize, bool),
    /// The start of a repetition, with the distance to its end.
    RepetitionStart(usize, bool),
    /// The end of a repetition that may begin again, with the distance back
    /// to its start.
    RepetitionRestart(usize, bool),
    /// The end of a repetition that may not begin again.
    RepetitionEnd(bool),
}

/// A step from one index to the next.
#[derive(Clone, Copy, PartialEq, Eq, Structural, Debug)]
pub enum StepType {
    SkipText,
    SkipPattern,
    Hit,
    StartGroup,
    EndGroup,
    StartLeft,
    StartRight(usize),
    PassRight(usize),
    StartRepetition,
    PassRepetition(usize),
    EndRepetition,
    RestartRepetition(usize),
}

/// What the step adds to the score: 1 where a character of the text or of the
/// pattern is passed over, else 0.
pub open spec fn step_cost(step_type: StepType) -> nat {
    match step_type {
        StepType::SkipPattern => 1,
        StepType::SkipText => 1,
        _ => 0,
    }
}

/// What the step leaves in the trace, with the pattern's and the text's side
/// still to be filled in.
pub open spec fn step_mark(step_type: StepType) -> Option<Step<(), ()>> {
    match step_type {
        StepType::Hit => Some(Step::Hit((), ())),
        StepType::SkipPattern => Some(Step::SkipPattern(())),
        StepType::SkipText => Some(Step::SkipText(())),
        StepType::StartGroup => Some(Step::StartCapture),
        StepType::EndGroup => Some(Step::StopCapture),
        _ => None,
    }
}

impl StepType {
    pub fn cost(&self) -> (cost: usize)
        ensures
            cost == step_cost(*self),
    {
        match self {
            Self::SkipPattern => 1,
            Self::SkipText => 1,
            _ => 0,
        }
    }

    pub fn step(&self) -> (mark: Option<Step<(), ()>>)
        ensures
            mark == step_mark(*self),
    {
        match self {
            Self::Hit => Some(Step::Hit((), ())),
            Self::SkipPattern => Some(Step::SkipPattern(())),
            Self::SkipText => Some(Step::SkipText(())),
            Self::StartGroup => Some(Step::StartCapture),
            Self::EndGroup => Some(Step::StopCapture),
            _ => None,
        }
    }
}

/// The kind of a place with the instruction `flat` and the character `text`,
/// either of which may be missing at the end.
pub open spec fn node_type_of(flat: Option<FlatView>, text: Option<char>, can_restart: bool)
    -> Option<NodeType> {
    match flat {
        None => if text is None {
            None
        } else {
            Some(NodeType::FinishedPattern)
        },
        Some(FlatView::Lit(c)) => Some(
            if text == Some(c) {
                NodeType::Hit
            } else if text is None {
                NodeType::FinishedText
            } else {
                NodeType::NoHit
            },
        ),
        Some(FlatView::Class(ranges)) => Some(
            if text is Some && class_matches(ranges, text->0) {
                NodeType::Hit
            } else if text is None {
                NodeType::FinishedText
            } else {
                NodeType::NoHit
            },
        ),
        Some(FlatView::GroupStart) => Some(NodeType::StartGroup(text is Some)),
        Some(FlatView::GroupEnd) => Some(NodeType::EndGroup(text is Some)),
        Some(FlatView::AlternativeLeft(off)) => Some(
            NodeType::AlternativeLeft(off as usize, text is Some),
        ),
        Some(FlatView::AlternativeRight(off)) => Some(
            NodeType::AlternativeRight(off as usize, text is Some),
        ),
        Some(FlatView::RepetitionStart(off)) => Some(
            NodeType::RepetitionStart(off as usize, text is Some),
        ),
        Some(FlatView::RepetitionEnd(off)) => Some(
            if can_restart {
                NodeType::RepetitionRestart(off as usize, text is Some)
            } else {
                NodeType::RepetitionEnd(text is Some)
            },
        ),
    }
}

/// The steps `steps`, with the step over a character of the text before
/// them where text is left.
pub open spec fn or_skip_text(text_left: bool, steps: Seq<StepType>) -> Seq<StepType> {
    if text_left {
        seq![StepType::SkipText] + steps
    } else {
        steps
    }
}

/// The steps that lead on from a place of the given kind, in the order in
/// which the solver tries them. Of two steps that are equally good the
/// earlier one is taken.
///
/// Where text is left, the step that passes over its character is among
/// them: after the hit and the step over the pattern's literal or class, and
/// before every step over a mark of the pattern.
pub open spec fn step_types_of(node_type: NodeType) -> Seq<StepType> {
    match node_type {
        NodeType::FinishedPattern => seq![StepType::SkipText],
        NodeType::FinishedText => seq![StepType::SkipPattern],
        NodeType::Hit => seq![StepType::Hit, StepType::SkipPattern, StepType::SkipText],
        NodeType::NoHit => seq![StepType::SkipPattern, StepType::SkipText],
        NodeType::StartGroup(text_left) => or_skip_text(text_left, seq![StepType::StartGroup]),
        NodeType::EndGroup(text_left) => or_skip_text(text_left, seq![StepType::EndGroup]),
        NodeType::AlternativeLeft(off, text_left) => or_skip_text(
            text_left,
            seq![StepType::StartLeft, StepType::StartRight(off)],
        ),
        NodeType::AlternativeRight(off, text_left) => or_skip_text(
            text_left,
            seq![StepType::PassRight(off)],
        ),
        NodeType::RepetitionStart(off, text_left) => or_skip_text(
            text_left,
            seq![StepType::StartRepetition, StepType::PassRepetition(off)],
        ),
        NodeType::RepetitionRestart(off, text_left) => or_skip_text(
            text_left,
            seq![StepType::RestartRepetition(off)],
        ),
        NodeType::RepetitionEnd(text_left) => or_skip_text(
            text_left,
            seq![StepType::EndRepetition],
        ),
    }
}

/// Whatever the pattern holds at a place, or if it is finished there: where
/// a character of the text is left, the step that passes over it is among
/// the steps that lead on.
pub proof fn lemma_skip_text_offered(flat: Option<FlatView>, c: char, can_restart: bool)
    ensures
        node_type_of(flat, Some(c), can_restart) matches Some(node_type) && step_types_of(
            node_type,
        ).contains(StepType::SkipText),
{
    let steps = step_types_of(node_type_of(flat, Some(c), can_restart)->0);
    let j: int = if steps[0] is SkipText {
        0
    } else if steps[1] is SkipText {
        1
    } else {
        2
    };
    assert(0 <= j < steps.len() && steps[j] == StepType::SkipText);
}

/// The index that the step leads to.
pub open spec fn step_spec(ix: Ix, step_type: StepType) -> Ix {
    match step_type {
        StepType::Hit => Ix {
            pattern: (ix.pattern + ix.reps) as usize,
            text: (ix.text + 1) as usize,
            rep_off: 0,
            ..ix
        },
        StepType::SkipText => Ix { text: (ix.text + 1) as usize, rep_off: 0, ..ix },
        StepType::SkipPattern | StepType::StartGroup | StepType::EndGroup | StepType::StartLeft => Ix {
            pattern: (ix.pattern + ix.reps) as usize,
            ..ix
        },
        StepType::StartRight(off) => Ix { pattern: (ix.pattern + off + ix.reps) as usize, ..ix },
        StepType::PassRight(off) => Ix { pattern: (ix.pattern + off) as usize, ..ix },
        StepType::StartRepetition => Ix {
            pattern: (ix.pattern + ix.reps) as usize,
            reps: (ix.reps + 1) as usize,
            rep_off: (ix.rep_off + 1) as usize,
            ..ix
        },
        StepType::EndRepetition => Ix {
            pattern: (ix.pattern + ix.reps) as usize,
            reps: (ix.reps - 1) as usize,
            rep_off: (ix.rep_off - 1) as usize,
            ..ix
        },
        StepType::PassRepetition(off) => Ix {
            pattern: (ix.pattern + off + ix.reps + 1) as usize,
            ..ix
        },
        StepType::RestartRepetition(off) => Ix {
            pattern: (ix.pattern - off) as usize,
            reps: (ix.reps - 1) as usize,
            ..ix
        },
    }
}

/// The lattice of a flat pattern and a text.
pub struct Lattice {
    /// The instructions of the flat pattern.
    pub flat: Seq<FlatView>,
    /// For each position of the flat pattern, its place among the copies of
    /// its instruction.
    pub lay: Seq<Slot>,
    /// The text.
    pub text: Seq<char>,
}

impl Lattice {
    /// Whether the flat pattern is sound, so that every step from an index of
    /// the lattice leads to an index of the lattice.
    pub open spec fn wf(self) -> bool {
        &&& segment_ok(self.flat, self.lay, 1)
        &&& point_ok(self.lay, 1, 0, 1)
        &&& self.flat.len() + self.text.len() + 1 <= usize::MAX
    }

    /// Whether `ix` is an index of the lattice.
    pub open spec fn valid(self, ix: Ix) -> bool {
        &&& ix.text <= self.text.len()
        &&& point_ok(self.lay, 1, ix.pattern as int, ix.reps as nat)
        &&& ix.rep_off < ix.reps
    }

    /// The index at which nothing has been matched yet.
    pub open spec fn start(self) -> Ix {
        Ix { pattern: 0, text: 0, reps: 1, rep_off: 0 }
    }

    /// The index at which the whole pattern and the whole text have been
    /// matched.
    pub open spec fn end(self) -> Ix {
        Ix { pattern: self.flat.len() as usize, text: self.text.len() as usize, reps: 1, rep_off: 0 }
    }

    /// The instruction at `ix`, if the pattern is not finished there.
    pub open spec fn flat_at(self, ix: Ix) -> Option<FlatView> {
        if ix.pattern < self.flat.len() {
            Some(self.flat[ix.pattern as int])
        } else {
            None
        }
    }

    /// The character at `ix`, if the text is not finished there.
    pub open spec fn text_at(self, ix: Ix) -> Option<char> {
        if ix.text < self.text.len() {
            Some(self.text[ix.text as int])
        } else {
            None
        }
    }

    /// The kind of place that `ix` is; none for the last index.
    pub open spec fn node_type(self, ix: Ix) -> Option<NodeType> {
        node_type_of(self.flat_at(ix), self.text_at(ix), ix.rep_off == 0)
    }

    /// The steps that lead on from `ix`, in the order in which they are tried.
    pub open spec fn steps(self, ix: Ix) -> Seq<StepType> {
        match self.node_type(ix) {
            Some(node_type) => step_types_of(node_type),
            None => Seq::empty(),
        }
    }

    /// Whether `a` lies further on in the lattice than `b`: further in the
    /// text, or as far in the text and inside fewer repetitions that were
    /// entered before the text last moved, or the same in both and further in
    /// the pattern.
    pub open spec fn further(self, a: Ix, b: Ix) -> bool {
        ||| a.text > b.text
        ||| a.text == b.text && a.reps - a.rep_off < b.reps - b.rep_off
        ||| a.text == b.text && a.reps - a.rep_off == b.reps - b.rep_off && a.pattern > b.pattern
    }

    /// Each step from an index of the lattice leads to an index of the
    /// lattice that lies further on, and the sums and differences that give
    /// the new index stay within the machine's numbers. But for a step that
    /// passes over a character of the text, and for one that begins a
    /// repetition again, the step costs no more than the number of positions
    /// of the pattern that it leaves behind.
    pub proof fn lemma_step(self, ix: Ix, j: int)
        requires
            self.wf(),
            self.valid(ix),
            0 <= j < self.steps(ix).len(),
        ensures
            self.valid(step_spec(ix, self.steps(ix)[j])),
            self.further(step_spec(ix, self.steps(ix)[j]), ix),
            step_fits(ix, self.steps(ix)[j]),
            self.flat.len() - step_spec(ix, self.steps(ix)[j]).pattern + step_cost(
                self.steps(ix)[j],
            ) <= self.flat.len() - ix.pattern || self.steps(ix)[j] is RestartRepetition
                || self.steps(ix)[j] is SkipText,
    {
        if self.steps(ix)[j] is SkipText {
            self.lemma_step_in_text(ix, j);
        } else {
            self.lemma_step_in_pattern(ix, j);
        }
    }

    /// The step over a character of the text is taken where text is left,
    /// and leads to the same position of the pattern.
    proof fn lemma_step_in_text(self, ix: Ix, j: int)
        requires
            self.wf(),
            self.valid(ix),
            0 <= j < self.steps(ix).len(),
            self.steps(ix)[j] is SkipText,
        ensures
            ix.text < self.text.len(),
            self.valid(step_spec(ix, self.steps(ix)[j])),
            self.further(step_spec(ix, self.steps(ix)[j]), ix),
            step_fits(ix, self.steps(ix)[j]),
    {
        assert(self.text_at(ix) is Some);
    }

    /// A step that moves on in the pattern leads to the first copy of an
    /// instruction, or to the end of the pattern.
    proof fn lemma_step_in_pattern(self, ix: Ix, j: int)
        requires
            self.wf(),
            self.valid(ix),
            0 <= j < self.steps(ix).len(),
            !(self.steps(ix)[j] is SkipText),
        ensures
            self.valid(step_spec(ix, self.steps(ix)[j])),
            self.further(step_spec(ix, self.steps(ix)[j]), ix),
            step_fits(ix, self.steps(ix)[j]),
            self.flat.len() - step_spec(ix, self.steps(ix)[j]).pattern + step_cost(
                self.steps(ix)[j],
            ) <= self.flat.len() - ix.pattern || self.steps(ix)[j] is RestartRepetition,
    {
        let p = ix.pattern as int;
        assert(p < self.flat.len());
        assert(base_ok(self.flat, self.lay, 1, p));
        assert(self.lay[p] == Slot { copy: 0, reps: ix.reps as nat });
        let next = step_spec(ix, self.steps(ix)[j]);
        match self.flat[p] {
            FlatView::Lit(_) | FlatView::Class(_) => {
                assert(point_ok(self.lay, 1, p + ix.reps, ix.reps as nat));
                assert(next.pattern == p + ix.reps);
            },
            FlatView::GroupStart | FlatView::GroupEnd => {
                assert(point_ok(self.lay, 1, p + ix.reps, ix.reps as nat));
                assert(next.pattern == p + ix.reps);
            },
            FlatView::AlternativeLeft(off) => {
                assert(point_ok(self.lay, 1, p + ix.reps, ix.reps as nat));
                assert(point_ok(self.lay, 1, p + off + ix.reps, ix.reps as nat));
            },
            FlatView::AlternativeRight(off) => {
                assert(point_ok(self.lay, 1, p + off, ix.reps as nat));
            },
            FlatView::RepetitionStart(off) => {
                assert(point_ok(self.lay, 1, p + ix.reps, (ix.reps + 1) as nat));
                assert(point_ok(self.lay, 1, p + off + ix.reps + 1, ix.reps as nat));
            },
            FlatView::RepetitionEnd(off) => {
                assert(point_ok(self.lay, 1, p + ix.reps, (ix.reps - 1) as nat));
                assert(point_ok(self.lay, 1, p - off, (ix.reps - 1) as nat));
            },
        }
    }

    /// No more than three steps lead on from an index.
    pub proof fn lemma_steps_len(self, ix: Ix)
        ensures
            self.steps(ix).len() <= 3,
    {
    }

    /// Where a repetition begins again, the solver may at once pass it by,
    /// and then stands behind the repetition without having paid anything.
    pub proof fn lemma_restart(self, ix: Ix)
        requires
            self.wf(),
            self.valid(ix),
            self.steps(ix).len() > 0,
            self.steps(ix)[0] is RestartRepetition,
        ensures
            self.valid(step_spec(ix, self.steps(ix)[0])),
            self.steps(step_spec(ix, self.steps(ix)[0])).len() == 2,
            step_cost(self.steps(ix)[0]) == 0,
            ({
                let back = step_spec(ix, self.steps(ix)[0]);
                let on = step_spec(back, self.steps(back)[1]);
                &&& step_cost(self.steps(back)[1]) == 0
                &&& self.valid(on)
                &&& on.text == ix.text
                &&& on.pattern == ix.pattern + ix.reps
                &&& on.reps - on.rep_off < ix.reps - ix.rep_off
            }),
    {
        let p = ix.pattern as int;
        assert(base_ok(self.flat, self.lay, 1, p));
        self.lemma_step(ix, 0);
        let back = step_spec(ix, self.steps(ix)[0]);
        assert(base_ok(self.flat, self.lay, 1, back.pattern as int));
        self.lemma_step(back, 1);
    }

    /// The last index is the only index of the lattice from which no step
    /// leads on.
    pub proof fn lemma_end(self, ix: Ix)
        requires
            self.wf(),
            self.valid(ix),
        ensures
            self.steps(ix).len() == 0 <==> ix == self.end(),
            self.valid(self.end()),
            self.valid(self.start()),
    {
    }
}

/// Whether the sums and differences that give `step_spec(ix, step_type)` stay
/// within the machine's numbers.
pub open spec fn step_fits(ix: Ix, step_type: StepType) -> bool {
    match step_type {
        StepType::Hit => ix.pattern + ix.reps <= usize::MAX && ix.text + 1 <= usize::MAX,
        StepType::SkipText => ix.text + 1 <= usize::MAX,
        StepType::SkipPattern | StepType::StartGroup | StepType::EndGroup | StepType::StartLeft =>
            ix.pattern + ix.reps <= usize::MAX,
        StepType::StartRight(off) => ix.pattern + off + ix.reps <= usize::MAX,
        StepType::PassRight(off) => ix.pattern + off <= usize::MAX,
        StepType::StartRepetition => ix.pattern + ix.reps <= usize::MAX && ix.reps + 1
            <= usize::MAX && ix.rep_off + 1 <= usize::MAX,
        StepType::EndRepetition => ix.pattern + ix.reps <= usize::MAX && ix.reps >= 1 && ix.rep_off
            >= 1,
        StepType::PassRepetition(off) => ix.pattern + off + ix.reps + 1 <= usize::MAX,
        StepType::RestartRepetition(off) => ix.pattern >= off && ix.reps >= 1,
    }
}

/// A list that holds at least one item.
#[verifier::external_type_specification]
#[verifier::external_body]
#[verifier::reject_recursive_types(T)]
pub struct ExNonEmpty<T>(NonEmpty<T>);

/// The steps that a non-empty list of steps holds, in order.
pub uninterp spec fn step_list(steps: NonEmpty<StepType>) -> Seq<StepType>;

/// `NonEmpty::new`: the list that holds `head` and nothing else.
#[verifier::external_body]
fn nonempty_new(head: StepType) -> (steps: NonEmpty<StepType>)
    ensures
        step_list(steps) == seq![head],
{
    NonEmpty::new(head)
}

/// `NonEmpty::push`: `step_type` is added at the end of the list.
#[verifier::external_body]
fn nonempty_push(steps: &mut NonEmpty<StepType>, step_type: StepType)
    ensures
        step_list(*final(steps)) == step_list(*old(steps)).push(step_type),
{
    steps.push(step_type)
}

/// `Vec::from` for a `NonEmpty`: the vector holds the list's items in the
/// list's order.
#[verifier::external_body]
pub(crate) fn nonempty_into_vec(steps: NonEmpty<StepType>) -> (vec: Vec<StepType>)
    ensures
        vec@ == step_list(steps),
{
    Vec::from(steps)
}

/// The view of an instruction that may be missing.
pub open spec fn flat_view(flat: Option<&Flat>) -> Option<FlatView> {
    match flat {
        Some(f) => Some(f@),
        None => None,
    }
}

/// The character behind a reference that may be missing.
pub open spec fn char_view(text: Option<&char>) -> Option<char> {
    match text {
        Some(c) => Some(*c),
        None => None,
    }
}

impl NodeType {
    /// The kind of the place with the instruction `opt_flat` and the
    /// character `opt_text`; none where both are missing.
    pub fn get(opt_flat: Option<&Flat>, opt_text: Option<&char>, ix: &Ix) -> (node_type: Option<
        Self,
    >)
        ensures
            node_type == node_type_of(flat_view(opt_flat), char_view(opt_text), ix.rep_off == 0),
    {
        match opt_flat {
            None => match opt_text {
                None => None,
                Some(_) => Some(NodeType::FinishedPattern),
            },
            Some(flat) => Some(
                match flat {
                    Flat::Lit(c) => match opt_text {
                        Some(t) => if *t == *c {
                            NodeType::Hit
                        } else {
                            NodeType::NoHit
                        },
                        None => NodeType::FinishedText,
                    },
                    Flat::Class(class) => match opt_text {
                        Some(t) => if class.matches(*t) {
                            NodeType::Hit
                        } else {
                            NodeType::NoHit
                        },
                        None => NodeType::FinishedText,
                    },
                    Flat::GroupStart => NodeType::StartGroup(opt_text.is_some()),
                    Flat::GroupEnd => NodeType::EndGroup(opt_text.is_some()),
                    Flat::AlternativeLeft(off) => NodeType::AlternativeLeft(
                        *off,
                        opt_text.is_some(),
                    ),
                    Flat::AlternativeRight(off) => NodeType::AlternativeRight(
                        *off,
                        opt_text.is_some(),
                    ),
                    Flat::RepetitionStart(off) => NodeType::RepetitionStart(
                        *off,
                        opt_text.is_some(),
                    ),
                    Flat::RepetitionEnd(off) => if ix.can_restart() {
                        NodeType::RepetitionRestart(*off, opt_text.is_some())
                    } else {
                        NodeType::RepetitionEnd(opt_text.is_some())
                    },
                },
            ),
        }
    }

    /// The steps that lead on from a place of this kind, in the order in
    /// which they are tried.
    pub fn step_types(&self) -> (steps: NonEmpty<StepType>)
        ensures
            step_list(steps) == step_types_of(*self),
    {
        match self {
            Self::FinishedPattern => nonempty_new(StepType::SkipText),
            Self::FinishedText => nonempty_new(StepType::SkipPattern),
            Self::Hit => {
                let mut steps = nonempty_new(StepType::Hit);
                nonempty_push(&mut steps, StepType::SkipPattern);
                nonempty_push(&mut steps, StepType::SkipText);
                assert(step_list(steps) =~= step_types_of(*self));
                steps
            },
            Self::NoHit => {
                let mut steps = nonempty_new(StepType::SkipPattern);
                nonempty_push(&mut steps, StepType::SkipText);
                assert(step_list(steps) =~= step_types_of(*self));
                steps
            },
            Self::StartGroup(text_left) => Self::one_step(*text_left, StepType::StartGroup),
            Self::EndGroup(text_left) => Self::one_step(*text_left, StepType::EndGroup),
            Self::AlternativeLeft(off, text_left) => {
                let mut steps = Self::one_step(*text_left, StepType::StartLeft);
                nonempty_push(&mut steps, StepType::StartRight(*off));
                assert(step_list(steps) =~= step_types_of(*self));
                steps
            },
            Self::AlternativeRight(off, text_left) => Self::one_step(
                *text_left,
                StepType::PassRight(*off),
            ),
            Self::RepetitionStart(off, text_left) => {
                let mut steps = Self::one_step(*text_left, StepType::StartRepetition);
                nonempty_push(&mut steps, StepType::PassRepetition(*off));
                assert(step_list(steps) =~= step_types_of(*self));
                steps
            },
            Self::RepetitionRestart(off, text_left) => Self::one_step(
                *text_left,
                StepType::RestartRepetition(*off),
            ),
            Self::RepetitionEnd(text_left) => Self::one_step(*text_left, StepType::EndRepetition),
        }
    }

    /// The list that holds `step_type`, after the step over a character of
    /// the text where text is left.
    fn one_step(text_left: bool, step_type: StepType) -> (steps: NonEmpty<StepType>)
        ensures
            step_list(steps) == or_skip_text(text_left, seq![step_type]),
    {
        if text_left {
            let mut steps = nonempty_new(StepType::SkipText);
            nonempty_push(&mut steps, step_type);
            assert(step_list(steps) =~= or_skip_text(text_left, seq![step_type]));
            steps
        } else {
            nonempty_new(step_type)
        }
    }
}

} // verus!
