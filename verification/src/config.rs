//! The pattern and the text of a problem, made ready for the solver.

use vstd::prelude::*;
use crate::{Atoms, CoreElementView, ElementCore, Pattern};
use crate::flat_pattern::{flatten_elements, Flat, FlatPattern};
use crate::lattice::{char_view, flat_view, step_fits, step_spec, Ix, Lattice, StepType};
use crate::layout::{layout_elements, lemma_layout_elements, Slot};

verus! {

/// The lattice of `pattern` and `text`: the pattern flattened with one more
/// copy of an instruction for each repetition around it.
pub open spec fn lattice_of(pattern: Seq<CoreElementView>, text: Seq<char>) -> Lattice {
    Lattice { flat: flatten_elements(pattern, 1, 1), lay: layout_elements(pattern, 1), text }
}

/// The lattice of a pattern and a text is sound, where text and flat pattern
/// together fit the machine's numbers.
pub proof fn lemma_lattice_wf(pattern: Seq<CoreElementView>, text: Seq<char>)
    requires
        flatten_elements(pattern, 1, 1).len() + text.len() + 1 <= usize::MAX,
    ensures
        lattice_of(pattern, text).wf(),
{
    lemma_layout_elements(pattern, 1);
}

/// The pattern and the text of a problem, as the solver reads them.
pub struct Config {
    text: Vec<char>,
    pattern: FlatPattern,
    layout: Ghost<Seq<Slot>>,
}

impl View for Config {
    type V = Lattice;

    closed spec fn view(&self) -> Lattice {
        Lattice { flat: self.pattern@, lay: self.layout@, text: self.text@ }
    }
}

/// What the solver reads of a problem: the lattice of its pattern and its
/// text, the instruction and the character at an index, and the index that a
/// step leads to.
pub trait LatticeConfig: Sized {
    /// The lattice of the problem.
    spec fn lattice(&self) -> Lattice;

    fn new(pattern: &Pattern<ElementCore>, text: &Atoms) -> (conf: Self)
        ensures
            conf.lattice() == lattice_of(pattern@, text@),
    ;

    /// The instruction and the character at `ix`, each missing where the
    /// pattern, or the text, is finished there.
    fn get(&self, ix: Ix) -> (found: (Option<&Flat>, Option<&char>))
        ensures
            flat_view(found.0) == self.lattice().flat_at(ix),
            char_view(found.1) == self.lattice().text_at(ix),
    ;

    fn start(&self) -> (ix: Ix)
        ensures
            ix == self.lattice().start(),
    ;

    fn end(&self) -> (ix: Ix)
        ensures
            ix == self.lattice().end(),
    ;

    /// The index that `step_type` leads to from `ix`.
    fn step(&self, ix: Ix, step_type: StepType) -> (next: Ix)
        requires
            step_fits(ix, step_type),
        ensures
            next == step_spec(ix, step_type),
    ;
}

impl LatticeConfig for Config {
    open spec fn lattice(&self) -> Lattice {
        self@
    }

    fn new(pattern: &Pattern<ElementCore>, text: &Atoms) -> (conf: Self) {
        let layout = Ghost(layout_elements(pattern@, 1));
        let pattern = FlatPattern::custom(pattern, 1);
        let text = text.atoms.clone();
        Config { text, pattern, layout }
    }

    fn get(&self, ix: Ix) -> (found: (Option<&Flat>, Option<&char>)) {
        let text = if ix.text < self.text.len() {
            Some(&self.text[ix.text])
        } else {
            None
        };
        (self.pattern.get(ix.pattern), text)
    }

    fn start(&self) -> (ix: Ix) {
        Ix { text: 0, pattern: 0, reps: 1, rep_off: 0 }
    }

    fn end(&self) -> (ix: Ix) {
        Ix { text: self.text.len(), pattern: self.pattern.len(), reps: 1, rep_off: 0 }
    }

    fn step(&self, ix: Ix, step_type: StepType) -> (next: Ix) {
        match step_type {
            StepType::Hit => Ix {
                pattern: ix.pattern + ix.reps,
                text: ix.text + 1,
                rep_off: 0,
                ..ix
            },
            StepType::SkipText => Ix { text: ix.text + 1, rep_off: 0, ..ix },
            StepType::SkipPattern
            | StepType::StartGroup
            | StepType::EndGroup
            | StepType::StartLeft => Ix { pattern: ix.pattern + ix.reps, ..ix },
            StepType::StartRight(off) => Ix { pattern: ix.pattern + off + ix.reps, ..ix },
            StepType::PassRight(off) => Ix { pattern: ix.pattern + off, ..ix },
            StepType::StartRepetition => Ix {
                pattern: ix.pattern + ix.reps,
                reps: ix.reps + 1,
                rep_off: ix.rep_off + 1,
                ..ix
            },
            StepType::EndRepetition => Ix {
                pattern: ix.pattern + ix.reps,
                reps: ix.reps - 1,
                rep_off: ix.rep_off - 1,
                ..ix
            },
            StepType::PassRepetition(off) => Ix {
                pattern: ix.pattern + off + ix.reps + 1,
                ..ix
            },
            StepType::RestartRepetition(off) => Ix {
                pattern: ix.pattern - off,
                reps: ix.reps - 1,
                ..ix
            },
        }
    }
}

impl Config {
    /// The number of characters of the text.
    pub fn text_len(&self) -> (n: usize)
        ensures
            n == self@.text.len(),
    {
        self.text.len()
    }

    /// The number of instructions of the flat pattern.
    pub fn pattern_len(&self) -> (n: usize)
        ensures
            n == self@.flat.len(),
    {
        self.pattern.len()
    }
}

} // verus!
