//! The pattern as a flat list of instructions.
//!
//! A position in the list is a single number, and an instruction that opens
//! or closes an alternative or a repetition holds the distance to its
//! partner. Inside repetitions the instructions are written more than once, so
//! that the solver has a position of its own for every repetition depth at
//! which it may stand on an instruction.

use vstd::prelude::*;
use crate::{Class, ClassRange, CoreElementView, ElementCore, Match, MatchView, Pattern};

verus! {

/// One instruction of a [`FlatPattern`].
#[derive(PartialEq, Eq, Debug)]
pub enum Flat {
    /// Matches this very character.
    Lit(char),
    /// Matches any character of the class.
    Class(Class),
    GroupStart,
    GroupEnd,
    /// Opens the first branch of an alternative. Holds the distance to the
    /// matching [`Flat::AlternativeRight`].
    AlternativeLeft(usize),
    /// Opens the second branch of an alternative. Holds the distance to the
    /// first instruction after the alternative.
    AlternativeRight(usize),
    /// Opens a repetition. Holds the distance to the matching
    /// [`Flat::RepetitionEnd`].
    RepetitionStart(usize),
    /// Closes a repetition. Holds the distance back to the matching
    /// [`Flat::RepetitionStart`].
    RepetitionEnd(usize),
}

/// The view of a [`Flat`].
pub enum FlatView {
    Lit(char),
    Class(Seq<ClassRange>),
    GroupStart,
    GroupEnd,
    AlternativeLeft(nat),
    AlternativeRight(nat),
    RepetitionStart(nat),
    RepetitionEnd(nat),
}

impl View for Flat {
    type V = FlatView;

    open spec fn view(&self) -> FlatView {
        match self {
            Flat::Lit(c) => FlatView::Lit(*c),
            Flat::Class(class) => FlatView::Class(class@),
            Flat::GroupStart => FlatView::GroupStart,
            Flat::GroupEnd => FlatView::GroupEnd,
            Flat::AlternativeLeft(off) => FlatView::AlternativeLeft(*off as nat),
            Flat::AlternativeRight(off) => FlatView::AlternativeRight(*off as nat),
            Flat::RepetitionStart(off) => FlatView::RepetitionStart(*off as nat),
            Flat::RepetitionEnd(off) => FlatView::RepetitionEnd(*off as nat),
        }
    }
}

impl Clone for Flat {
    fn clone(&self) -> (flat: Self)
        ensures
            flat@ == self@,
    {
        match self {
            Flat::Lit(c) => Flat::Lit(*c),
            Flat::Class(class) => Flat::Class(class.clone()),
            Flat::GroupStart => Flat::GroupStart,
            Flat::GroupEnd => Flat::GroupEnd,
            Flat::AlternativeLeft(off) => Flat::AlternativeLeft(*off),
            Flat::AlternativeRight(off) => Flat::AlternativeRight(*off),
            Flat::RepetitionStart(off) => Flat::RepetitionStart(*off),
            Flat::RepetitionEnd(off) => Flat::RepetitionEnd(*off),
        }
    }
}

/// The views of the instructions of `s`, in order.
pub open spec fn flat_views(s: Seq<Flat>) -> Seq<FlatView> {
    Seq::new(s.len(), |i: int| s[i]@)
}

/// `k` times the value `a`.
pub open spec fn copies<A>(a: A, k: nat) -> Seq<A> {
    Seq::new(k, |i: int| a)
}

/// The instruction that matches what `m` matches.
pub open spec fn flat_match(m: MatchView) -> FlatView {
    match m {
        MatchView::Lit(c) => FlatView::Lit(c),
        MatchView::Class(ranges) => FlatView::Class(ranges),
    }
}

/// The instructions for `e`, each written `reps` times, and `reps + rep_incr`
/// times inside a repetition that `e` opens.
///
/// A capture is bracketed by `GroupStart` and `GroupEnd`. A repetition is
/// bracketed by `RepetitionStart` and `RepetitionEnd`, both holding the
/// distance from the first copy of the one to the first copy of the other. An
/// alternative is `AlternativeLeft`, the first branch, `AlternativeRight`, the
/// second branch; the first holds the distance to the second, the second the
/// distance to what follows the alternative.
pub open spec fn flatten_element(e: CoreElementView, reps: nat, rep_incr: nat) -> Seq<FlatView>
    decreases e,
{
    match e {
        CoreElementView::Match(m) => copies(flat_match(m), reps),
        CoreElementView::Capture(p) => copies(FlatView::GroupStart, reps) + flatten_elements(
            p,
            reps,
            rep_incr,
        ) + copies(FlatView::GroupEnd, reps),
        CoreElementView::Repetition(p) => {
            let body = flatten_elements(p, reps + rep_incr, rep_incr);
            let off = reps + body.len();
            copies(FlatView::RepetitionStart(off), reps) + body + copies(
                FlatView::RepetitionEnd(off),
                reps + rep_incr,
            )
        },
        CoreElementView::Alternative(p, q) => {
            let left = flatten_elements(p, reps, rep_incr);
            let right = flatten_elements(q, reps, rep_incr);
            copies(FlatView::AlternativeLeft(reps + left.len()), reps) + left + copies(
                FlatView::AlternativeRight(reps + right.len()),
                reps,
            ) + right
        },
    }
}

/// The instructions for the elements of `s`, in order.
pub open spec fn flatten_elements(s: Seq<CoreElementView>, reps: nat, rep_incr: nat) -> Seq<FlatView>
    decreases s,
{
    if s.len() == 0 {
        Seq::empty()
    } else {
        flatten_elements(s.drop_last(), reps, rep_incr) + flatten_element(s.last(), reps, rep_incr)
    }
}

/// A flat form of a [`Pattern`], in which a position is a single number.
pub struct FlatPattern {
    elems: Vec<Flat>,
}

impl View for FlatPattern {
    type V = Seq<FlatView>;

    closed spec fn view(&self) -> Seq<FlatView> {
        flat_views(self.elems@)
    }
}

proof fn lemma_flatten_next(s: Seq<CoreElementView>, i: int, reps: nat, rep_incr: nat)
    requires
        0 <= i < s.len(),
    ensures
        flatten_elements(s.take(i + 1), reps, rep_incr) == flatten_elements(
            s.take(i),
            reps,
            rep_incr,
        ) + flatten_element(s[i], reps, rep_incr),
{
    assert(s.take(i + 1).drop_last() =~= s.take(i));
}

impl FlatPattern {
    /// The instruction at position `i`, if there is one.
    pub fn get(&self, i: usize) -> (flat: Option<&Flat>)
        ensures
            match flat {
                Some(f) => i < self@.len() && f@ == self@[i as int],
                None => i >= self@.len(),
            },
    {
        if i < self.elems.len() {
            Some(&self.elems[i])
        } else {
            None
        }
    }

    /// The number of instructions.
    pub fn len(&self) -> (n: usize)
        ensures
            n == self@.len(),
    {
        self.elems.len()
    }

    /// The flat form in which every instruction is written once.
    pub fn new(pattern: &Pattern<ElementCore>) -> (flat: Self)
        ensures
            flat@ == flatten_elements(pattern@, 1, 0),
    {
        Self::custom(pattern, 0)
    }

    /// The flat form in which an instruction is written once, and
    /// `rep_incr` more times for each repetition around it.
    ///
    /// With `rep_incr` 1, and `<` and `>` for the two ends of a repetition,
    /// the pattern `a<b<c>>d` becomes `a<bb<<ccc>>>>>d`: the distance held
    /// by the two outer ends grows from 5 to 11.
    pub fn custom(pattern: &Pattern<ElementCore>, rep_incr: usize) -> (flat: Self)
        requires
            rep_incr <= 1,
        ensures
            flat@ == flatten_elements(pattern@, 1, rep_incr as nat),
    {
        let mut elems: Vec<Flat> = Vec::new();
        Self::pattern_patts(&mut elems, pattern, 1, rep_incr);
        assert(flat_views(elems@) =~= flatten_elements(pattern@, 1, rep_incr as nat));
        FlatPattern { elems }
    }

    /// Appends the instructions for `pattern`.
    fn pattern_patts(
        result: &mut Vec<Flat>,
        pattern: &Pattern<ElementCore>,
        reps: usize,
        rep_incr: usize,
    )
        requires
            1 <= reps <= old(result)@.len() + 1,
            rep_incr <= 1,
        ensures
            flat_views(final(result)@) == flat_views(old(result)@) + flatten_elements(
                pattern@,
                reps as nat,
                rep_incr as nat,
            ),
            final(result)@.len() == old(result)@.len() + flatten_elements(
                pattern@,
                reps as nat,
                rep_incr as nat,
            ).len(),
        decreases pattern, 1nat,
    {
        let ghost before = flat_views(result@);
        let mut i: usize = 0;
        while i < pattern.elems.len()
            invariant
                i <= pattern.elems.len(),
                1 <= reps <= result@.len() + 1,
                rep_incr <= 1,
                flat_views(result@) == before + flatten_elements(
                    pattern@.take(i as int),
                    reps as nat,
                    rep_incr as nat,
                ),
            decreases pattern.elems.len() - i,
        {
            let ghost sofar = flatten_elements(
                pattern@.take(i as int),
                reps as nat,
                rep_incr as nat,
            );
            Self::elem_patts(result, &pattern.elems[i], reps, rep_incr);
            proof {
                lemma_flatten_next(pattern@, i as int, reps as nat, rep_incr as nat);
                let next = flatten_element(pattern@[i as int], reps as nat, rep_incr as nat);
                assert(before + sofar + next =~= before + (sofar + next));
            }
            i += 1;
        }
        assert(pattern@.take(pattern.elems.len() as int) =~= pattern@);
        assert(flat_views(result@).len() == result@.len());
        assert(before.len() == old(result)@.len());
    }

    /// Appends the instructions for `elem`.
    ///
    /// The two ends of an alternative or a repetition are first written with
    /// the distance 0, and set right once the place of the partner is known.
    fn elem_patts(result: &mut Vec<Flat>, elem: &ElementCore, reps: usize, rep_incr: usize)
        requires
            1 <= reps <= old(result)@.len() + 1,
            rep_incr <= 1,
        ensures
            flat_views(final(result)@) == flat_views(old(result)@) + flatten_element(
                elem@,
                reps as nat,
                rep_incr as nat,
            ),
            final(result)@.len() == old(result)@.len() + flatten_element(
                elem@,
                reps as nat,
                rep_incr as nat,
            ).len(),
        decreases elem, 0nat,
    {
        let ghost before = flat_views(result@);
        match elem {
            ElementCore::Match(Match::Lit(c)) => {
                Self::single_patt(result, Flat::Lit(*c), reps);
            },
            ElementCore::Match(Match::Class(class)) => {
                Self::single_patt(result, Flat::Class(class.clone()), reps);
            },
            ElementCore::Capture(inner) => {
                Self::single_patt(result, Flat::GroupStart, reps);
                Self::pattern_patts(result, inner, reps, rep_incr);
                Self::single_patt(result, Flat::GroupEnd, reps);
            },
            ElementCore::Repetition(inner) => {
                let start_ix = result.len();
                Self::single_patt(result, Flat::RepetitionStart(0), reps);
                assert(result.len() <= usize::MAX);
                let next_reps = reps + rep_incr;
                Self::pattern_patts(result, inner, next_reps, rep_incr);
                let end_ix = result.len();
                Self::single_patt(result, Flat::RepetitionEnd(0), next_reps);

                let ghost written = result@;
                let off = end_ix - start_ix;
                Self::update_patt(result, Flat::RepetitionStart(off), start_ix, reps);
                let ghost patched = result@;
                Self::update_patt(result, Flat::RepetitionEnd(off), end_ix, next_reps);
                proof {
                    let target = before + flatten_element(elem@, reps as nat, rep_incr as nat);
                    assert(flat_views(result@).len() == target.len());
                    assert forall|j: int| 0 <= j < target.len() implies flat_views(result@)[j]
                        == target[j] by {
                        assert(flat_views(written)[j] == written[j]@);
                        assert(patched[j]@ == if start_ix <= j < start_ix + reps {
                            FlatView::RepetitionStart(off as nat)
                        } else {
                            written[j]@
                        });
                    }
                    assert(flat_views(result@) =~= target);
                }
            },
            ElementCore::Alternative(first, second) => {
                let left_ix = result.len();
                Self::single_patt(result, Flat::AlternativeLeft(0), reps);
                Self::pattern_patts(result, first, reps, rep_incr);
                let right_ix = result.len();
                Self::single_patt(result, Flat::AlternativeRight(0), reps);
                Self::pattern_patts(result, second, reps, rep_incr);
                let next_ix = result.len();

                let ghost written = result@;
                let left_off = right_ix - left_ix;
                let right_off = next_ix - right_ix;
                Self::update_patt(result, Flat::AlternativeLeft(left_off), left_ix, reps);
                let ghost patched = result@;
                Self::update_patt(result, Flat::AlternativeRight(right_off), right_ix, reps);
                proof {
                    let target = before + flatten_element(elem@, reps as nat, rep_incr as nat);
                    assert(flat_views(result@).len() == target.len());
                    assert forall|j: int| 0 <= j < target.len() implies flat_views(result@)[j]
                        == target[j] by {
                        assert(flat_views(written)[j] == written[j]@);
                        assert(patched[j]@ == if left_ix <= j < left_ix + reps {
                            FlatView::AlternativeLeft(left_off as nat)
                        } else {
                            written[j]@
                        });
                    }
                    assert(flat_views(result@) =~= target);
                }
            },
        }
    }

    /// Appends `reps` copies of `elem`.
    fn single_patt(result: &mut Vec<Flat>, elem: Flat, reps: usize)
        ensures
            flat_views(final(result)@) == flat_views(old(result)@) + copies(elem@, reps as nat),
            final(result)@.len() == old(result)@.len() + reps,
    {
        let mut i: usize = 0;
        while i < reps
            invariant
                i <= reps,
                result@.len() == old(result)@.len() + i,
                forall|j: int| 0 <= j < old(result)@.len() ==> result@[j] == old(result)@[j],
                forall|j: int|
                    old(result)@.len() <= j < result@.len() ==> (#[trigger] result@[j])@ == elem@,
            decreases reps - i,
        {
            let copy = elem.clone();
            result.push(copy);
            i += 1;
        }
        assert(flat_views(result@) =~= flat_views(old(result)@) + copies(elem@, reps as nat));
    }

    /// Writes `elem` over the `reps` instructions from position `ix` on.
    fn update_patt(result: &mut Vec<Flat>, elem: Flat, ix: usize, reps: usize)
        requires
            ix + reps <= old(result)@.len(),
        ensures
            final(result)@.len() == old(result)@.len(),
            forall|j: int|
                0 <= j < old(result)@.len() ==> (#[trigger] final(result)@[j])@ == (if ix <= j < ix
                    + reps {
                    elem@
                } else {
                    old(result)@[j]@
                }),
    {
        let len = result.len();
        let mut i: usize = 0;
        while i < reps
            invariant
                i <= reps,
                ix + reps <= len,
                result@.len() == len,
                len == old(result)@.len(),
                forall|j: int|
                    0 <= j < result@.len() ==> (#[trigger] result@[j])@ == (if ix <= j < ix + i {
                        elem@
                    } else {
                        old(result)@[j]@
                    }),
            decreases reps - i,
        {
            result[ix + i] = elem.clone();
            i += 1;
        }
    }
}

} // verus!
