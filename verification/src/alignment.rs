//! Alignments of a pattern with a text, told on the pattern itself: which
//! literals and classes lie on a way through the pattern, and what makes a
//! trace an alignment.
//!
//! The trace that a solver gives is an alignment of this kind (module
//! [`shape`](crate::shape)), and no alignment of this kind passes over fewer
//! characters (module [`least`](crate::least)).

use vstd::prelude::*;
use crate::{class_matches, CoreElementView, MatchView, Step};
use crate::config::{lattice_of, lemma_lattice_wf};
use crate::error::Error;
use crate::flat_pattern::flatten_elements;
use crate::lattice_solution::solved;
use crate::least::lemma_no_cheaper_alignment;
use crate::optimum::{trace_matches, trace_skips, trace_text};
use crate::shape::lemma_walk_aligns;

verus! {

/// Whether the literal or class `m` accepts the character `c`.
pub open spec fn accepts(m: MatchView, c: char) -> bool {
    match m {
        MatchView::Lit(l) => l == c,
        MatchView::Class(ranges) => class_matches(ranges, c),
    }
}

/// Whether `ms` are the literals and classes on one way through `e`: the
/// literal or class itself, a way through the body of a capture, a way
/// through one of the two branches of an alternative, or any number of ways
/// through the body of a repetition, one after the other.
pub open spec fn way_of_element(e: CoreElementView, ms: Seq<MatchView>) -> bool
    decreases e,
{
    match e {
        CoreElementView::Match(m) => ms == seq![m],
        CoreElementView::Capture(p) => way_of(p, ms),
        CoreElementView::Alternative(p, q) => way_of(p, ms) || way_of(q, ms),
        CoreElementView::Repetition(p) => exists|rounds: Seq<Seq<MatchView>>|
            #[trigger] rounds.flatten() == ms && rounds_of(p, rounds),
    }
}

/// Whether each of `rounds` holds the literals and classes on one way
/// through `p`.
pub open spec fn rounds_of(p: Seq<CoreElementView>, rounds: Seq<Seq<MatchView>>) -> bool
    decreases p, 1nat,
{
    forall|i: int| 0 <= i < rounds.len() ==> way_of(p, #[trigger] rounds[i])
}

/// Whether `ms` are the literals and classes on one way through the
/// elements of `s`: a way through each element, in order.
pub open spec fn way_of(s: Seq<CoreElementView>, ms: Seq<MatchView>) -> bool
    decreases s, 0nat,
{
    if s.len() == 0 {
        ms.len() == 0
    } else {
        exists|n: int|
            0 <= n <= ms.len() && way_of(s.drop_last(), #[trigger] ms.subrange(0, n))
                && way_of_element(s.last(), ms.subrange(n, ms.len() as int))
    }
}

/// Whether every hit of the trace is one: what the pattern asks there
/// accepts the character of the text.
pub open spec fn hits_real(trace: Seq<Step<MatchView, char>>) -> bool {
    forall|i: int|
        0 <= i < trace.len() ==> (#[trigger] trace[i] matches Step::Hit(m, c) ==> accepts(m, c))
}

/// By how much the step changes the number of captures that are open.
pub open spec fn mark_rise(step: Step<MatchView, char>) -> int {
    match step {
        Step::StartCapture => 1,
        Step::StopCapture => -1,
        _ => 0,
    }
}

/// By how much the trace changes the number of captures that are open: its
/// marks of a capture's start, less its marks of a capture's end.
pub open spec fn rise(trace: Seq<Step<MatchView, char>>) -> int
    decreases trace.len(),
{
    if trace.len() == 0 {
        0
    } else {
        mark_rise(trace[0]) + rise(trace.drop_first())
    }
}

/// The lowest that the number of open captures gets within the trace,
/// counted from 0 at its start: below 0 where the trace holds the mark of a
/// capture's end without the mark of its start before it.
pub open spec fn dip(trace: Seq<Step<MatchView, char>>) -> int
    decreases trace.len(),
{
    if trace.len() == 0 {
        0
    } else if mark_rise(trace[0]) + dip(trace.drop_first()) < 0 {
        mark_rise(trace[0]) + dip(trace.drop_first())
    } else {
        0
    }
}

/// Whether the marks of captures in the trace are balanced: every mark of
/// an end closes a capture that a mark before it has opened, and every
/// capture that is opened is closed.
pub open spec fn marks_balanced(trace: Seq<Step<MatchView, char>>) -> bool {
    rise(trace) == 0 && dip(trace) == 0
}

/// Whether `trace` is an alignment of `pattern` with `text`: it holds the
/// characters of the text, each once and in order; what it holds of the
/// pattern are the literals and classes on one way through the pattern; and
/// each of its hits is one.
pub open spec fn aligns(
    pattern: Seq<CoreElementView>,
    text: Seq<char>,
    trace: Seq<Step<MatchView, char>>,
) -> bool {
    &&& trace_text(trace) == text
    &&& way_of(pattern, trace_matches(trace))
    &&& hits_real(trace)
}

/// What a trace holds of the text, of the pattern and of skipped characters
/// is what its first part holds, followed by what the rest holds.
pub proof fn lemma_trace_add(a: Seq<Step<MatchView, char>>, b: Seq<Step<MatchView, char>>)
    ensures
        trace_text(a + b) == trace_text(a) + trace_text(b),
        trace_matches(a + b) == trace_matches(a) + trace_matches(b),
        trace_skips(a + b) == trace_skips(a) + trace_skips(b),
        hits_real(a + b) <==> hits_real(a) && hits_real(b),
    decreases a.len(),
{
    if a.len() == 0 {
        assert(a + b =~= b);
        assert(trace_text(a) + trace_text(b) =~= trace_text(b));
        assert(trace_matches(a) + trace_matches(b) =~= trace_matches(b));
    } else {
        lemma_trace_add(a.drop_first(), b);
        assert((a + b).drop_first() =~= a.drop_first() + b);
        assert(trace_text(a + b) =~= trace_text(a) + trace_text(b));
        assert(trace_matches(a + b) =~= trace_matches(a) + trace_matches(b));
    }
    if hits_real(a + b) {
        assert forall|i: int| 0 <= i < a.len() implies (#[trigger] a[i] matches Step::Hit(m, c)
            ==> accepts(m, c)) by {
            assert(a[i] == (a + b)[i]);
        }
        assert forall|i: int| 0 <= i < b.len() implies (#[trigger] b[i] matches Step::Hit(m, c)
            ==> accepts(m, c)) by {
            assert(b[i] == (a + b)[a.len() + i]);
        }
    }
}

/// How the marks of captures in a trace follow from those of its first
/// part and of the rest.
pub proof fn lemma_marks_add(a: Seq<Step<MatchView, char>>, b: Seq<Step<MatchView, char>>)
    ensures
        rise(a + b) == rise(a) + rise(b),
        dip(a + b) == (if dip(a) <= rise(a) + dip(b) {
            dip(a)
        } else {
            rise(a) + dip(b)
        }),
        dip(a) <= 0,
        dip(b) <= 0,
    decreases a.len(),
{
    if a.len() == 0 {
        assert(a + b =~= b);
    } else {
        lemma_marks_add(a.drop_first(), b);
        assert((a + b).drop_first() =~= a.drop_first() + b);
    }
}

/// What a trace of one step holds.
pub proof fn lemma_trace_one(step: Step<MatchView, char>)
    ensures
        trace_matches(seq![step]) == (match step {
            Step::Hit(m, _) => seq![m],
            Step::SkipPattern(m) => seq![m],
            _ => Seq::empty(),
        }),
        rise(seq![step]) == mark_rise(step),
        dip(seq![step]) == (if step is StopCapture {
            -1int
        } else {
            0
        }),
{
    let one = seq![step];
    assert(one.drop_first() =~= Seq::<Step<MatchView, char>>::empty());
    assert(trace_matches(one.drop_first()) =~= Seq::<MatchView>::empty());
    assert(rise(one.drop_first()) == 0);
    assert(dip(one.drop_first()) == 0);
    assert(trace_matches(one) =~= (match step {
        Step::Hit(m, _) => seq![m],
        Step::SkipPattern(m) => seq![m],
        _ => Seq::empty(),
    }));
}

/// A trace can be cut where what it holds of the pattern is cut.
pub(crate) proof fn lemma_split(
    trace: Seq<Step<MatchView, char>>,
    first: Seq<MatchView>,
    rest: Seq<MatchView>,
) -> (parts: (Seq<Step<MatchView, char>>, Seq<Step<MatchView, char>>))
    requires
        trace_matches(trace) == first + rest,
    ensures
        parts.0 + parts.1 == trace,
        trace_matches(parts.0) == first,
        trace_matches(parts.1) == rest,
    decreases trace.len(),
{
    if first.len() == 0 {
        assert(first + rest =~= rest);
        assert(Seq::<Step<MatchView, char>>::empty() + trace =~= trace);
        (Seq::empty(), trace)
    } else {
        assert((first + rest).len() > 0);
        let step = seq![trace[0]];
        let after = trace.drop_first();
        assert(trace =~= step + after);
        assert(step.drop_first() =~= Seq::<Step<MatchView, char>>::empty());
        assert(trace_matches(step.drop_first()) =~= Seq::<MatchView>::empty());
        lemma_trace_add(step, after);
        let parts = if trace_matches(step).len() == 0 {
            assert(trace_matches(step) + trace_matches(after) =~= trace_matches(after));
            lemma_split(after, first, rest)
        } else {
            assert(trace_matches(step).len() == 1);
            assert(trace_matches(trace) == trace_matches(step) + trace_matches(after));
            assert(trace_matches(step) =~= seq![(first + rest)[0]]);
            assert(trace_matches(after) =~= (first + rest).drop_first());
            assert(trace_matches(after) =~= first.drop_first() + rest);
            assert(first =~= seq![first[0]] + first.drop_first());
            lemma_split(after, first.drop_first(), rest)
        };
        lemma_trace_add(step, parts.0);
        assert(step + parts.0 + parts.1 =~= step + (parts.0 + parts.1));
        assert(trace_matches(step + parts.0) =~= first);
        (step + parts.0, parts.1)
    }
}

/// Whether `trace` is an alignment of `pattern` with `text` that passes
/// over `score` characters, with the marks of its captures balanced, and no
/// alignment of `pattern` with `text` passes over fewer.
pub open spec fn best_of_alignments(
    pattern: Seq<CoreElementView>,
    text: Seq<char>,
    score: usize,
    trace: Seq<Step<MatchView, char>>,
) -> bool {
    &&& aligns(pattern, text, trace)
    &&& marks_balanced(trace)
    &&& score == trace_skips(trace)
    &&& forall|other: Seq<Step<MatchView, char>>| #[trigger]
        aligns(pattern, text, other) ==> score <= trace_skips(other)
}

/// The score and the trace that a solver owes for a pattern and a text are
/// those of an alignment of the pattern with the text, in which the marks of
/// captures are balanced, and no alignment of the two passes over fewer
/// characters.
pub proof fn lemma_best_of_alignments(
    pattern: Seq<CoreElementView>,
    text: Seq<char>,
    score: usize,
    trace: Seq<Step<MatchView, char>>,
)
    requires
        flatten_elements(pattern, 1, 1).len() + text.len() + 1 <= usize::MAX,
        solved(lattice_of(pattern, text), Ok::<_, Error>((score, trace))),
    ensures
        best_of_alignments(pattern, text, score, trace),
{
    let lat = lattice_of(pattern, text);
    lemma_lattice_wf(pattern, text);
    let start = lat.start();
    lat.lemma_end(start);
    lat.lemma_opt_walk(start);
    lat.lemma_walk_skips(start, lat.opt_steps(start));
    lemma_walk_aligns(pattern, text, lat.opt_steps(start));
    assert forall|other: Seq<Step<MatchView, char>>| #[trigger]
        aligns(pattern, text, other) implies score <= trace_skips(other) by {
        lemma_no_cheaper_alignment(pattern, text, other);
    }
}

} // verus!
