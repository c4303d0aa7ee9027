//! No alignment of a pattern with a text passes over fewer characters than
//! the best score through their lattice: whatever way through the pattern an
//! alignment goes, steps through the lattice lead the same way, and cost no
//! more.

use vstd::prelude::*;
use crate::{CoreElementView, MatchView, Step};
use crate::alignment::{
    accepts,
    aligns,
    hits_real,
    lemma_split,
    lemma_trace_add,
    rounds_of,
    way_of,
    way_of_element,
};
use crate::config::{lattice_of, lemma_lattice_wf};
use crate::empty::{lemma_segment_index, lemma_segment_part, segment_at};
use crate::flat_pattern::{flatten_element, flatten_elements};
use crate::lattice::{step_cost, step_spec, Ix, Lattice};
use crate::layout::base_ok;
use crate::optimum::{trace_matches, trace_skips, trace_text};

verus! {

/// The index that lies `n` positions further in the pattern than `ix`, and
/// further in the text by the characters `text`.
spec fn moved(ix: Ix, n: int, text: Seq<char>) -> Ix {
    Ix {
        pattern: (ix.pattern + n) as usize,
        text: (ix.text + text.len()) as usize,
        reps: ix.reps,
        rep_off: if text.len() == 0 {
            ix.rep_off
        } else {
            0
        },
    }
}

/// Whether the characters that `trace` holds are those of the text from
/// `ix` on.
spec fn reads(lat: Lattice, ix: Ix, trace: Seq<Step<MatchView, char>>) -> bool {
    &&& ix.text + trace_text(trace).len() <= lat.text.len()
    &&& lat.text.subrange(ix.text as int, ix.text + trace_text(trace).len()) == trace_text(trace)
}

/// Where a trace reads the text from `ix` on, its first part does, and the
/// rest reads it from where the first part has led.
proof fn lemma_reads_parts(
    lat: Lattice,
    ix: Ix,
    a: Seq<Step<MatchView, char>>,
    b: Seq<Step<MatchView, char>>,
    n: int,
)
    requires
        reads(lat, ix, a + b),
        lat.text.len() <= usize::MAX,
    ensures
        reads(lat, ix, a),
        reads(lat, moved(ix, n, trace_text(a)), b),
        moved(moved(ix, n, trace_text(a)), 0, trace_text(b)) == moved(ix, n, trace_text(a + b)),
        trace_skips(a + b) == trace_skips(a) + trace_skips(b),
        trace_matches(a + b) == trace_matches(a) + trace_matches(b),
        hits_real(a + b) ==> hits_real(a) && hits_real(b),
{
    lemma_trace_add(a, b);
    let whole = trace_text(a + b);
    let i = ix.text as int;
    let ta = trace_text(a);
    let tb = trace_text(b);
    assert(lat.text.subrange(i, i + ta.len()) =~= ta) by {
        assert forall|k: int| 0 <= k < ta.len() implies lat.text[i + k] == ta[k] by {
            assert(lat.text.subrange(i, i + whole.len())[k] == whole[k]);
        }
    }
    assert(lat.text.subrange(i + ta.len(), i + ta.len() + tb.len()) =~= tb) by {
        assert forall|k: int| 0 <= k < tb.len() implies lat.text[i + ta.len() + k] == tb[k] by {
            assert(lat.text.subrange(i, i + whole.len())[ta.len() + k] == whole[ta.len() + k]);
        }
    }
}

/// Going on by one of the steps from `ix` is no better than the best.
proof fn lemma_take(lat: Lattice, ix: Ix, j: int)
    requires
        lat.wf(),
        lat.valid(ix),
        0 <= j < lat.steps(ix).len(),
    ensures
        lat.valid(step_spec(ix, lat.steps(ix)[j])),
        crate::lattice::step_fits(ix, lat.steps(ix)[j]),
        lat.opt(ix) <= step_cost(lat.steps(ix)[j]) + lat.opt(step_spec(ix, lat.steps(ix)[j])),
{
    lat.lemma_step(ix, j);
    lat.lemma_best_choice(ix, lat.steps(ix).len());
    assert(lat.opt(ix) <= lat.via(ix, j));
}

/// Where text is left, its character may be passed over.
proof fn lemma_skip_text(lat: Lattice, ix: Ix)
    requires
        lat.wf(),
        lat.valid(ix),
        ix.text < lat.text.len(),
    ensures
        lat.valid(moved(ix, 0, seq![lat.text[ix.text as int]])),
        lat.opt(ix) <= 1 + lat.opt(moved(ix, 0, seq![lat.text[ix.text as int]])),
{
    let steps = lat.steps(ix);
    let j: int = if steps[0] is SkipText {
        0
    } else if steps[1] is SkipText {
        1
    } else {
        2
    };
    assert(0 <= j < steps.len() && steps[j] is SkipText);
    lemma_take(lat, ix, j);
    assert(step_spec(ix, steps[j]) == moved(ix, 0, seq![lat.text[ix.text as int]]));
}

/// The place of the `k`th step over a mark of the pattern among the steps
/// from `ix`: behind the step over a character of the text, where text is
/// left.
spec fn mark_step(lat: Lattice, ix: Ix, k: int) -> int {
    if ix.text < lat.text.len() {
        k + 1
    } else {
        k
    }
}

/// A step over a mark of the pattern costs nothing.
proof fn lemma_mark(lat: Lattice, ix: Ix, k: int)
    requires
        lat.wf(),
        lat.valid(ix),
        ix.pattern < lat.flat.len(),
        !(lat.flat[ix.pattern as int] is Lit),
        !(lat.flat[ix.pattern as int] is Class),
        0 <= k,
        mark_step(lat, ix, k) < lat.steps(ix).len(),
    ensures
        lat.valid(step_spec(ix, lat.steps(ix)[mark_step(lat, ix, k)])),
        crate::lattice::step_fits(ix, lat.steps(ix)[mark_step(lat, ix, k)]),
        lat.opt(ix) <= lat.opt(step_spec(ix, lat.steps(ix)[mark_step(lat, ix, k)])),
{
    lemma_take(lat, ix, mark_step(lat, ix, k));
}

/// A trace that holds nothing of the pattern stays where it is in the
/// pattern, and passes over each character of the text that it holds.
proof fn lemma_loose(lat: Lattice, ix: Ix, trace: Seq<Step<MatchView, char>>)
    requires
        lat.wf(),
        lat.valid(ix),
        trace_matches(trace).len() == 0,
        reads(lat, ix, trace),
    ensures
        lat.valid(moved(ix, 0, trace_text(trace))),
        lat.opt(ix) <= trace_skips(trace) + lat.opt(moved(ix, 0, trace_text(trace))),
    decreases trace.len(),
{
    if trace.len() > 0 {
        let step = seq![trace[0]];
        let after = trace.drop_first();
        assert(trace =~= step + after);
        assert(step.drop_first() =~= Seq::<Step<MatchView, char>>::empty());
        lemma_reads_parts(lat, ix, step, after, 0);
        match trace[0] {
            Step::SkipText(c) => {
                assert(trace_text(step) =~= seq![c]);
                assert(lat.text.subrange(ix.text as int, ix.text + 1)[0] == c);
                lemma_skip_text(lat, ix);
                lemma_loose(lat, moved(ix, 0, trace_text(step)), after);
            },
            Step::StartCapture | Step::StopCapture => {
                assert(trace_text(step) =~= Seq::<char>::empty());
                assert(moved(ix, 0, trace_text(step)) == ix);
                lemma_loose(lat, ix, after);
            },
            _ => {
                assert(trace_matches(step).len() == 1);
            },
        }
    } else {
        assert(moved(ix, 0, trace_text(trace)) == ix);
    }
}

/// A trace that holds one literal or class of the pattern leads over it,
/// by a hit or by passing over it, and passes over each character of the
/// text that it holds besides.
proof fn lemma_way_match(lat: Lattice, m: MatchView, ix: Ix, trace: Seq<Step<MatchView, char>>)
    requires
        lat.wf(),
        lat.valid(ix),
        ix.pattern < lat.flat.len(),
        lat.flat[ix.pattern as int] == crate::flat_pattern::flat_match(m),
        trace_matches(trace) == seq![m],
        hits_real(trace),
        reads(lat, ix, trace),
    ensures
        lat.valid(moved(ix, ix.reps as int, trace_text(trace))),
        lat.opt(ix) <= trace_skips(trace) + lat.opt(moved(ix, ix.reps as int, trace_text(trace))),
    decreases trace.len(),
{
    assert(trace.len() > 0);
    let step = seq![trace[0]];
    let after = trace.drop_first();
    assert(trace =~= step + after);
    assert(step.drop_first() =~= Seq::<Step<MatchView, char>>::empty());
    lemma_reads_parts(lat, ix, step, after, 0);
    lemma_reads_parts(lat, ix, step, after, ix.reps as int);
    let steps = lat.steps(ix);
    match trace[0] {
        Step::SkipText(c) => {
            assert(trace_text(step) =~= seq![c]);
            assert(lat.text.subrange(ix.text as int, ix.text + 1)[0] == c);
            assert(trace_matches(step) + trace_matches(after) =~= trace_matches(after));
            lemma_skip_text(lat, ix);
            lemma_way_match(lat, m, moved(ix, 0, trace_text(step)), after);
        },
        Step::StartCapture | Step::StopCapture => {
            assert(trace_text(step) =~= Seq::<char>::empty());
            assert(trace_matches(step) + trace_matches(after) =~= trace_matches(after));
            assert(moved(ix, 0, trace_text(step)) == ix);
            lemma_way_match(lat, m, ix, after);
        },
        Step::Hit(asked, c) => {
            assert(trace_text(step) =~= seq![c]);
            assert(lat.text.subrange(ix.text as int, ix.text + 1)[0] == c);
            assert(trace_matches(step) =~= seq![asked]);
            assert((trace_matches(step) + trace_matches(after))[0] == m);
            assert(trace_matches(after).len() == 0);
            assert(trace[0] == (step + after)[0]);
            assert(accepts(m, c));
            assert(steps[0] is Hit);
            lemma_take(lat, ix, 0);
            let next = moved(ix, ix.reps as int, trace_text(step));
            assert(step_spec(ix, steps[0]) == next);
            lemma_loose(lat, next, after);
        },
        Step::SkipPattern(asked) => {
            assert(trace_text(step) =~= Seq::<char>::empty());
            assert(trace_matches(step) =~= seq![asked]);
            assert(trace_matches(after).len() == 0);
            let j: int = if steps[0] is SkipPattern {
                0
            } else {
                1
            };
            assert(0 <= j < steps.len() && steps[j] is SkipPattern);
            lemma_take(lat, ix, j);
            let next = moved(ix, ix.reps as int, trace_text(step));
            assert(step_spec(ix, steps[j]) == next);
            lemma_loose(lat, next, after);
        },
    }
}

/// Whether an alignment that holds `trace` gets from `ix` over `n`
/// positions of the pattern for no more than the skipped characters of
/// `trace`.
spec fn gets_over(lat: Lattice, ix: Ix, n: int, trace: Seq<Step<MatchView, char>>) -> bool {
    &&& lat.valid(moved(ix, n, trace_text(trace)))
    &&& lat.opt(ix) <= trace_skips(trace) + lat.opt(moved(ix, n, trace_text(trace)))
}

/// An alignment of the element `e`, whose instructions stand at `ix`, with
/// the text from `ix` on gets over these instructions for no more than the
/// characters that it skips.
proof fn lemma_way_element(
    lat: Lattice,
    e: CoreElementView,
    ix: Ix,
    trace: Seq<Step<MatchView, char>>,
)
    requires
        lat.wf(),
        lat.valid(ix),
        segment_at(lat, flatten_element(e, ix.reps as nat, 1), ix.pattern as int),
        way_of_element(e, trace_matches(trace)),
        hits_real(trace),
        reads(lat, ix, trace),
    ensures
        gets_over(lat, ix, flatten_element(e, ix.reps as nat, 1).len() as int, trace),
    decreases e, 0nat,
{
    match e {
        CoreElementView::Match(m) => {
            lemma_segment_index(lat, flatten_element(e, ix.reps as nat, 1), ix.pattern as int, 0);
            lemma_way_match(lat, m, ix, trace);
        },
        CoreElementView::Capture(p) => {
            lemma_way_capture(lat, p, ix, trace);
        },
        CoreElementView::Alternative(p, q) => {
            if way_of(p, trace_matches(trace)) {
                lemma_way_left(lat, p, q, ix, trace);
            } else {
                lemma_way_right(lat, p, q, ix, trace);
            }
        },
        CoreElementView::Repetition(p) => {
            let rounds = choose|rounds: Seq<Seq<MatchView>>|
                #[trigger] rounds.flatten() == trace_matches(trace) && rounds_of(p, rounds);
            lemma_rounds(lat, p, ix, rounds, trace);
        },
    }
}

/// An alignment of the body of a capture gets over the capture: the steps
/// over its two marks cost nothing.
proof fn lemma_way_capture(
    lat: Lattice,
    p: Seq<CoreElementView>,
    ix: Ix,
    trace: Seq<Step<MatchView, char>>,
)
    requires
        lat.wf(),
        lat.valid(ix),
        segment_at(
            lat,
            flatten_element(CoreElementView::Capture(p), ix.reps as nat, 1),
            ix.pattern as int,
        ),
        way_of(p, trace_matches(trace)),
        hits_real(trace),
        reads(lat, ix, trace),
    ensures
        gets_over(
            lat,
            ix,
            flatten_element(CoreElementView::Capture(p), ix.reps as nat, 1).len() as int,
            trace,
        ),
    decreases p, 1nat,
{
    let reps = ix.reps;
    let a = ix.pattern as int;
    let f = flatten_element(CoreElementView::Capture(p), reps as nat, 1);
    let body = flatten_elements(p, reps as nat, 1);
    lemma_segment_index(lat, f, a, 0);
    lemma_mark(lat, ix, 0);
    let inside = moved(ix, reps as int, Seq::empty());
    assert(step_spec(ix, lat.steps(ix)[mark_step(lat, ix, 0)]) == inside);
    assert(f.subrange(reps as int, reps + body.len()) =~= body);
    lemma_segment_part(lat, f, a, body, reps as int);
    lemma_way(lat, p, inside, trace);
    let close = moved(inside, body.len() as int, trace_text(trace));
    lemma_segment_index(lat, f, a, reps + body.len());
    lemma_mark(lat, close, 0);
    assert(step_spec(close, lat.steps(close)[mark_step(lat, close, 0)]) == moved(
        ix,
        f.len() as int,
        trace_text(trace),
    ));
}

/// An alignment of the first branch of an alternative gets over the
/// alternative: the steps into the branch and from its end to what follows
/// the alternative cost nothing.
proof fn lemma_way_left(
    lat: Lattice,
    p: Seq<CoreElementView>,
    q: Seq<CoreElementView>,
    ix: Ix,
    trace: Seq<Step<MatchView, char>>,
)
    requires
        lat.wf(),
        lat.valid(ix),
        segment_at(
            lat,
            flatten_element(CoreElementView::Alternative(p, q), ix.reps as nat, 1),
            ix.pattern as int,
        ),
        way_of(p, trace_matches(trace)),
        hits_real(trace),
        reads(lat, ix, trace),
    ensures
        gets_over(
            lat,
            ix,
            flatten_element(CoreElementView::Alternative(p, q), ix.reps as nat, 1).len() as int,
            trace,
        ),
    decreases p, 1nat,
{
    let reps = ix.reps;
    let a = ix.pattern as int;
    let f = flatten_element(CoreElementView::Alternative(p, q), reps as nat, 1);
    let left = flatten_elements(p, reps as nat, 1);
    let off = reps + left.len();
    lemma_segment_index(lat, f, a, 0);
    assert(base_ok(lat.flat, lat.lay, 1, a));
    lemma_mark(lat, ix, 0);
    let inside = moved(ix, reps as int, Seq::empty());
    assert(step_spec(ix, lat.steps(ix)[mark_step(lat, ix, 0)]) == inside);
    assert(f.subrange(reps as int, reps + left.len()) =~= left);
    lemma_segment_part(lat, f, a, left, reps as int);
    lemma_way(lat, p, inside, trace);
    let middle = moved(inside, left.len() as int, trace_text(trace));
    lemma_segment_index(lat, f, a, off as int);
    assert(base_ok(lat.flat, lat.lay, 1, a + off));
    lemma_mark(lat, middle, 0);
    assert(step_spec(middle, lat.steps(middle)[mark_step(lat, middle, 0)]) == moved(
        ix,
        f.len() as int,
        trace_text(trace),
    ));
}

/// An alignment of the second branch of an alternative gets over the
/// alternative: the step into the branch costs nothing.
proof fn lemma_way_right(
    lat: Lattice,
    p: Seq<CoreElementView>,
    q: Seq<CoreElementView>,
    ix: Ix,
    trace: Seq<Step<MatchView, char>>,
)
    requires
        lat.wf(),
        lat.valid(ix),
        segment_at(
            lat,
            flatten_element(CoreElementView::Alternative(p, q), ix.reps as nat, 1),
            ix.pattern as int,
        ),
        way_of(q, trace_matches(trace)),
        hits_real(trace),
        reads(lat, ix, trace),
    ensures
        gets_over(
            lat,
            ix,
            flatten_element(CoreElementView::Alternative(p, q), ix.reps as nat, 1).len() as int,
            trace,
        ),
    decreases q, 1nat,
{
    let reps = ix.reps;
    let a = ix.pattern as int;
    let f = flatten_element(CoreElementView::Alternative(p, q), reps as nat, 1);
    let left = flatten_elements(p, reps as nat, 1);
    let right = flatten_elements(q, reps as nat, 1);
    let off = reps + left.len();
    lemma_segment_index(lat, f, a, 0);
    assert(base_ok(lat.flat, lat.lay, 1, a));
    lemma_mark(lat, ix, 1);
    let inside = moved(ix, off + reps, Seq::empty());
    assert(step_spec(ix, lat.steps(ix)[mark_step(lat, ix, 1)]) == inside);
    assert(f.subrange(off + reps, off + reps + right.len()) =~= right);
    lemma_segment_part(lat, f, a, right, off + reps);
    lemma_way(lat, q, inside, trace);
    assert(moved(inside, right.len() as int, trace_text(trace)) == moved(
        ix,
        f.len() as int,
        trace_text(trace),
    ));
}

/// An alignment of some rounds of the repetition of `p`, whose
/// instructions stand at `ix`, with the text from `ix` on gets over these
/// instructions for no more than the characters that it skips: a round that
/// holds no character of the text is left out, and after every other round
/// the repetition begins again.
proof fn lemma_rounds(
    lat: Lattice,
    p: Seq<CoreElementView>,
    ix: Ix,
    rounds: Seq<Seq<MatchView>>,
    trace: Seq<Step<MatchView, char>>,
)
    requires
        lat.wf(),
        lat.valid(ix),
        segment_at(
            lat,
            flatten_element(CoreElementView::Repetition(p), ix.reps as nat, 1),
            ix.pattern as int,
        ),
        trace_matches(trace) == rounds.flatten(),
        rounds_of(p, rounds),
        hits_real(trace),
        reads(lat, ix, trace),
    ensures
        gets_over(
            lat,
            ix,
            flatten_element(CoreElementView::Repetition(p), ix.reps as nat, 1).len() as int,
            trace,
        ),
    decreases p, 2 + rounds.len(),
{
    let reps = ix.reps;
    let a = ix.pattern as int;
    let f = flatten_element(CoreElementView::Repetition(p), reps as nat, 1);
    let body = flatten_elements(p, (reps + 1) as nat, 1);
    let off = reps + body.len();
    let none = Seq::<char>::empty();
    lemma_segment_index(lat, f, a, 0);
    assert(base_ok(lat.flat, lat.lay, 1, a));
    if rounds.len() == 0 {
        lemma_mark(lat, ix, 1);
        let behind = moved(ix, f.len() as int, none);
        assert(step_spec(ix, lat.steps(ix)[mark_step(lat, ix, 1)]) == behind);
        lemma_loose(lat, behind, trace);
        assert(moved(behind, 0, trace_text(trace)) == moved(ix, f.len() as int, trace_text(trace)));
    } else {
        let later = rounds.drop_first();
        assert(way_of(p, rounds[0]));
        assert forall|i: int| 0 <= i < later.len() implies way_of(p, #[trigger] later[i]) by {
            assert(later[i] == rounds[i + 1]);
        }
        let parts = lemma_split(trace, rounds[0], later.flatten());
        let round = parts.0;
        let after = parts.1;
        lemma_reads_parts(lat, ix, round, after, 0);
        if trace_text(round).len() == 0 {
            assert(moved(ix, 0, trace_text(round)) == ix);
            lemma_rounds(lat, p, ix, later, after);
            assert(trace_text(round) + trace_text(after) =~= trace_text(after));
        } else {
            lemma_mark(lat, ix, 0);
            let inside = step_spec(ix, lat.steps(ix)[mark_step(lat, ix, 0)]);
            assert(inside == Ix {
                pattern: (a + reps) as usize,
                text: ix.text,
                reps: (reps + 1) as usize,
                rep_off: (ix.rep_off + 1) as usize,
            });
            assert(f.subrange(reps as int, reps + body.len()) =~= body);
            lemma_segment_part(lat, f, a, body, reps as int);
            assert(reads(lat, inside, round));
            lemma_way(lat, p, inside, round);
            let close = moved(inside, body.len() as int, trace_text(round));
            lemma_segment_index(lat, f, a, off as int);
            assert(base_ok(lat.flat, lat.lay, 1, a + off));
            lemma_mark(lat, close, 0);
            let again = step_spec(close, lat.steps(close)[mark_step(lat, close, 0)]);
            assert(again == moved(ix, 0, trace_text(round)));
            lemma_rounds(lat, p, again, later, after);
            assert(moved(again, f.len() as int, trace_text(after)) == moved(
                ix,
                f.len() as int,
                trace_text(trace),
            ));
        }
    }
}

/// An alignment of the elements of `s`, whose instructions stand at `ix`,
/// with the text from `ix` on gets over these instructions for no more than
/// the characters that it skips.
proof fn lemma_way(lat: Lattice, s: Seq<CoreElementView>, ix: Ix, trace: Seq<Step<MatchView, char>>)
    requires
        lat.wf(),
        lat.valid(ix),
        segment_at(lat, flatten_elements(s, ix.reps as nat, 1), ix.pattern as int),
        way_of(s, trace_matches(trace)),
        hits_real(trace),
        reads(lat, ix, trace),
    ensures
        gets_over(lat, ix, flatten_elements(s, ix.reps as nat, 1).len() as int, trace),
    decreases s, 0nat,
{
    let reps = ix.reps;
    let a = ix.pattern as int;
    if s.len() == 0 {
        lemma_loose(lat, ix, trace);
    } else {
        let f = flatten_elements(s, reps as nat, 1);
        let before = flatten_elements(s.drop_last(), reps as nat, 1);
        let last = flatten_element(s.last(), reps as nat, 1);
        assert(f.subrange(0, before.len() as int) =~= before);
        assert(f.subrange(before.len() as int, (before.len() + last.len()) as int) =~= last);
        lemma_segment_part(lat, f, a, before, 0);
        lemma_segment_part(lat, f, a, last, before.len() as int);
        let ms = trace_matches(trace);
        let n = choose|n: int|
            0 <= n <= ms.len() && way_of(s.drop_last(), #[trigger] ms.subrange(0, n))
                && way_of_element(s.last(), ms.subrange(n, ms.len() as int));
        assert(ms =~= ms.subrange(0, n) + ms.subrange(n, ms.len() as int));
        let parts = lemma_split(trace, ms.subrange(0, n), ms.subrange(n, ms.len() as int));
        lemma_reads_parts(lat, ix, parts.0, parts.1, before.len() as int);
        lemma_way(lat, s.drop_last(), ix, parts.0);
        let middle = moved(ix, before.len() as int, trace_text(parts.0));
        lemma_way_element(lat, s.last(), middle, parts.1);
        assert(moved(middle, last.len() as int, trace_text(parts.1)) == moved(
            ix,
            f.len() as int,
            trace_text(trace),
        ));
    }
}

/// No alignment of a pattern with a text passes over fewer characters than
/// the best score from the first index of their lattice: whichever branch of
/// each alternative it takes, however often it goes through each repetition,
/// and wherever it passes over a character.
pub proof fn lemma_no_cheaper_alignment(
    pattern: Seq<CoreElementView>,
    text: Seq<char>,
    trace: Seq<Step<MatchView, char>>,
)
    requires
        flatten_elements(pattern, 1, 1).len() + text.len() + 1 <= usize::MAX,
        aligns(pattern, text, trace),
    ensures
        lattice_of(pattern, text).opt(lattice_of(pattern, text).start()) <= trace_skips(trace),
{
    let lat = lattice_of(pattern, text);
    lemma_lattice_wf(pattern, text);
    let start = lat.start();
    lat.lemma_end(start);
    assert(lat.flat.subrange(0, lat.flat.len() as int) =~= lat.flat);
    assert(lat.text.subrange(0, text.len() as int) =~= text);
    lemma_way(lat, pattern, start, trace);
    assert(moved(start, lat.flat.len() as int, text) == lat.end());
    lat.lemma_end(lat.end());
    lat.lemma_opt_end(lat.end());
}

} // verus!
