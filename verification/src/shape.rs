//! The trace of a walk through the lattice of a pattern and a text is an
//! alignment of the pattern with the text, and the marks of captures in it
//! are balanced: the walk gets over the instructions of each element in
//! turn, and goes one way through the element as it does.

use vstd::prelude::*;
use crate::{CoreElementView, MatchView, Step};
use crate::alignment::{
    accepts,
    aligns,
    dip,
    hits_real,
    lemma_marks_add,
    lemma_trace_add,
    lemma_trace_one,
    marks_balanced,
    rise,
    rounds_of,
    way_of,
    way_of_element,
};
use crate::config::{lattice_of, lemma_lattice_wf};
use crate::empty::{lemma_segment_index, lemma_segment_part, segment_at};
use crate::flat_pattern::{flatten_element, flatten_elements, FlatView};
use crate::lattice::{step_spec, Ix, Lattice, StepType};
use crate::layout::base_ok;
use crate::optimum::trace_matches;

verus! {

/// A part of a trace: the steps of the part, what it holds of the pattern,
/// and the marks of captures in it.
spec fn part_of(
    part: Seq<Step<MatchView, char>>,
    ms: Seq<MatchView>,
    up: int,
    low: int,
) -> bool {
    &&& trace_matches(part) == ms
    &&& rise(part) == up
    &&& dip(part) == low
}

/// Two parts of a trace, one after the other, are a part of it.
proof fn lemma_parts(
    a: Seq<Step<MatchView, char>>,
    b: Seq<Step<MatchView, char>>,
    tail: Seq<Step<MatchView, char>>,
)
    ensures
        (a + b) + tail == a + (b + tail),
        trace_matches(a + b) == trace_matches(a) + trace_matches(b),
        rise(a + b) == rise(a) + rise(b),
        dip(a + b) == (if dip(a) <= rise(a) + dip(b) {
            dip(a)
        } else {
            rise(a) + dip(b)
        }),
{
    lemma_trace_add(a, b);
    lemma_marks_add(a, b);
    assert((a + b) + tail =~= a + (b + tail));
}

/// The first step of a walk is one of the steps that lead on from where the
/// walk begins, and the rest is a walk from where that step leads.
proof fn lemma_walk_first(lat: Lattice, ix: Ix, steps: Seq<StepType>) -> (j: int)
    requires
        lat.wf(),
        lat.valid(ix),
        lat.walk_ok(ix, steps),
        steps.len() > 0,
    ensures
        0 <= j < lat.steps(ix).len(),
        lat.steps(ix)[j] == steps[0],
        lat.valid(step_spec(ix, steps[0])),
        lat.walk_ok(step_spec(ix, steps[0]), steps.drop_first()),
        lat.walk_trace(ix, steps) == (match lat.emit(ix, steps[0]) {
            Some(step) => seq![step],
            None => Seq::empty(),
        }) + lat.walk_trace(step_spec(ix, steps[0]), steps.drop_first()),
{
    let j = choose|j: int| 0 <= j < lat.steps(ix).len() && #[trigger] lat.steps(ix)[j] == steps[0];
    lat.lemma_step(ix, j);
    let rest = lat.walk_trace(step_spec(ix, steps[0]), steps.drop_first());
    assert(Seq::<Step<MatchView, char>>::empty() + rest =~= rest);
    j
}

/// A walk from a position inside the pattern moves on in the pattern at
/// some time: before that it passes over characters of the text, and leaves
/// nothing else in its trace.
proof fn lemma_leave(lat: Lattice, ix: Ix, steps: Seq<StepType>) -> (r: (
    Seq<Step<MatchView, char>>,
    Ix,
    Seq<StepType>,
))
    requires
        lat.wf(),
        lat.valid(ix),
        lat.walk_ok(ix, steps),
        ix.pattern < lat.flat.len(),
    ensures
        r.1.pattern == ix.pattern,
        r.1.reps == ix.reps,
        lat.valid(r.1),
        0 < r.2.len() <= steps.len(),
        lat.walk_ok(r.1, r.2),
        !(r.2[0] is SkipText),
        lat.walk_trace(ix, steps) == r.0 + lat.walk_trace(r.1, r.2),
        part_of(r.0, Seq::empty(), 0, 0),
    decreases steps.len(),
{
    if steps[0] is SkipText {
        let j = lemma_walk_first(lat, ix, steps);
        let next = step_spec(ix, steps[0]);
        let (later, at, left) = lemma_leave(lat, next, steps.drop_first());
        let skip = seq![Step::<MatchView, char>::SkipText(lat.text[ix.text as int])];
        lemma_trace_one(skip[0]);
        lemma_parts(skip, later, lat.walk_trace(at, left));
        assert(trace_matches(skip + later) =~= Seq::<MatchView>::empty());
        (skip + later, at, left)
    } else {
        let none = Seq::<Step<MatchView, char>>::empty();
        assert(none + lat.walk_trace(ix, steps) =~= lat.walk_trace(ix, steps));
        assert(trace_matches(none) =~= Seq::<MatchView>::empty());
        (none, ix, steps)
    }
}

/// Whether `step_type` is one of the steps by which a walk moves on in the
/// pattern from `ix`.
spec fn moves_on(lat: Lattice, ix: Ix, step_type: StepType) -> bool {
    match lat.flat[ix.pattern as int] {
        FlatView::Lit(_) | FlatView::Class(_) => step_type is SkipPattern || (step_type is Hit
            && ix.text < lat.text.len() && accepts(lat.match_at(ix), lat.text[ix.text as int])),
        FlatView::GroupStart => step_type is StartGroup,
        FlatView::GroupEnd => step_type is EndGroup,
        FlatView::AlternativeLeft(off) => step_type is StartLeft || step_type == StepType::StartRight(
            off as usize,
        ),
        FlatView::AlternativeRight(off) => step_type == StepType::PassRight(off as usize),
        FlatView::RepetitionStart(off) => step_type is StartRepetition || step_type
            == StepType::PassRepetition(off as usize),
        FlatView::RepetitionEnd(off) => if ix.rep_off == 0 {
            step_type == StepType::RestartRepetition(off as usize)
        } else {
            step_type is EndRepetition
        },
    }
}

/// What a walk leaves in its trace when it moves on from the instruction
/// `flat`: the literal or class, or the mark of a capture.
spec fn left_by(flat: FlatView, m: MatchView, part: Seq<Step<MatchView, char>>) -> bool {
    match flat {
        FlatView::Lit(_) | FlatView::Class(_) => part_of(part, seq![m], 0, 0),
        FlatView::GroupStart => part_of(part, Seq::empty(), 1, 0),
        FlatView::GroupEnd => part_of(part, Seq::empty(), -1, -1),
        _ => part_of(part, Seq::empty(), 0, 0),
    }
}

/// A walk whose first step moves on in the pattern leaves in its trace, by
/// that step, the literal or class at its position, or the mark of a
/// capture, if there is one.
proof fn lemma_step_on(lat: Lattice, at: Ix, steps: Seq<StepType>) -> (one: Seq<
    Step<MatchView, char>,
>)
    requires
        lat.wf(),
        lat.valid(at),
        lat.walk_ok(at, steps),
        at.pattern < lat.flat.len(),
        steps.len() > 0,
        !(steps[0] is SkipText),
    ensures
        moves_on(lat, at, steps[0]),
        lat.valid(step_spec(at, steps[0])),
        lat.walk_ok(step_spec(at, steps[0]), steps.drop_first()),
        lat.walk_trace(at, steps) == one + lat.walk_trace(
            step_spec(at, steps[0]),
            steps.drop_first(),
        ),
        left_by(lat.flat[at.pattern as int], lat.match_at(at), one),
{
    let j = lemma_walk_first(lat, at, steps);
    match lat.emit(at, steps[0]) {
        Some(step) => {
            lemma_trace_one(step);
            seq![step]
        },
        None => {
            let one = Seq::<Step<MatchView, char>>::empty();
            assert(trace_matches(one) =~= Seq::<MatchView>::empty());
            one
        },
    }
}

/// A walk from a position inside the pattern moves on in the pattern by
/// the step `r.2` from the index `r.1`, after which the steps `r.3` are
/// left: the part `r.0` of its trace then holds the literal or class at that
/// position, or the mark of a capture, if there is one.
proof fn lemma_move_on(lat: Lattice, ix: Ix, steps: Seq<StepType>) -> (r: (
    Seq<Step<MatchView, char>>,
    Ix,
    StepType,
    Seq<StepType>,
))
    requires
        lat.wf(),
        lat.valid(ix),
        lat.walk_ok(ix, steps),
        ix.pattern < lat.flat.len(),
    ensures
        r.1.pattern == ix.pattern,
        r.1.reps == ix.reps,
        lat.valid(r.1),
        r.3.len() < steps.len(),
        moves_on(lat, r.1, r.2),
        lat.valid(step_spec(r.1, r.2)),
        lat.walk_ok(step_spec(r.1, r.2), r.3),
        lat.walk_trace(ix, steps) == r.0 + lat.walk_trace(step_spec(r.1, r.2), r.3),
        left_by(lat.flat[ix.pattern as int], lat.match_at(ix), r.0),
{
    let (skipped, at, left) = lemma_leave(lat, ix, steps);
    let one = lemma_step_on(lat, at, left);
    assert(lat.match_at(ix) == lat.match_at(at));
    lemma_parts(skipped, one, lat.walk_trace(step_spec(at, left[0]), left.drop_first()));
    lemma_marks_add(skipped, one);
    assert(trace_matches(skipped + one) =~= trace_matches(one));
    (skipped + one, at, left[0], left.drop_first())
}

/// What a walk leaves behind when it has got over some instructions of the
/// pattern: the part `part` of its trace, in which the marks of captures are
/// balanced, the index `out` where it then stands, and the steps `rest`
/// that it goes on with.
spec fn got_over(
    lat: Lattice,
    ix: Ix,
    steps: Seq<StepType>,
    n: int,
    part: Seq<Step<MatchView, char>>,
    out: Ix,
    rest: Seq<StepType>,
) -> bool {
    &&& lat.valid(out)
    &&& out.pattern == ix.pattern + n
    &&& out.reps == ix.reps
    &&& lat.walk_ok(out, rest)
    &&& rest.len() <= steps.len()
    &&& lat.walk_trace(ix, steps) == part + lat.walk_trace(out, rest)
    &&& marks_balanced(part)
}

/// A walk from the start of the instructions for `e` gets over them, and
/// goes past the literals and classes on one way through `e` as it does.
proof fn lemma_walk_element(lat: Lattice, e: CoreElementView, ix: Ix, steps: Seq<StepType>) -> (r: (
    Seq<Step<MatchView, char>>,
    Ix,
    Seq<StepType>,
))
    requires
        lat.wf(),
        lat.valid(ix),
        segment_at(lat, flatten_element(e, ix.reps as nat, 1), ix.pattern as int),
        lat.walk_ok(ix, steps),
    ensures
        got_over(lat, ix, steps, flatten_element(e, ix.reps as nat, 1).len() as int, r.0, r.1, r.2),
        way_of_element(e, trace_matches(r.0)),
    decreases e, 1nat,
{
    match e {
        CoreElementView::Match(m) => {
            lemma_segment_index(lat, flatten_element(e, ix.reps as nat, 1), ix.pattern as int, 0);
            let (part, at, step_type, rest) = lemma_move_on(lat, ix, steps);
            (part, step_spec(at, step_type), rest)
        },
        CoreElementView::Capture(p) => lemma_walk_capture(lat, p, ix, steps),
        CoreElementView::Alternative(p, q) => lemma_walk_alternative(lat, p, q, ix, steps),
        CoreElementView::Repetition(p) => {
            let (rounds, part, out, rest) = lemma_walk_rounds(lat, p, ix, steps);
            (part, out, rest)
        },
    }
}

/// A walk from the start of a capture gets over it by a way through its
/// body, and leaves the two marks of the capture around it.
proof fn lemma_walk_capture(lat: Lattice, p: Seq<CoreElementView>, ix: Ix, steps: Seq<StepType>) -> (r:
    (Seq<Step<MatchView, char>>, Ix, Seq<StepType>))
    requires
        lat.wf(),
        lat.valid(ix),
        segment_at(
            lat,
            flatten_element(CoreElementView::Capture(p), ix.reps as nat, 1),
            ix.pattern as int,
        ),
        lat.walk_ok(ix, steps),
    ensures
        got_over(
            lat,
            ix,
            steps,
            flatten_element(CoreElementView::Capture(p), ix.reps as nat, 1).len() as int,
            r.0,
            r.1,
            r.2,
        ),
        way_of(p, trace_matches(r.0)),
    decreases p, 1nat,
{
    let reps = ix.reps;
    let a = ix.pattern as int;
    let f = flatten_element(CoreElementView::Capture(p), reps as nat, 1);
    let body = flatten_elements(p, reps as nat, 1);
    lemma_segment_index(lat, f, a, 0);
    let (open, at, step_type, left) = lemma_move_on(lat, ix, steps);
    let inside = step_spec(at, step_type);
    assert(f.subrange(reps as int, reps + body.len()) =~= body);
    lemma_segment_part(lat, f, a, body, reps as int);
    let (within, close, more) = lemma_walk(lat, p, inside, left);
    lemma_segment_index(lat, f, a, reps + body.len());
    let (shut, last, mark, rest) = lemma_move_on(lat, close, more);
    let out = step_spec(last, mark);
    let tail = lat.walk_trace(out, rest);
    lemma_parts(within, shut, tail);
    lemma_parts(open, within + shut, tail);
    let part = open + (within + shut);
    assert(trace_matches(part) =~= trace_matches(within));
    (part, out, rest)
}

/// A walk from the start of an alternative gets over it by a way through
/// one of its two branches.
proof fn lemma_walk_alternative(
    lat: Lattice,
    p: Seq<CoreElementView>,
    q: Seq<CoreElementView>,
    ix: Ix,
    steps: Seq<StepType>,
) -> (r: (Seq<Step<MatchView, char>>, Ix, Seq<StepType>))
    requires
        lat.wf(),
        lat.valid(ix),
        segment_at(
            lat,
            flatten_element(CoreElementView::Alternative(p, q), ix.reps as nat, 1),
            ix.pattern as int,
        ),
        lat.walk_ok(ix, steps),
    ensures
        got_over(
            lat,
            ix,
            steps,
            flatten_element(CoreElementView::Alternative(p, q), ix.reps as nat, 1).len() as int,
            r.0,
            r.1,
            r.2,
        ),
        way_of(p, trace_matches(r.0)) || way_of(q, trace_matches(r.0)),
    decreases CoreElementView::Alternative(p, q), 0nat,
{
    let reps = ix.reps;
    let a = ix.pattern as int;
    let f = flatten_element(CoreElementView::Alternative(p, q), reps as nat, 1);
    let left = flatten_elements(p, reps as nat, 1);
    let right = flatten_elements(q, reps as nat, 1);
    let off = reps + left.len();
    lemma_segment_index(lat, f, a, 0);
    assert(base_ok(lat.flat, lat.lay, 1, a));
    let (before, at, step_type, after) = lemma_move_on(lat, ix, steps);
    let inside = step_spec(at, step_type);
    if step_type is StartLeft {
        assert(f.subrange(reps as int, reps + left.len()) =~= left);
        lemma_segment_part(lat, f, a, left, reps as int);
        let (within, middle, more) = lemma_walk(lat, p, inside, after);
        lemma_segment_index(lat, f, a, off as int);
        assert(base_ok(lat.flat, lat.lay, 1, a + off));
        let (behind, last, mark, rest) = lemma_move_on(lat, middle, more);
        let out = step_spec(last, mark);
        let tail = lat.walk_trace(out, rest);
        lemma_parts(within, behind, tail);
        lemma_parts(before, within + behind, tail);
        let part = before + (within + behind);
        assert(trace_matches(part) =~= trace_matches(within));
        (part, out, rest)
    } else {
        assert(f.subrange(off + reps, off + reps + right.len()) =~= right);
        lemma_segment_part(lat, f, a, right, off + reps);
        let (within, out, rest) = lemma_walk(lat, q, inside, after);
        lemma_parts(before, within, lat.walk_trace(out, rest));
        let part = before + within;
        assert(trace_matches(part) =~= trace_matches(within));
        (part, out, rest)
    }
}

/// A walk from the start of the body of the repetition of `p`, whose
/// instructions stand at `a`, goes one round through `p`, and then stands
/// at the start of the repetition again, or behind it.
proof fn lemma_walk_round(
    lat: Lattice,
    p: Seq<CoreElementView>,
    a: int,
    inside: Ix,
    steps: Seq<StepType>,
) -> (r: (Seq<Step<MatchView, char>>, Ix, Seq<StepType>))
    requires
        lat.wf(),
        lat.valid(inside),
        inside.reps >= 2,
        inside.pattern == a + inside.reps - 1,
        segment_at(
            lat,
            flatten_element(CoreElementView::Repetition(p), (inside.reps - 1) as nat, 1),
            a,
        ),
        lat.walk_ok(inside, steps),
    ensures
        lat.valid(r.1),
        r.1.reps == inside.reps - 1,
        r.1.pattern == a || r.1.pattern == a + flatten_element(
            CoreElementView::Repetition(p),
            (inside.reps - 1) as nat,
            1,
        ).len(),
        lat.walk_ok(r.1, r.2),
        r.2.len() < steps.len(),
        lat.walk_trace(inside, steps) == r.0 + lat.walk_trace(r.1, r.2),
        marks_balanced(r.0),
        way_of(p, trace_matches(r.0)),
    decreases p, 1nat,
{
    let reps = (inside.reps - 1) as usize;
    let f = flatten_element(CoreElementView::Repetition(p), reps as nat, 1);
    let body = flatten_elements(p, (reps + 1) as nat, 1);
    let off = reps + body.len();
    assert(f.subrange(reps as int, reps + body.len()) =~= body);
    lemma_segment_part(lat, f, a, body, reps as int);
    let (within, close, more) = lemma_walk(lat, p, inside, steps);
    lemma_segment_index(lat, f, a, off as int);
    assert(base_ok(lat.flat, lat.lay, 1, a + off));
    let (behind, last, mark, left) = lemma_move_on(lat, close, more);
    let next = step_spec(last, mark);
    lemma_parts(within, behind, lat.walk_trace(next, left));
    let part = within + behind;
    assert(trace_matches(part) =~= trace_matches(within));
    (part, next, left)
}

/// A walk from the start of the instructions for the repetition of `p`
/// gets over them, and goes some rounds through `p` as it does: in each
/// round it goes past the literals and classes on one way through `p`.
proof fn lemma_walk_rounds(lat: Lattice, p: Seq<CoreElementView>, ix: Ix, steps: Seq<StepType>) -> (r:
    (Seq<Seq<MatchView>>, Seq<Step<MatchView, char>>, Ix, Seq<StepType>))
    requires
        lat.wf(),
        lat.valid(ix),
        segment_at(
            lat,
            flatten_element(CoreElementView::Repetition(p), ix.reps as nat, 1),
            ix.pattern as int,
        ),
        lat.walk_ok(ix, steps),
    ensures
        got_over(
            lat,
            ix,
            steps,
            flatten_element(CoreElementView::Repetition(p), ix.reps as nat, 1).len() as int,
            r.1,
            r.2,
            r.3,
        ),
        r.0.flatten() == trace_matches(r.1),
        rounds_of(p, r.0),
    decreases p, 2 + steps.len(),
{
    let reps = ix.reps;
    let a = ix.pattern as int;
    let f = flatten_element(CoreElementView::Repetition(p), reps as nat, 1);
    lemma_segment_index(lat, f, a, 0);
    assert(base_ok(lat.flat, lat.lay, 1, a));
    let (before, at, step_type, after) = lemma_move_on(lat, ix, steps);
    let inside = step_spec(at, step_type);
    if step_type is StartRepetition {
        let (round, next, left) = lemma_walk_round(lat, p, a, inside, after);
        let ms = trace_matches(round);
        if next.pattern == a {
            let (later, more, out, rest) = lemma_walk_rounds(lat, p, next, left);
            let tail = lat.walk_trace(out, rest);
            lemma_parts(round, more, tail);
            lemma_parts(before, round + more, tail);
            let part = before + (round + more);
            let rounds = seq![ms] + later;
            assert(rounds.drop_first() =~= later);
            assert(rounds.flatten() =~= ms + later.flatten());
            assert(trace_matches(part) =~= rounds.flatten());
            assert forall|i: int| 0 <= i < rounds.len() implies way_of(p, #[trigger] rounds[i]) by {
                if i > 0 {
                    assert(rounds[i] == later[i - 1]);
                }
            }
            (rounds, part, out, rest)
        } else {
            lemma_parts(before, round, lat.walk_trace(next, left));
            let part = before + round;
            let rounds = seq![ms];
            rounds.lemma_flatten_one_element();
            assert(trace_matches(part) =~= ms);
            (rounds, part, next, left)
        }
    } else {
        let rounds = Seq::<Seq<MatchView>>::empty();
        assert(rounds.flatten() =~= Seq::<MatchView>::empty());
        (rounds, before, inside, after)
    }
}

/// A walk from the start of the instructions for the elements of `s` gets
/// over them, and goes past the literals and classes on one way through `s`
/// as it does.
proof fn lemma_walk(lat: Lattice, s: Seq<CoreElementView>, ix: Ix, steps: Seq<StepType>) -> (r: (
    Seq<Step<MatchView, char>>,
    Ix,
    Seq<StepType>,
))
    requires
        lat.wf(),
        lat.valid(ix),
        segment_at(lat, flatten_elements(s, ix.reps as nat, 1), ix.pattern as int),
        lat.walk_ok(ix, steps),
    ensures
        got_over(lat, ix, steps, flatten_elements(s, ix.reps as nat, 1).len() as int, r.0, r.1, r.2),
        way_of(s, trace_matches(r.0)),
    decreases s, 0nat,
{
    let reps = ix.reps;
    let a = ix.pattern as int;
    if s.len() == 0 {
        let part = Seq::<Step<MatchView, char>>::empty();
        assert(part + lat.walk_trace(ix, steps) =~= lat.walk_trace(ix, steps));
        assert(trace_matches(part) =~= Seq::<MatchView>::empty());
        (part, ix, steps)
    } else {
        let f = flatten_elements(s, reps as nat, 1);
        let before = flatten_elements(s.drop_last(), reps as nat, 1);
        let last = flatten_element(s.last(), reps as nat, 1);
        assert(f.subrange(0, before.len() as int) =~= before);
        assert(f.subrange(before.len() as int, (before.len() + last.len()) as int) =~= last);
        lemma_segment_part(lat, f, a, before, 0);
        lemma_segment_part(lat, f, a, last, before.len() as int);
        let (first, middle, more) = lemma_walk(lat, s.drop_last(), ix, steps);
        let (second, out, rest) = lemma_walk_element(lat, s.last(), middle, more);
        lemma_parts(first, second, lat.walk_trace(out, rest));
        let part = first + second;
        let ms = trace_matches(part);
        let cut = trace_matches(first).len() as int;
        assert(ms.subrange(0, cut) =~= trace_matches(first));
        assert(ms.subrange(cut, ms.len() as int) =~= trace_matches(second));
        (part, out, rest)
    }
}

/// A walk from the end of the pattern leaves nothing of the pattern in its
/// trace, and no mark of a capture.
proof fn lemma_walk_tail(lat: Lattice, ix: Ix, steps: Seq<StepType>)
    requires
        lat.wf(),
        lat.valid(ix),
        lat.walk_ok(ix, steps),
        ix.pattern == lat.flat.len(),
    ensures
        part_of(lat.walk_trace(ix, steps), Seq::empty(), 0, 0),
    decreases steps.len(),
{
    if steps.len() > 0 {
        let j = lemma_walk_first(lat, ix, steps);
        let next = step_spec(ix, steps[0]);
        lemma_walk_tail(lat, next, steps.drop_first());
        let skip = seq![Step::<MatchView, char>::SkipText(lat.text[ix.text as int])];
        lemma_trace_one(skip[0]);
        let tail = lat.walk_trace(next, steps.drop_first());
        lemma_parts(skip, tail, Seq::empty());
        assert(trace_matches(skip + tail) =~= Seq::<MatchView>::empty());
    } else {
        assert(trace_matches(lat.walk_trace(ix, steps)) =~= Seq::<MatchView>::empty());
    }
}

/// Every hit in the trace of a walk is one: the walk takes the step of a
/// hit only where the literal or class of the pattern accepts the character
/// of the text.
pub proof fn lemma_walk_hits(lat: Lattice, ix: Ix, steps: Seq<StepType>)
    requires
        lat.wf(),
        lat.valid(ix),
        lat.walk_ok(ix, steps),
    ensures
        hits_real(lat.walk_trace(ix, steps)),
    decreases steps.len(),
{
    if steps.len() > 0 {
        let j = lemma_walk_first(lat, ix, steps);
        let next = step_spec(ix, steps[0]);
        lemma_walk_hits(lat, next, steps.drop_first());
        let rest = lat.walk_trace(next, steps.drop_first());
        match lat.emit(ix, steps[0]) {
            Some(step) => {
                lemma_trace_add(seq![step], rest);
                if steps[0] is Hit {
                    assert(accepts(lat.match_at(ix), lat.text[ix.text as int]));
                }
            },
            None => {},
        }
    }
}

/// The trace of a walk through the lattice of a pattern and a text, from
/// the first index to the last, is an alignment of the pattern with the
/// text: the walk goes through each element of the pattern in turn, through
/// one branch of each alternative that it comes to, and some number of times
/// through the body of each repetition. The marks of captures in the trace
/// are balanced.
pub proof fn lemma_walk_aligns(
    pattern: Seq<CoreElementView>,
    text: Seq<char>,
    steps: Seq<StepType>,
)
    requires
        flatten_elements(pattern, 1, 1).len() + text.len() + 1 <= usize::MAX,
        lattice_of(pattern, text).walk_ok(lattice_of(pattern, text).start(), steps),
    ensures
        aligns(
            pattern,
            text,
            lattice_of(pattern, text).walk_trace(lattice_of(pattern, text).start(), steps),
        ),
        marks_balanced(
            lattice_of(pattern, text).walk_trace(lattice_of(pattern, text).start(), steps),
        ),
{
    let lat = lattice_of(pattern, text);
    lemma_lattice_wf(pattern, text);
    let start = lat.start();
    lat.lemma_end(start);
    assert(lat.flat.subrange(0, lat.flat.len() as int) =~= lat.flat);
    let (part, out, rest) = lemma_walk(lat, pattern, start, steps);
    lemma_walk_tail(lat, out, rest);
    let tail = lat.walk_trace(out, rest);
    lemma_parts(part, tail, Seq::empty());
    assert(trace_matches(part + tail) =~= trace_matches(part));
    lat.lemma_walk_text(start, steps);
    assert(lat.text.subrange(0, text.len() as int) =~= text);
    lemma_walk_hits(lat, start, steps);
}

} // verus!
