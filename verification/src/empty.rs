//! What the best alignment is where the pattern or the text is empty.

use vstd::prelude::*;
use crate::{CoreElementView, MatchView, Step};
use crate::flat_pattern::{flatten_element, flatten_elements, FlatView};
use crate::lattice::{step_cost, step_spec, Ix, Lattice};
use crate::config::{lattice_of, lemma_lattice_wf};
use crate::layout::base_ok;

verus! {

/// The trace that passes over every character of `text`.
pub open spec fn all_skipped(text: Seq<char>) -> Seq<Step<MatchView, char>> {
    Seq::new(text.len(), |i: int| Step::SkipText(text[i]))
}

proof fn lemma_empty_pattern_from(text: Seq<char>, from: usize)
    requires
        text.len() + 1 <= usize::MAX,
        from <= text.len(),
    ensures
        ({
            let lat = lattice_of(Seq::empty(), text);
            let ix = Ix { pattern: 0, text: from, reps: 1, rep_off: 0 };
            &&& lat.opt(ix) == text.len() - from
            &&& lat.opt_trace(ix) == all_skipped(text).subrange(from as int, text.len() as int)
        }),
    decreases text.len() - from,
{
    let lat = lattice_of(Seq::empty(), text);
    let ix = Ix { pattern: 0, text: from, reps: 1, rep_off: 0 };
    assert(flatten_elements(Seq::<CoreElementView>::empty(), 1, 1) =~= Seq::empty());
    lemma_lattice_wf(Seq::empty(), text);
    assert(lat.valid(ix));
    let rest = all_skipped(text).subrange(from as int, text.len() as int);
    if from < text.len() {
        let next = Ix { pattern: 0, text: (from + 1) as usize, reps: 1, rep_off: 0 };
        lemma_empty_pattern_from(text, (from + 1) as usize);
        lat.lemma_best_choice(ix, 1);
        lat.lemma_opt_trace(ix);
        assert(lat.opt_trace(ix) =~= rest);
    } else {
        lat.lemma_opt_end(ix);
        assert(lat.opt_trace(ix) =~= rest);
    }
}

/// Against the empty pattern every character of the text is passed over:
/// the best score is the length of the text, and the trace skips the
/// characters of the text one after the other.
pub proof fn lemma_empty_pattern(text: Seq<char>)
    requires
        text.len() + 1 <= usize::MAX,
    ensures
        lattice_of(Seq::empty(), text).opt(lattice_of(Seq::empty(), text).start()) == text.len(),
        lattice_of(Seq::empty(), text).opt_trace(lattice_of(Seq::empty(), text).start())
            == all_skipped(text),
{
    lemma_empty_pattern_from(text, 0);
    assert(all_skipped(text).subrange(0, text.len() as int) =~= all_skipped(text));
}

/// The least number of literals and classes of `e` that an alignment has
/// to go through: one for a literal or a class, those of the body for a
/// capture, none for a repetition, which may be passed by, and those of the
/// cheaper branch for an alternative.
pub open spec fn cover_element(e: CoreElementView) -> nat
    decreases e,
{
    match e {
        CoreElementView::Match(_) => 1,
        CoreElementView::Capture(p) => cover(p),
        CoreElementView::Repetition(_) => 0,
        CoreElementView::Alternative(p, q) => if cover(p) <= cover(q) {
            cover(p)
        } else {
            cover(q)
        },
    }
}

/// The least number of literals and classes of `s` that an alignment has
/// to go through.
pub open spec fn cover(s: Seq<CoreElementView>) -> nat
    decreases s,
{
    if s.len() == 0 {
        0
    } else {
        cover(s.drop_last()) + cover_element(s.last())
    }
}

/// The index at position `pos` of the pattern, before any character of the
/// text, with every repetition around it entered since the start.
spec fn here(pos: int, reps: usize) -> Ix {
    Ix { pattern: pos as usize, text: 0, reps, rep_off: (reps - 1) as usize }
}

proof fn lemma_one_step(lat: Lattice, ix: Ix)
    requires
        lat.wf(),
        lat.valid(ix),
        lat.steps(ix).len() == 1,
    ensures
        lat.valid(step_spec(ix, lat.steps(ix)[0])),
        crate::lattice::step_fits(ix, lat.steps(ix)[0]),
        lat.opt(ix) == step_cost(lat.steps(ix)[0]) + lat.opt(step_spec(ix, lat.steps(ix)[0])),
{
    lat.lemma_step(ix, 0);
    lat.lemma_best_choice(ix, 1);
}

proof fn lemma_two_steps(lat: Lattice, ix: Ix)
    requires
        lat.wf(),
        lat.valid(ix),
        lat.steps(ix).len() == 2,
    ensures
        lat.valid(step_spec(ix, lat.steps(ix)[0])),
        lat.valid(step_spec(ix, lat.steps(ix)[1])),
        crate::lattice::step_fits(ix, lat.steps(ix)[0]),
        crate::lattice::step_fits(ix, lat.steps(ix)[1]),
        lat.opt(ix) == (if lat.via(ix, 0) <= lat.via(ix, 1) {
            lat.via(ix, 0)
        } else {
            lat.via(ix, 1)
        }),
{
    lat.lemma_step(ix, 0);
    lat.lemma_step(ix, 1);
    lat.lemma_best_choice(ix, 2);
    assert(lat.opt(ix) <= lat.via(ix, 0));
    assert(lat.opt(ix) <= lat.via(ix, 1));
}

/// Whether the instructions `f` stand in the flat pattern from position
/// `a` on.
pub(crate) open spec fn segment_at(lat: Lattice, f: Seq<FlatView>, a: int) -> bool {
    &&& 0 <= a
    &&& a + f.len() <= lat.flat.len()
    &&& lat.flat.subrange(a, a + f.len()) == f
}

pub(crate) proof fn lemma_segment_index(lat: Lattice, f: Seq<FlatView>, a: int, i: int)
    requires
        segment_at(lat, f, a),
        0 <= i < f.len(),
    ensures
        lat.flat[a + i] == f[i],
{
    assert(lat.flat.subrange(a, a + f.len())[i] == lat.flat[a + i]);
}

pub(crate) proof fn lemma_segment_part(lat: Lattice, f: Seq<FlatView>, a: int, g: Seq<FlatView>, b: int)
    requires
        segment_at(lat, f, a),
        0 <= b,
        b + g.len() <= f.len(),
        f.subrange(b, b + g.len()) == g,
    ensures
        segment_at(lat, g, a + b),
{
    assert forall|i: int| 0 <= i < g.len() implies lat.flat[a + b + i] == g[i] by {
        lemma_segment_index(lat, f, a, b + i);
        assert(f.subrange(b, b + g.len())[i] == f[b + i]);
    }
    assert(lat.flat.subrange(a + b, a + b + g.len()) =~= g);
}

proof fn lemma_cover_match(lat: Lattice, m: MatchView, a: int, reps: usize)
    requires
        lat.wf(),
        lat.text.len() == 0,
        reps >= 1,
        segment_at(lat, flatten_element(CoreElementView::Match(m), reps as nat, 1), a),
        lat.valid(here(a, reps)),
    ensures
        lat.valid(here(a + reps, reps)),
        lat.opt(here(a, reps)) == 1 + lat.opt(here(a + reps, reps)),
{
    lemma_segment_index(lat, flatten_element(CoreElementView::Match(m), reps as nat, 1), a, 0);
    lemma_one_step(lat, here(a, reps));
}

/// The step over one of the marks of a group: `mark` stands at `pos`,
/// and the step over it costs nothing.
proof fn lemma_cover_mark(lat: Lattice, pos: int, reps: usize)
    requires
        lat.wf(),
        lat.text.len() == 0,
        reps >= 1,
        0 <= pos < lat.flat.len(),
        lat.flat[pos] is GroupStart || lat.flat[pos] is GroupEnd,
        lat.valid(here(pos, reps)),
    ensures
        lat.valid(here(pos + reps, reps)),
        lat.opt(here(pos, reps)) == lat.opt(here(pos + reps, reps)),
{
    lemma_one_step(lat, here(pos, reps));
}

/// The step from the mark between the two branches of an alternative to
/// what follows the alternative costs nothing.
proof fn lemma_cover_middle(lat: Lattice, pos: int, reps: usize, off: nat)
    requires
        lat.wf(),
        lat.text.len() == 0,
        reps >= 1,
        0 <= pos < lat.flat.len(),
        lat.flat[pos] == FlatView::AlternativeRight(off),
        lat.valid(here(pos, reps)),
    ensures
        lat.valid(here(pos + off, reps)),
        lat.opt(here(pos, reps)) == lat.opt(here(pos + off, reps)),
{
    assert(base_ok(lat.flat, lat.lay, 1, pos));
    lemma_one_step(lat, here(pos, reps));
}

/// The two steps from the first mark of an alternative cost nothing: the
/// best score from there is the better of the best scores from the starts of
/// the two branches.
proof fn lemma_cover_choice(lat: Lattice, pos: int, reps: usize, off: nat)
    requires
        lat.wf(),
        lat.text.len() == 0,
        reps >= 1,
        0 <= pos < lat.flat.len(),
        lat.flat[pos] == FlatView::AlternativeLeft(off),
        lat.valid(here(pos, reps)),
    ensures
        lat.valid(here(pos + reps, reps)),
        lat.valid(here(pos + off + reps, reps)),
        lat.opt(here(pos, reps)) == (if lat.opt(here(pos + reps, reps)) <= lat.opt(
            here(pos + off + reps, reps),
        ) {
            lat.opt(here(pos + reps, reps))
        } else {
            lat.opt(here(pos + off + reps, reps))
        }),
{
    let ix = here(pos, reps);
    assert(base_ok(lat.flat, lat.lay, 1, pos));
    lemma_two_steps(lat, ix);
    assert(step_spec(ix, lat.steps(ix)[0]) == here(pos + reps, reps));
    assert(step_spec(ix, lat.steps(ix)[1]) == here(pos + off + reps, reps));
}

/// The two steps from the start of a repetition cost nothing: the best
/// score from there is the better of the best scores from the start of the
/// body and from behind the repetition.
proof fn lemma_cover_enter(lat: Lattice, pos: int, reps: usize, off: nat)
    requires
        lat.wf(),
        lat.text.len() == 0,
        reps >= 1,
        0 <= pos < lat.flat.len(),
        lat.flat[pos] == FlatView::RepetitionStart(off),
        lat.valid(here(pos, reps)),
    ensures
        reps + 1 <= usize::MAX,
        lat.valid(here(pos + reps, (reps + 1) as usize)),
        lat.valid(here(pos + off + reps + 1, reps)),
        lat.opt(here(pos, reps)) == (if lat.opt(here(pos + reps, (reps + 1) as usize)) <= lat.opt(
            here(pos + off + reps + 1, reps),
        ) {
            lat.opt(here(pos + reps, (reps + 1) as usize))
        } else {
            lat.opt(here(pos + off + reps + 1, reps))
        }),
{
    let ix = here(pos, reps);
    assert(base_ok(lat.flat, lat.lay, 1, pos));
    lemma_two_steps(lat, ix);
    assert(step_spec(ix, lat.steps(ix)[0]) == here(pos + reps, (reps + 1) as usize));
    assert(step_spec(ix, lat.steps(ix)[1]) == here(pos + off + reps + 1, reps));
}

/// The step from the end of a repetition that was entered without a move
/// in the text leads out of the repetition, and costs nothing.
proof fn lemma_cover_leave(lat: Lattice, pos: int, reps: usize, off: nat)
    requires
        lat.wf(),
        lat.text.len() == 0,
        reps >= 2,
        0 <= pos < lat.flat.len(),
        lat.flat[pos] == FlatView::RepetitionEnd(off),
        lat.valid(here(pos, reps)),
    ensures
        lat.valid(here(pos + reps, (reps - 1) as usize)),
        lat.opt(here(pos, reps)) == lat.opt(here(pos + reps, (reps - 1) as usize)),
{
    let ix = here(pos, reps);
    lemma_one_step(lat, ix);
    assert(step_spec(ix, lat.steps(ix)[0]) == here(pos + reps, (reps - 1) as usize));
}

/// With no text, the best score from the start of the instructions for `e`
/// is the least number of literals and classes of `e`, and the best score
/// from their end.
proof fn lemma_cover_element(lat: Lattice, e: CoreElementView, a: int, reps: usize)
    requires
        lat.wf(),
        lat.text.len() == 0,
        reps >= 1,
        segment_at(lat, flatten_element(e, reps as nat, 1), a),
        lat.valid(here(a, reps)),
    ensures
        lat.valid(here(a + flatten_element(e, reps as nat, 1).len(), reps)),
        lat.opt(here(a, reps)) == cover_element(e) + lat.opt(
            here(a + flatten_element(e, reps as nat, 1).len(), reps),
        ),
    decreases e,
{
    let f = flatten_element(e, reps as nat, 1);
    match e {
        CoreElementView::Match(m) => {
            lemma_cover_match(lat, m, a, reps);
        },
        CoreElementView::Capture(p) => {
            let body = flatten_elements(p, reps as nat, 1);
            lemma_segment_index(lat, f, a, 0);
            lemma_cover_mark(lat, a, reps);
            assert(f.subrange(reps as int, reps + body.len()) =~= body);
            lemma_segment_part(lat, f, a, body, reps as int);
            lemma_cover_elements(lat, p, a + reps, reps);
            lemma_segment_index(lat, f, a, reps + body.len());
            lemma_cover_mark(lat, a + reps + body.len(), reps);
        },
        CoreElementView::Repetition(p) => {
            let body = flatten_elements(p, (reps + 1) as nat, 1);
            let off = reps + body.len();
            lemma_segment_index(lat, f, a, 0);
            lemma_cover_enter(lat, a, reps, off as nat);
            assert(f.subrange(reps as int, reps + body.len()) =~= body);
            lemma_segment_part(lat, f, a, body, reps as int);
            lemma_cover_elements(lat, p, a + reps, (reps + 1) as usize);
            lemma_segment_index(lat, f, a, off as int);
            lemma_cover_leave(lat, a + off, (reps + 1) as usize, off as nat);
        },
        CoreElementView::Alternative(p, q) => {
            let left = flatten_elements(p, reps as nat, 1);
            let right = flatten_elements(q, reps as nat, 1);
            let off = reps + left.len();
            lemma_segment_index(lat, f, a, 0);
            lemma_cover_choice(lat, a, reps, off as nat);
            assert(f.subrange(reps as int, reps + left.len()) =~= left);
            lemma_segment_part(lat, f, a, left, reps as int);
            lemma_cover_elements(lat, p, a + reps, reps);
            lemma_segment_index(lat, f, a, off as int);
            lemma_cover_middle(lat, a + off, reps, (reps + right.len()) as nat);
            assert(f.subrange(off + reps, off + reps + right.len()) =~= right);
            lemma_segment_part(lat, f, a, right, off + reps);
            lemma_cover_elements(lat, q, a + off + reps, reps);
        },
    }
}

/// With no text, the best score from the start of the instructions for `s`
/// is the least number of literals and classes of `s`, and the best score
/// from their end.
proof fn lemma_cover_elements(lat: Lattice, s: Seq<CoreElementView>, a: int, reps: usize)
    requires
        lat.wf(),
        lat.text.len() == 0,
        reps >= 1,
        segment_at(lat, flatten_elements(s, reps as nat, 1), a),
        lat.valid(here(a, reps)),
    ensures
        lat.valid(here(a + flatten_elements(s, reps as nat, 1).len(), reps)),
        lat.opt(here(a, reps)) == cover(s) + lat.opt(
            here(a + flatten_elements(s, reps as nat, 1).len(), reps),
        ),
    decreases s,
{
    if s.len() > 0 {
        let f = flatten_elements(s, reps as nat, 1);
        let before = flatten_elements(s.drop_last(), reps as nat, 1);
        let last = flatten_element(s.last(), reps as nat, 1);
        assert(f.subrange(0, before.len() as int) =~= before);
        assert(f.subrange(before.len() as int, (before.len() + last.len()) as int) =~= last);
        lemma_segment_part(lat, f, a, before, 0);
        lemma_segment_part(lat, f, a, last, before.len() as int);
        lemma_cover_elements(lat, s.drop_last(), a, reps);
        lemma_cover_element(lat, s.last(), a + before.len(), reps);
    }
}

/// Against the empty text the best score is the least number of literals
/// and classes that an alignment has to go through: every one of them on the
/// cheapest way through the pattern is passed over.
pub proof fn lemma_empty_text(pattern: Seq<CoreElementView>)
    requires
        flatten_elements(pattern, 1, 1).len() + 1 <= usize::MAX,
    ensures
        lattice_of(pattern, Seq::empty()).opt(lattice_of(pattern, Seq::empty()).start()) == cover(
            pattern,
        ),
{
    let lat = lattice_of(pattern, Seq::empty());
    lemma_lattice_wf(pattern, Seq::empty());
    lat.lemma_end(lat.start());
    assert(lat.flat.subrange(0, lat.flat.len() as int) =~= lat.flat);
    assert(here(0, 1) == lat.start());
    lemma_cover_elements(lat, pattern, 0, 1);
    assert(here(lat.flat.len() as int, 1) == lat.end());
    lat.lemma_end(lat.end());
    lat.lemma_opt_end(lat.end());
}

} // verus!
