//! How the copies of the instructions lie in a flat pattern that was made
//! with one more copy for each enclosing repetition, and why every jump that
//! an instruction asks for ends on the first copy of an instruction, or at the
//! end of the pattern.

use vstd::prelude::*;
use crate::CoreElementView;
use crate::flat_pattern::{copies, flatten_element, flatten_elements, FlatView};

verus! {

/// The place of one position of a flat pattern among the copies of its
/// instruction: which copy it is, counted from 0, and how many there are.
pub struct Slot {
    pub copy: nat,
    pub reps: nat,
}

/// The slots of the `reps` copies of one instruction.
pub open spec fn slots(reps: nat) -> Seq<Slot> {
    Seq::new(reps, |i: int| Slot { copy: i as nat, reps })
}

/// The slots of the instructions for `e`, where `e` stands at a place
/// whose instructions are written `reps` times.
pub open spec fn layout_element(e: CoreElementView, reps: nat) -> Seq<Slot>
    decreases e,
{
    match e {
        CoreElementView::Match(m) => slots(reps),
        CoreElementView::Capture(p) => slots(reps) + layout_elements(p, reps) + slots(reps),
        CoreElementView::Repetition(p) => slots(reps) + layout_elements(p, reps + 1) + slots(reps + 1),
        CoreElementView::Alternative(p, q) => slots(reps) + layout_elements(p, reps) + slots(reps)
            + layout_elements(q, reps),
    }
}

/// The slots of the instructions for the elements of `s`, in order.
pub open spec fn layout_elements(s: Seq<CoreElementView>, reps: nat) -> Seq<Slot>
    decreases s,
{
    if s.len() == 0 {
        Seq::empty()
    } else {
        layout_elements(s.drop_last(), reps) + layout_element(s.last(), reps)
    }
}

/// Whether the solver may stand at position `p` with instructions written
/// `reps` times: `p` is the first copy of such an instruction, or `p` is the
/// end of the pattern and `reps` is what holds there.
pub open spec fn point_ok(lay: Seq<Slot>, exit: nat, p: int, reps: nat) -> bool {
    ||| p == lay.len() && reps == exit
    ||| 0 <= p < lay.len() && lay[p] == Slot { copy: 0, reps }
}

/// Whether the copies of the instruction whose first copy is at `p` lie
/// side by side from `p` on and are all equal.
pub open spec fn group_ok(flat: Seq<FlatView>, lay: Seq<Slot>, p: int) -> bool {
    let reps = lay[p].reps;
    &&& reps >= 1
    &&& p + reps <= lay.len()
    &&& forall|q: int|
        p <= q < p + reps ==> #[trigger] lay[q] == Slot { copy: (q - p) as nat, reps } && flat[q]
            == flat[p]
}

/// Whether each place that the instruction at `p` sends the solver to is one
/// that the solver may stand at, with the number of copies that it will
/// expect there.
pub open spec fn jumps_ok(flat: Seq<FlatView>, lay: Seq<Slot>, exit: nat, p: int) -> bool {
    let reps = lay[p].reps;
    match flat[p] {
        FlatView::Lit(_) => point_ok(lay, exit, p + reps, reps),
        FlatView::Class(_) => point_ok(lay, exit, p + reps, reps),
        FlatView::GroupStart => point_ok(lay, exit, p + reps, reps),
        FlatView::GroupEnd => point_ok(lay, exit, p + reps, reps),
        FlatView::AlternativeLeft(off) => {
            &&& off >= reps
            &&& point_ok(lay, exit, p + reps, reps)
            &&& p + off < lay.len()
            &&& lay[p + off] == Slot { copy: 0, reps }
            &&& flat[p + off] is AlternativeRight
            &&& point_ok(lay, exit, p + off + reps, reps)
        },
        FlatView::AlternativeRight(off) => {
            &&& off >= reps
            &&& point_ok(lay, exit, p + off, reps)
        },
        FlatView::RepetitionStart(off) => {
            &&& off >= reps
            &&& point_ok(lay, exit, p + reps, reps + 1)
            &&& p + off < lay.len()
            &&& lay[p + off] == Slot { copy: 0, reps: reps + 1 }
            &&& flat[p + off] == FlatView::RepetitionEnd(off)
            &&& point_ok(lay, exit, p + off + reps + 1, reps)
        },
        FlatView::RepetitionEnd(off) => {
            &&& reps >= 2
            &&& reps - 1 <= off <= p
            &&& lay[p - off] == Slot { copy: 0, reps: (reps - 1) as nat }
            &&& flat[p - off] == FlatView::RepetitionStart(off)
            &&& point_ok(lay, exit, p + reps, (reps - 1) as nat)
        },
    }
}

/// What holds of the first copy of an instruction in a sound pattern.
pub open spec fn base_ok(flat: Seq<FlatView>, lay: Seq<Slot>, exit: nat, p: int) -> bool {
    group_ok(flat, lay, p) && jumps_ok(flat, lay, exit, p)
}

/// Whether `flat` with the slots `lay` is sound, for a pattern, or a part of
/// one, after which instructions are written `exit` times.
pub open spec fn segment_ok(flat: Seq<FlatView>, lay: Seq<Slot>, exit: nat) -> bool {
    &&& lay.len() == flat.len()
    &&& forall|p: int|
        0 <= p < lay.len() && lay[p].copy == 0 ==> #[trigger] base_ok(flat, lay, exit, p)
}

/// A place of a part of a pattern is the same place of the whole.
proof fn lemma_point_embed(
    lay: Seq<Slot>,
    exit: nat,
    a: int,
    sub_lay: Seq<Slot>,
    sub_exit: nat,
    q: int,
    reps: nat,
)
    requires
        0 <= a,
        a + sub_lay.len() <= lay.len(),
        lay.subrange(a, a + sub_lay.len()) == sub_lay,
        point_ok(lay, exit, a + sub_lay.len(), sub_exit),
        point_ok(sub_lay, sub_exit, q, reps),
    ensures
        point_ok(lay, exit, a + q, reps),
{
    if q < sub_lay.len() {
        assert(lay.subrange(a, a + sub_lay.len())[q] == lay[a + q]);
    }
}

/// What holds of an instruction inside a sound part of a pattern holds of it
/// inside the whole, provided the whole goes on after the part as the part
/// expects.
proof fn lemma_embed(
    flat: Seq<FlatView>,
    lay: Seq<Slot>,
    exit: nat,
    a: int,
    sub_flat: Seq<FlatView>,
    sub_lay: Seq<Slot>,
    sub_exit: nat,
    p: int,
)
    requires
        lay.len() == flat.len(),
        segment_ok(sub_flat, sub_lay, sub_exit),
        0 <= a,
        a + sub_flat.len() <= flat.len(),
        flat.subrange(a, a + sub_flat.len()) == sub_flat,
        lay.subrange(a, a + sub_lay.len()) == sub_lay,
        point_ok(lay, exit, a + sub_flat.len(), sub_exit),
        a <= p < a + sub_flat.len(),
        lay[p].copy == 0,
    ensures
        base_ok(flat, lay, exit, p),
{
    let n = sub_flat.len() as int;
    let q = p - a;
    assert(lay.subrange(a, a + n)[q] == lay[p]);
    assert(flat.subrange(a, a + n)[q] == flat[p]);
    assert(base_ok(sub_flat, sub_lay, sub_exit, q));
    let reps = lay[p].reps;
    assert forall|t: int| p <= t < p + reps implies #[trigger] lay[t] == (Slot {
        copy: (t - p) as nat,
        reps,
    }) && flat[t] == flat[p] by {
        assert(lay.subrange(a, a + n)[t - a] == lay[t]);
        assert(flat.subrange(a, a + n)[t - a] == flat[t]);
        assert(sub_lay[t - a] == Slot { copy: ((t - a) - q) as nat, reps });
    }
    assert(group_ok(flat, lay, p));
    match flat[p] {
        FlatView::Lit(_) | FlatView::Class(_) | FlatView::GroupStart | FlatView::GroupEnd => {
            lemma_point_embed(lay, exit, a, sub_lay, sub_exit, q + reps, reps);
        },
        FlatView::AlternativeLeft(off) => {
            lemma_point_embed(lay, exit, a, sub_lay, sub_exit, q + reps, reps);
            lemma_point_embed(lay, exit, a, sub_lay, sub_exit, q + off + reps, reps);
            assert(lay.subrange(a, a + n)[q + off] == lay[p + off]);
            assert(flat.subrange(a, a + n)[q + off] == flat[p + off]);
        },
        FlatView::AlternativeRight(off) => {
            lemma_point_embed(lay, exit, a, sub_lay, sub_exit, q + off, reps);
        },
        FlatView::RepetitionStart(off) => {
            lemma_point_embed(lay, exit, a, sub_lay, sub_exit, q + reps, reps + 1);
            lemma_point_embed(lay, exit, a, sub_lay, sub_exit, q + off + reps + 1, reps);
            assert(lay.subrange(a, a + n)[q + off] == lay[p + off]);
            assert(flat.subrange(a, a + n)[q + off] == flat[p + off]);
        },
        FlatView::RepetitionEnd(off) => {
            lemma_point_embed(lay, exit, a, sub_lay, sub_exit, q + reps, (reps - 1) as nat);
            assert(lay.subrange(a, a + n)[q - off] == lay[p - off]);
            assert(flat.subrange(a, a + n)[q - off] == flat[p - off]);
        },
    }
}

/// The copies of an instruction that sends the solver on to what follows
/// are sound by themselves.
proof fn lemma_single_ok(instr: FlatView, reps: nat)
    requires
        reps >= 1,
        instr is Lit || instr is Class || instr is GroupStart || instr is GroupEnd,
    ensures
        segment_ok(copies(instr, reps), slots(reps), reps),
        point_ok(slots(reps), reps, 0, reps),
{
    let flat = copies(instr, reps);
    let lay = slots(reps);
    assert forall|p: int| 0 <= p < lay.len() && lay[p].copy == 0 implies #[trigger] base_ok(
        flat,
        lay,
        reps,
        p,
    ) by {
        assert(p == 0);
    }
}

/// Two sound parts, one after the other, are sound together.
proof fn lemma_concat_ok(
    a: Seq<FlatView>,
    la: Seq<Slot>,
    b: Seq<FlatView>,
    lb: Seq<Slot>,
    reps: nat,
)
    requires
        segment_ok(a, la, reps),
        segment_ok(b, lb, reps),
        point_ok(lb, reps, 0, reps),
    ensures
        segment_ok(a + b, la + lb, reps),
        point_ok(la, reps, 0, reps) ==> point_ok(la + lb, reps, 0, reps),
{
    let flat = a + b;
    let lay = la + lb;
    assert(flat.subrange(0, a.len() as int) =~= a);
    assert(lay.subrange(0, la.len() as int) =~= la);
    assert(flat.subrange(a.len() as int, (a.len() + b.len()) as int) =~= b);
    assert(lay.subrange(la.len() as int, (la.len() + lb.len()) as int) =~= lb);
    assert forall|p: int| 0 <= p < lay.len() && lay[p].copy == 0 implies #[trigger] base_ok(
        flat,
        lay,
        reps,
        p,
    ) by {
        if p < a.len() {
            lemma_embed(flat, lay, reps, 0, a, la, reps, p);
        } else {
            lemma_embed(flat, lay, reps, a.len() as int, b, lb, reps, p);
        }
    }
}

/// A sound body between the two ends of a repetition is a sound part.
proof fn lemma_repetition_ok(body: Seq<FlatView>, body_lay: Seq<Slot>, reps: nat)
    requires
        reps >= 1,
        segment_ok(body, body_lay, reps + 1),
        point_ok(body_lay, reps + 1, 0, reps + 1),
    ensures
        segment_ok(
            copies(FlatView::RepetitionStart(reps + body.len()), reps) + body + copies(
                FlatView::RepetitionEnd(reps + body.len()),
                reps + 1,
            ),
            slots(reps) + body_lay + slots(reps + 1),
            reps,
        ),
{
    let off = reps + body.len();
    let flat = copies(FlatView::RepetitionStart(off), reps) + body + copies(
        FlatView::RepetitionEnd(off),
        reps + 1,
    );
    let lay = slots(reps) + body_lay + slots(reps + 1);
    assert(flat.subrange(reps as int, (reps + body.len()) as int) =~= body);
    assert(lay.subrange(reps as int, (reps + body_lay.len()) as int) =~= body_lay);
    assert(lay[off as int] == Slot { copy: 0, reps: reps + 1 });
    assert forall|p: int| 0 <= p < lay.len() && lay[p].copy == 0 implies #[trigger] base_ok(
        flat,
        lay,
        reps,
        p,
    ) by {
        if p < reps {
            assert(p == 0);
            assert(group_ok(flat, lay, p));
        } else if p < off {
            lemma_embed(flat, lay, reps, reps as int, body, body_lay, reps + 1, p);
        } else {
            assert(p == off);
            assert(group_ok(flat, lay, p));
        }
    }
}

/// Two sound branches behind the two marks of an alternative are a sound
/// part.
proof fn lemma_alternative_ok(
    left: Seq<FlatView>,
    left_lay: Seq<Slot>,
    right: Seq<FlatView>,
    right_lay: Seq<Slot>,
    reps: nat,
)
    requires
        reps >= 1,
        segment_ok(left, left_lay, reps),
        point_ok(left_lay, reps, 0, reps),
        segment_ok(right, right_lay, reps),
        point_ok(right_lay, reps, 0, reps),
    ensures
        segment_ok(
            copies(FlatView::AlternativeLeft(reps + left.len()), reps) + left + copies(
                FlatView::AlternativeRight(reps + right.len()),
                reps,
            ) + right,
            slots(reps) + left_lay + slots(reps) + right_lay,
            reps,
        ),
{
    let left_off = reps + left.len();
    let right_off = reps + right.len();
    let flat = copies(FlatView::AlternativeLeft(left_off), reps) + left + copies(
        FlatView::AlternativeRight(right_off),
        reps,
    ) + right;
    let lay = slots(reps) + left_lay + slots(reps) + right_lay;
    assert(flat.subrange(reps as int, (reps + left.len()) as int) =~= left);
    assert(lay.subrange(reps as int, (reps + left_lay.len()) as int) =~= left_lay);
    assert(flat.subrange((left_off + reps) as int, (left_off + reps + right.len()) as int) =~= right);
    assert(lay.subrange((left_off + reps) as int, (left_off + reps + right_lay.len()) as int) =~= right_lay);
    assert(lay[left_off as int] == Slot { copy: 0, reps });
    assert forall|p: int| 0 <= p < lay.len() && lay[p].copy == 0 implies #[trigger] base_ok(
        flat,
        lay,
        reps,
        p,
    ) by {
        if p < reps {
            assert(p == 0);
            assert(group_ok(flat, lay, p));
        } else if p < left_off {
            lemma_embed(flat, lay, reps, reps as int, left, left_lay, reps, p);
        } else if p < left_off + reps {
            assert(p == left_off);
            assert(group_ok(flat, lay, p));
        } else {
            lemma_embed(flat, lay, reps, (left_off + reps) as int, right, right_lay, reps, p);
        }
    }
}

/// The instructions for one element are sound, and begin with the first
/// copy of an instruction.
pub proof fn lemma_layout_element(e: CoreElementView, reps: nat)
    requires
        reps >= 1,
    ensures
        segment_ok(flatten_element(e, reps, 1), layout_element(e, reps), reps),
        layout_element(e, reps).len() >= 1,
        layout_element(e, reps)[0] == (Slot { copy: 0, reps }),
    decreases e,
{
    match e {
        CoreElementView::Match(m) => {
            lemma_single_ok(crate::flat_pattern::flat_match(m), reps);
        },
        CoreElementView::Capture(p) => {
            lemma_layout_elements(p, reps);
            lemma_single_ok(FlatView::GroupStart, reps);
            lemma_single_ok(FlatView::GroupEnd, reps);
            let body = flatten_elements(p, reps, 1);
            let body_lay = layout_elements(p, reps);
            lemma_concat_ok(copies(FlatView::GroupStart, reps), slots(reps), body, body_lay, reps);
            lemma_concat_ok(
                copies(FlatView::GroupStart, reps) + body,
                slots(reps) + body_lay,
                copies(FlatView::GroupEnd, reps),
                slots(reps),
                reps,
            );
        },
        CoreElementView::Repetition(p) => {
            lemma_layout_elements(p, reps + 1);
            lemma_repetition_ok(flatten_elements(p, reps + 1, 1), layout_elements(p, reps + 1), reps);
        },
        CoreElementView::Alternative(p, q) => {
            lemma_layout_elements(p, reps);
            lemma_layout_elements(q, reps);
            lemma_alternative_ok(
                flatten_elements(p, reps, 1),
                layout_elements(p, reps),
                flatten_elements(q, reps, 1),
                layout_elements(q, reps),
                reps,
            );
        },
    }
}

/// The instructions for a sequence of elements are sound, and begin with
/// the first copy of an instruction where there is any.
pub proof fn lemma_layout_elements(s: Seq<CoreElementView>, reps: nat)
    requires
        reps >= 1,
    ensures
        segment_ok(flatten_elements(s, reps, 1), layout_elements(s, reps), reps),
        point_ok(layout_elements(s, reps), reps, 0, reps),
    decreases s,
{
    if s.len() > 0 {
        lemma_layout_elements(s.drop_last(), reps);
        lemma_layout_element(s.last(), reps);
        lemma_concat_ok(
            flatten_elements(s.drop_last(), reps, 1),
            layout_elements(s.drop_last(), reps),
            flatten_element(s.last(), reps, 1),
            layout_element(s.last(), reps),
            reps,
        );
    }
}

} // verus!
