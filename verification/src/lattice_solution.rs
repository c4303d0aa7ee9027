//! The solver: a walk through the lattice that leaves in every node the best
//! score from there to the last index, and the step that reaches it.
//!
//! The walk keeps no call stack of its own. What a recursive search would
//! hold on the stack lies in the nodes: the node that first came to a node, the
//! steps still to be tried, and the best step found so far.

use vstd::prelude::*;
use crate::{step_view, trace_view, Atoms, ElementCore, Match, MatchView, Pattern, Step};
use crate::alignment::{best_of_alignments, lemma_best_of_alignments};
use crate::config::{lattice_of, lemma_lattice_wf, LatticeConfig};
use crate::error::Error;
use crate::flat_pattern::{flatten_elements, Flat, FlatPattern, FlatView};
use crate::lattice::{
    char_view,
    flat_view,
    step_cost,
    step_fits,
    step_spec,
    step_types_of,
    Ix,
    Lattice,
    NodeType,
    StepType,
};
use crate::node::{debug_ix, Node, NodeView};
use crate::optimum::{trace_matches, trace_skips, trace_text, walk_cost};
use crate::search::{at, lemma_moved_fresh, moved, node_ok, search_ok, table_ok, works};

verus! {

/// The most steps that the solver takes before it gives up.
pub const MAX_STEPS: usize = 1000000000;

/// The place in a store of the node for `ix`, in a store that keeps `width`
/// places for each position in the text.
pub open spec fn slot_of(width: nat, ix: Ix) -> int {
    ix.text * width + ix.pattern + ix.rep_off
}

/// A store of nodes, one for each index of a lattice.
///
/// The store may hold the nodes side by side, or only those that the solver
/// has come to: to the solver both look the same.
pub trait LatticeState<C: LatticeConfig>: Sized {
    /// The nodes, each at the place of its index.
    spec fn nodes(&self) -> Seq<NodeView>;

    /// The number of places that the store keeps for each position in the
    /// text.
    spec fn width(&self) -> nat;

    /// A store in which every node is ready.
    fn new(conf: &C) -> (state: Self)
        requires
            conf.lattice().size() <= usize::MAX,
        ensures
            state.width() == conf.lattice().flat.len() + 1,
            state.nodes().len() == conf.lattice().size(),
            forall|i: int| 0 <= i < state.nodes().len() ==> state.nodes()[i] == NodeView::fresh(),
    ;

    /// The node for `ix`.
    fn get(&self, ix: Ix) -> (node: &Node)
        requires
            slot_of(self.width(), ix) < self.nodes().len(),
        ensures
            node@ == self.nodes()[slot_of(self.width(), ix)],
    ;

    /// The node for `ix`, to be changed.
    fn get_mut(&mut self, ix: Ix) -> (node: &mut Node)
        requires
            slot_of(old(self).width(), ix) < old(self).nodes().len(),
        ensures
            node@ == old(self).nodes()[slot_of(old(self).width(), ix)],
            final(self).nodes() == old(self).nodes().update(
                slot_of(old(self).width(), ix),
                final(node)@,
            ),
            final(self).width() == old(self).width(),
    ;
}

/// Where the solver stands: on its way down to an index from the index
/// before it, or on its way back to an index from one that it has left done.
#[derive(Clone, Copy, Debug)]
enum LoopState {
    Down(Down),
    Back(Back),
}

#[derive(Clone, Copy, Debug)]
struct Down {
    parent: Ix,
    current: Ix,
}

#[derive(Clone, Copy, Debug)]
struct Back {
    current: Ix,
    child: Ix,
}

impl LoopState {
    fn current(&self) -> (ix: Ix)
        ensures
            ix == match *self {
                LoopState::Down(down) => down.current,
                LoopState::Back(back) => back.current,
            },
    {
        match self {
            LoopState::Down(down) => down.current,
            LoopState::Back(back) => back.current,
        }
    }
}

/// Whether the place where the solver stands fits the path of working nodes:
/// on its way down it is about to come to the index that the last node of the
/// path is trying, and that node is not working; on its way back it comes
/// with that index done.
spec fn cursor_ok(
    lat: Lattice,
    nodes: Seq<NodeView>,
    width: nat,
    stack: Seq<Ix>,
    loop_state: LoopState,
) -> bool {
    match loop_state {
        LoopState::Down(down) => {
            &&& lat.valid(down.current)
            &&& !works(nodes, width, down.current)
            &&& stack.len() == 0 ==> down.current == lat.start() && at(
                nodes,
                width,
                down.current,
            ).is_ready()
            &&& stack.len() > 0 ==> down.parent == stack.last() && down.current == step_spec(
                stack.last(),
                at(nodes, width, stack.last()).trying(),
            )
        },
        LoopState::Back(back) => {
            &&& stack.len() > 0
            &&& back.current == stack.last()
            &&& back.child == step_spec(stack.last(), at(nodes, width, stack.last()).trying())
            &&& lat.valid(back.child)
            &&& at(nodes, width, back.child).is_done()
        },
    }
}

/// One move that is counted for the last node of the path but not made yet:
/// the move down to the index that the node is trying.
spec fn pending(loop_state: LoopState, stack: Seq<Ix>) -> nat {
    match loop_state {
        LoopState::Down(_) => if stack.len() > 0 {
            1
        } else {
            0
        },
        LoopState::Back(_) => 0,
    }
}

/// The move by which the solver came to the first index, once it has made
/// it.
spec fn started(lat: Lattice, nodes: Seq<NodeView>, width: nat) -> nat {
    if at(nodes, width, lat.start()).current > 0 {
        1
    } else {
        0
    }
}

/// What holds between two moves of the solver, after `counter` moves.
#[verifier::opaque]
spec fn loop_ok(
    lat: Lattice,
    nodes: Seq<NodeView>,
    width: nat,
    stack: Seq<Ix>,
    loop_state: LoopState,
    counter: nat,
) -> bool {
    &&& search_ok(lat, nodes, width, stack)
    &&& cursor_ok(lat, nodes, width, stack, loop_state)
    &&& counter + pending(loop_state, stack) == started(lat, nodes, width) + moved(nodes)
    &&& !at(nodes, width, lat.start()).is_done()
}

/// What holds once the node of the first index is done, after `counter`
/// moves.
spec fn finished(lat: Lattice, nodes: Seq<NodeView>, width: nat, counter: nat) -> bool {
    &&& table_ok(lat, nodes, width)
    &&& at(nodes, width, lat.start()).is_done()
    &&& forall|x: Ix| lat.valid(x) ==> !#[trigger] works(nodes, width, x)
    &&& counter == lat.moves_needed()
}

/// What holds after a move has changed the store, and before the solver
/// has decided where to go next: the node that it stands on is working, and
/// it will go down from there; or the node is done, and it will go back to
/// `new_parent`, or stop if the node is that of the first index.
spec fn moved_on(
    lat: Lattice,
    nodes: Seq<NodeView>,
    width: nat,
    stack: Seq<Ix>,
    current: Ix,
    new_parent: Ix,
    counter: nat,
) -> bool {
    let node = at(nodes, width, current);
    &&& 0 <= slot_of(width, current) < nodes.len()
    &&& if node.is_done() {
        if current == lat.start() {
            finished(lat, nodes, width, counter)
        } else {
            loop_ok(
                lat,
                nodes,
                width,
                stack,
                LoopState::Back(Back { current: new_parent, child: current }),
                counter,
            )
        }
    } else {
        &&& node.is_working()
        &&& step_fits(current, node.trying())
        &&& loop_ok(
            lat,
            nodes,
            width,
            stack,
            LoopState::Down(Down { parent: current, current: step_spec(current, node.trying()) }),
            counter,
        )
    }
}

/// Before its first move the solver stands above the first index, and
/// every node is ready.
proof fn lemma_loop_start(lat: Lattice, nodes: Seq<NodeView>, width: nat, parent: Ix)
    requires
        lat.wf(),
        width == lat.flat.len() + 1,
        nodes.len() == lat.size(),
        forall|i: int| 0 <= i < nodes.len() ==> nodes[i] == NodeView::fresh(),
    ensures
        loop_ok(
            lat,
            nodes,
            width,
            Seq::empty(),
            LoopState::Down(Down { parent, current: lat.start() }),
            0,
        ),
{
    reveal(loop_ok);
    lat.lemma_end(lat.start());
    lemma_moved_fresh(nodes);
    assert forall|ix: Ix| lat.valid(ix) implies #[trigger] node_ok(lat, nodes, width, ix) by {
        lat.lemma_slot(ix);
    }
    assert forall|ix: Ix| lat.valid(ix) implies !#[trigger] works(nodes, width, ix) by {
        lat.lemma_slot(ix);
    }
    lat.lemma_slot(lat.start());
}

/// What the solver may rely on when it makes its next move: the nodes that
/// it reads have places in the store, the score that it takes in on its way
/// back leaves room for one more, and the moves that the solver needs in all
/// are more than it has made.
proof fn lemma_before_move(
    lat: Lattice,
    nodes: Seq<NodeView>,
    width: nat,
    stack: Seq<Ix>,
    loop_state: LoopState,
    counter: nat,
)
    requires
        loop_ok(lat, nodes, width, stack, loop_state, counter),
    ensures
        lat.wf(),
        counter + 1 <= lat.moves_needed(),
        nodes.len() == lat.size(),
        match loop_state {
            LoopState::Down(down) => {
                &&& 0 <= slot_of(width, down.current) < nodes.len()
                &&& lat.valid(down.current)
                &&& lat.node_type(down.current) is None ==> down.current == lat.end()
            },
            LoopState::Back(back) => {
                &&& 0 <= slot_of(width, back.current) < nodes.len()
                &&& 0 <= slot_of(width, back.child) < nodes.len()
                &&& at(nodes, width, back.child).is_done()
                &&& at(nodes, width, back.child).score < usize::MAX
                &&& at(nodes, width, back.current).is_working()
                &&& at(nodes, width, back.current).current < usize::MAX
            },
        },
{
    reveal(loop_ok);
    let start = lat.start();
    lat.lemma_end(start);
    lat.lemma_moved_so_far(nodes, width, start);
    if stack.len() > 0 {
        assert(lat.valid(stack[0]) && works(nodes, width, stack[0]));
    }
    match loop_state {
        LoopState::Down(down) => {
            lat.lemma_slot(down.current);
            lat.lemma_end(down.current);
        },
        LoopState::Back(back) => {
            lat.lemma_trying(nodes, width, stack);
            assert(lat.valid(stack[stack.len() - 1]));
            lat.lemma_slot(back.current);
            lat.lemma_slot(back.child);
            assert(node_ok(lat, nodes, width, back.child));
            assert(node_ok(lat, nodes, width, back.current));
            lat.lemma_done_score(nodes, width, back.child);
            lat.lemma_bound(back.child);
            lat.lemma_steps_len(back.current);
        },
    }
}

/// The solver has nowhere to go but down from a node that is working.
proof fn lemma_go_down(lat: Lattice, nodes: Seq<NodeView>, width: nat, stack: Seq<Ix>, counter: nat)
    requires
        search_ok(lat, nodes, width, stack),
        stack.len() > 0,
        counter + 1 == started(lat, nodes, width) + moved(nodes),
    ensures
        moved_on(lat, nodes, width, stack, stack.last(), stack.last(), counter),
{
    reveal(loop_ok);
    let top = stack.last();
    lat.lemma_trying(nodes, width, stack);
    assert(lat.valid(stack[stack.len() - 1]));
    lat.lemma_slot(top);
    assert(lat.valid(stack[0]) && works(nodes, width, stack[0]));
}

/// The solver has come down to a node that was ready, and has set it to
/// work or, at the last index, left it done.
proof fn lemma_move_down_ready(
    lat: Lattice,
    nodes: Seq<NodeView>,
    width: nat,
    stack: Seq<Ix>,
    down: Down,
    node: NodeView,
    counter: nat,
)
    requires
        loop_ok(lat, nodes, width, stack, LoopState::Down(down), counter),
        at(nodes, width, down.current).is_ready(),
        match lat.node_type(down.current) {
            Some(node_type) => node == (NodeView {
                current: 1,
                parent: down.parent,
                step_types: step_types_of(node_type),
                ..at(nodes, width, down.current)
            }),
            None => node == (NodeView {
                current: 1,
                parent: down.parent,
                ..at(nodes, width, down.current)
            }),
        },
    ensures
        moved_on(
            lat,
            nodes.update(slot_of(width, down.current), node),
            width,
            if node.is_working() {
                stack.push(down.current)
            } else {
                stack
            },
            down.current,
            down.parent,
            counter + 1,
        ),
{
    reveal(loop_ok);
    let ix = down.current;
    let after = nodes.update(slot_of(width, ix), node);
    lat.lemma_slot(ix);
    lat.lemma_slot(lat.start());
    lat.lemma_end(ix);
    assert(node_ok(lat, nodes, width, ix));
    if stack.len() > 0 {
        assert(lat.valid(stack[0]) && works(nodes, width, stack[0]));
        assert(lat.valid(stack[stack.len() - 1]) && works(nodes, width, stack[stack.len() - 1]));
        lat.lemma_slots_differ(lat.start(), ix);
    }
    if lat.steps(ix).len() > 0 {
        lat.lemma_enter(nodes, width, stack, ix, node);
        lemma_go_down(lat, after, width, stack.push(ix), counter + 1);
    } else {
        lat.lemma_enter_end(nodes, width, stack, ix, node);
        if ix == lat.start() {
            assert forall|x: Ix| lat.valid(x) implies !#[trigger] works(after, width, x) by {
                if works(after, width, x) {
                    assert(stack.contains(x));
                }
            }
            lat.lemma_moved_at_last(after, width);
        } else {
            assert(at(after, width, stack.last()) == at(nodes, width, stack.last()));
            assert(at(after, width, lat.start()) == at(nodes, width, lat.start()));
        }
    }
}

/// The solver has come down to a node that is done already, and turns
/// back.
proof fn lemma_move_down_done(
    lat: Lattice,
    nodes: Seq<NodeView>,
    width: nat,
    stack: Seq<Ix>,
    down: Down,
    counter: nat,
)
    requires
        loop_ok(lat, nodes, width, stack, LoopState::Down(down), counter),
        !at(nodes, width, down.current).is_ready(),
    ensures
        moved_on(lat, nodes, width, stack, down.current, down.parent, counter + 1),
{
    reveal(loop_ok);
    lat.lemma_slot(down.current);
    assert(lat.valid(stack[0]) && works(nodes, width, stack[0]));
}

/// The solver has come back to the last node of the path, and the node
/// has taken in the score of the index that it was trying.
proof fn lemma_move_back(
    lat: Lattice,
    nodes: Seq<NodeView>,
    width: nat,
    stack: Seq<Ix>,
    back: Back,
    node: NodeView,
    counter: nat,
)
    requires
        loop_ok(lat, nodes, width, stack, LoopState::Back(back), counter),
        ({
            let old = at(nodes, width, back.current);
            let new_score = at(nodes, width, back.child).score;
            node == (if old.current <= 1 || new_score + step_cost(old.trying()) < old.score {
                NodeView {
                    current: (old.current + 1) as usize,
                    step_type: old.trying(),
                    score: (new_score + step_cost(old.trying())) as usize,
                    next: back.child,
                    ..old
                }
            } else {
                NodeView { current: (old.current + 1) as usize, ..old }
            })
        }),
    ensures
        moved_on(
            lat,
            nodes.update(slot_of(width, back.current), node),
            width,
            if node.is_done() {
                stack.drop_last()
            } else {
                stack
            },
            back.current,
            at(nodes, width, back.current).parent,
            counter + 1,
        ),
{
    reveal(loop_ok);
    let top = back.current;
    let after = nodes.update(slot_of(width, top), node);
    lat.lemma_update(nodes, width, stack, node);
    assert(lat.valid(stack[stack.len() - 1]) && works(nodes, width, stack[stack.len() - 1]));
    assert(lat.valid(stack[0]) && works(nodes, width, stack[0]));
    lat.lemma_slot(top);
    lat.lemma_slot(lat.start());
    if node.is_done() {
        if top == lat.start() {
            assert forall|x: Ix| lat.valid(x) implies !#[trigger] works(after, width, x) by {
                if works(after, width, x) {
                    assert(stack.drop_last().contains(x));
                }
            }
            lat.lemma_moved_at_last(after, width);
        } else {
            let path = stack.drop_last();
            assert(lat.valid(path[0]) && works(after, width, path[0]));
            assert(lat.valid(path[path.len() - 1]));
            assert(path[path.len() - 1] == stack[stack.len() - 2]);
        }
    } else {
        lemma_go_down(lat, after, width, stack, counter + 1);
    }
}

/// What [`solve_ix`] leaves: a store in which the node of the first index is
/// done and no node is working, where the moves that the solver needs are
/// fewer than [`MAX_STEPS`], and else the error that tells that the solver
/// gave up.
///
/// In such a store every node is ready or done, and a node that is done
/// holds the least of what its steps cost together with the scores of the
/// nodes that they lead to, which are done too, and the first step that
/// reaches the least.
pub open spec fn searched(lat: Lattice, nodes: Seq<NodeView>, width: nat, r: Result<(), Error>)
    -> bool {
    match r {
        Ok(()) => {
            &&& table_ok(lat, nodes, width)
            &&& at(nodes, width, lat.start()).is_done()
            &&& forall|x: Ix| lat.valid(x) ==> !#[trigger] works(nodes, width, x)
            &&& lat.moves_needed() < MAX_STEPS
        },
        Err(e) => e == Error::ExceededMaxSteps(MAX_STEPS) && lat.moves_needed() >= MAX_STEPS,
    }
}

/// Fills the store with the best steps from the first index on.
///
/// The solver goes down from an index to the index that its step on trial
/// leads to, and comes back with that index's best score once the index is
/// done. Every move changes one node at most.
pub fn solve_ix<C: LatticeConfig, S: LatticeState<C>>(conf: &C, state: &mut S) -> (r: Result<
    (),
    Error,
>)
    requires
        conf.lattice().wf(),
        old(state).width() == conf.lattice().flat.len() + 1,
        old(state).nodes().len() == conf.lattice().size(),
        forall|i: int|
            0 <= i < old(state).nodes().len() ==> old(state).nodes()[i] == NodeView::fresh(),
    ensures
        final(state).width() == old(state).width(),
        final(state).nodes().len() == old(state).nodes().len(),
        searched(conf.lattice(), final(state).nodes(), final(state).width(), r),
{
    let start_ix = conf.start();
    let end_ix = conf.end();

    let mut loop_state = LoopState::Down(Down { parent: Default::default(), current: start_ix });

    let mut loop_counter: usize = 0;
    let ghost lat = conf.lattice();
    let ghost width = state.width();
    let ghost total = state.nodes().len();
    let ghost mut stack: Seq<Ix> = Seq::empty();
    proof {
        lemma_loop_start(lat, state.nodes(), width, Ix { pattern: 0, text: 0, reps: 0, rep_off: 0 });
    }

    loop
        invariant
            lat == conf.lattice(),
            start_ix == lat.start(),
            end_ix == lat.end(),
            state.width() == width,
            width == old(state).width(),
            state.nodes().len() == total,
            total == old(state).nodes().len(),
            loop_ok(lat, state.nodes(), width, stack, loop_state, loop_counter as nat),
            loop_counter < MAX_STEPS,
        decreases MAX_STEPS - loop_counter,
    {
        proof {
            lemma_before_move(lat, state.nodes(), width, stack, loop_state, loop_counter as nat);
        }
        loop_counter += 1;
        if loop_counter >= MAX_STEPS {
            return Err(Error::ExceededMaxSteps(loop_counter));
        }
        let ghost before = state.nodes();
        let ghost path = stack;
        let new_parent = match &loop_state {
            LoopState::Down(down) => {
                if state.get(down.current).is_ready() {
                    let (flat, text) = conf.get(down.current);
                    let opt_node_type = NodeType::get(flat, text, &down.current);
                    let node_state = state.get_mut(down.current);
                    node_state.initialise(end_ix, down.parent, down.current, opt_node_type)?;
                    proof {
                        let node = at(state.nodes(), width, down.current);
                        assert(state.nodes() == before.update(slot_of(width, down.current), node));
                        lemma_move_down_ready(
                            lat,
                            before,
                            width,
                            path,
                            *down,
                            node,
                            (loop_counter - 1) as nat,
                        );
                        if node.is_working() {
                            stack = path.push(down.current);
                        }
                    }
                } else {
                    proof {
                        lemma_move_down_done(
                            lat,
                            before,
                            width,
                            path,
                            *down,
                            (loop_counter - 1) as nat,
                        );
                    }
                }
                down.parent
            },
            LoopState::Back(back) => {
                let new_child = back.child;
                let (new_score, _, _) = state.get(new_child).done_info()?;
                let node_state = state.get_mut(back.current);
                let new_parent = node_state.update(new_child, back.current, new_score)?;
                proof {
                    let node = at(state.nodes(), width, back.current);
                    assert(state.nodes() == before.update(slot_of(width, back.current), node));
                    lemma_move_back(
                        lat,
                        before,
                        width,
                        path,
                        *back,
                        node,
                        (loop_counter - 1) as nat,
                    );
                    if node.is_done() {
                        stack = path.drop_last();
                    }
                }
                new_parent
            },
        };

        let current_ix = loop_state.current();
        assert(moved_on(
            lat,
            state.nodes(),
            width,
            stack,
            current_ix,
            new_parent,
            loop_counter as nat,
        ));
        let final_state = state.get(current_ix);
        if current_ix == start_ix && final_state.is_done() {
            return Ok(());
        } else if final_state.is_done() {
            loop_state = LoopState::Back(Back { current: new_parent, child: current_ix });
        } else if final_state.is_working() {
            let current_step_type = final_state.current_step_type()?;
            let child = conf.step(current_ix, current_step_type);
            loop_state = LoopState::Down(Down { parent: current_ix, current: child });
        } else {
            return Err(Error::NoNodeProgress(debug_ix(&current_ix)));
        }
    }
}

/// What the pattern asks where the instruction is `flat`, for a literal or a
/// class.
pub open spec fn match_of(flat: Option<FlatView>) -> Option<MatchView> {
    match flat {
        Some(FlatView::Lit(c)) => Some(MatchView::Lit(c)),
        Some(FlatView::Class(ranges)) => Some(MatchView::Class(ranges)),
        _ => None,
    }
}

/// The step of the trace that `mark` stands for where the instruction is
/// `flat` and the character is `text`; none where the step needs a side that
/// is missing.
pub open spec fn fill(mark: Step<(), ()>, flat: Option<FlatView>, text: Option<char>) -> Option<
    Step<MatchView, char>,
> {
    match mark {
        Step::Hit(_, _) => match (match_of(flat), text) {
            (Some(m), Some(c)) => Some(Step::Hit(m, c)),
            _ => None,
        },
        Step::SkipPattern(_) => match match_of(flat) {
            Some(m) => Some(Step::SkipPattern(m)),
            None => None,
        },
        Step::SkipText(_) => match text {
            Some(c) => Some(Step::SkipText(c)),
            None => None,
        },
        Step::StartCapture => Some(Step::StartCapture),
        Step::StopCapture => Some(Step::StopCapture),
    }
}

/// The view of a step that may be missing.
pub open spec fn option_step_view(step: Option<Step<Match, char>>) -> Option<Step<MatchView, char>> {
    match step {
        Some(s) => Some(step_view(s)),
        None => None,
    }
}

/// What the pattern asks at an instruction, for a literal or a class.
fn trace_patt(patt: Option<&Flat>) -> (m: Option<Match>)
    ensures
        match m {
            Some(m) => Some(m@),
            None => None,
        } == match_of(flat_view(patt)),
{
    match patt {
        Some(Flat::Lit(c)) => Some(Match::Lit(*c)),
        Some(Flat::Class(c)) => Some(Match::Class(c.clone())),
        _ => None,
    }
}

/// The step of the trace for `mark`, with the instruction and the character
/// of the index at which the step is taken filled in.
fn final_step(mark: Step<(), ()>, patt: Option<&Flat>, text: Option<&char>) -> (step: Option<
    Step<Match, char>,
>)
    ensures
        option_step_view(step) == fill(mark, flat_view(patt), char_view(text)),
{
    match mark {
        Step::Hit(_, _) => match (trace_patt(patt), text) {
            (Some(m), Some(c)) => Some(Step::Hit(m, *c)),
            _ => None,
        },
        Step::SkipPattern(_) => match trace_patt(patt) {
            Some(m) => Some(Step::SkipPattern(m)),
            None => None,
        },
        Step::SkipText(_) => match text {
            Some(c) => Some(Step::SkipText(*c)),
            None => None,
        },
        Step::StartCapture => Some(Step::StartCapture),
        Step::StopCapture => Some(Step::StopCapture),
    }
}

/// A step that leads on from an index finds there the sides that it needs
/// for the trace.
proof fn lemma_fill(lat: Lattice, ix: Ix, j: int)
    requires
        0 <= j < lat.steps(ix).len(),
    ensures
        lat.emit(ix, lat.steps(ix)[j]) == (match crate::lattice::step_mark(lat.steps(ix)[j]) {
            Some(mark) => fill(mark, lat.flat_at(ix), lat.text_at(ix)),
            None => None,
        }),
        crate::lattice::step_mark(lat.steps(ix)[j]) is Some ==> lat.emit(
            ix,
            lat.steps(ix)[j],
        ) is Some,
{
}

/// A store of `rows` rows of `width` places each has at least as many places
/// as one row and one column hold together.
pub(crate) proof fn lemma_rows(rows: int, width: int)
    by (nonlinear_arith)
    requires
        rows >= 1,
        width >= 1,
    ensures
        rows * width >= rows + width - 1,
{
}

/// A solution of a problem: the score and the trace of the best alignment
/// of the problem's pattern with its text. Its kind says where the solver
/// keeps its nodes.
pub trait LatticeSolution: Sized {
    /// What the solver reads of the problem.
    type Conf: LatticeConfig;

    /// Where the solver keeps its nodes.
    type State: LatticeState<Self::Conf>;

    /// The score of the alignment.
    spec fn score_view(&self) -> usize;

    /// The trace of the alignment.
    spec fn trace_view(&self) -> Seq<Step<MatchView, char>>;

    fn new(score: usize, trace: Vec<Step<Match, char>>) -> (solution: Self)
        ensures
            solution.score_view() == score,
            solution.trace_view() == trace_view(trace@),
    ;

    fn score_lattice(&self) -> (score: &usize)
        ensures
            *score == self.score_view(),
    ;

    fn trace_lattice(&self) -> (trace: &Vec<Step<Match, char>>)
        ensures
            trace_view(trace@) == self.trace_view(),
    ;
}

/// The score and the trace of a solution, or the error in its place.
pub open spec fn outcome<Sln: LatticeSolution>(r: Result<Sln, Error>) -> Result<
    (usize, Seq<Step<MatchView, char>>),
    Error,
> {
    match r {
        Ok(solution) => Ok((solution.score_view(), solution.trace_view())),
        Err(e) => Err(e),
    }
}

/// What a solver owes for the lattice `lat`: the best score from the first
/// index and the trace of the best alignment, where the moves that the solver
/// needs are fewer than [`MAX_STEPS`], and else the error that tells that it
/// gave up.
pub open spec fn solved(lat: Lattice, r: Result<(usize, Seq<Step<MatchView, char>>), Error>)
    -> bool {
    match r {
        Ok((score, trace)) => score == lat.opt(lat.start()) && trace == lat.opt_trace(lat.start())
            && lat.moves_needed() < MAX_STEPS,
        Err(e) => e == Error::ExceededMaxSteps(MAX_STEPS) && lat.moves_needed() >= MAX_STEPS,
    }
}

/// What holds of the score and the trace of the best alignment: the score
/// is the number of skipped characters in the trace; the trace holds every
/// character of the text once, in order, and every literal and class that
/// its walk goes past; the trace is that of a walk through the lattice from
/// the first index to the last; and no such walk costs less than the score.
pub open spec fn best_alignment(lat: Lattice, score: usize, trace: Seq<Step<MatchView, char>>)
    -> bool {
    &&& 0 <= score
    &&& score == trace_skips(trace)
    &&& trace_text(trace) == lat.text
    &&& trace_matches(trace) == lat.passed(lat.start(), lat.opt_steps(lat.start()))
    &&& lat.walk_ok(lat.start(), lat.opt_steps(lat.start()))
    &&& trace == lat.walk_trace(lat.start(), lat.opt_steps(lat.start()))
    &&& forall|steps: Seq<StepType>| #[trigger]
        lat.walk_ok(lat.start(), steps) ==> score <= walk_cost(steps)
}

/// The score and the trace that a solver owes are those of the best
/// alignment.
pub proof fn lemma_solved(lat: Lattice, score: usize, trace: Seq<Step<MatchView, char>>)
    requires
        lat.wf(),
        solved(lat, Ok((score, trace))),
    ensures
        best_alignment(lat, score, trace),
{
    let start = lat.start();
    lat.lemma_end(start);
    lat.lemma_opt_walk(start);
    lat.lemma_walk_skips(start, lat.opt_steps(start));
    lat.lemma_walk_text(start, lat.opt_steps(start));
    lat.lemma_walk_matches(start, lat.opt_steps(start));
    assert(lat.text.subrange(0, lat.text.len() as int) =~= lat.text);
    assert forall|steps: Seq<StepType>| #[trigger] lat.walk_ok(start, steps) implies score
        <= walk_cost(steps) by {
        lat.lemma_optimal(start, steps);
    }
}

/// Two outcomes of solving the same problem are both an alignment, with
/// the same score and the same trace, or both the same error.
pub proof fn lemma_deterministic(
    lat: Lattice,
    one: Result<(usize, Seq<Step<MatchView, char>>), Error>,
    other: Result<(usize, Seq<Step<MatchView, char>>), Error>,
)
    requires
        solved(lat, one),
        solved(lat, other),
    ensures
        one is Ok <==> other is Ok,
        one is Ok ==> one->Ok_0 == other->Ok_0,
        one is Err ==> one->Err_0 == other->Err_0,
{
}

/// Whether the lattice of `pattern` and `text` has a number of indices
/// that the machine can count: only then can a store hold its nodes.
pub fn fits(pattern: &Pattern<ElementCore>, text: &Atoms) -> (b: bool)
    ensures
        b == ((text@.len() + 1) * (flatten_elements(pattern@, 1, 1).len() + 1) <= usize::MAX),
{
    let flat = FlatPattern::custom(pattern, 1);
    let width = match flat.len().checked_add(1) {
        Some(width) => width,
        None => {
            proof {
                lemma_rows((text@.len() + 1) as int, (flat@.len() + 1) as int);
            }
            return false;
        },
    };
    let rows = match text.atoms.len().checked_add(1) {
        Some(rows) => rows,
        None => {
            proof {
                lemma_rows((text@.len() + 1) as int, (flat@.len() + 1) as int);
            }
            return false;
        },
    };
    rows.checked_mul(width).is_some()
}

/// The best alignment of `pattern` with `text`, as a solution of the kind
/// `Sln`.
pub fn solve_lattice<Sln: LatticeSolution>(pattern: &Pattern<ElementCore>, text: &Atoms) -> (r:
    Result<Sln, Error>)
    requires
        (text@.len() + 1) * (flatten_elements(pattern@, 1, 1).len() + 1) <= usize::MAX,
    ensures
        solved(lattice_of(pattern@, text@), outcome(r)),
        r matches Ok(solution) ==> best_alignment(
            lattice_of(pattern@, text@),
            solution.score_view(),
            solution.trace_view(),
        ),
        r matches Ok(solution) ==> best_of_alignments(
            pattern@,
            text@,
            solution.score_view(),
            solution.trace_view(),
        ),
{
    let conf = Sln::Conf::new(pattern, text);
    let ghost lat = conf.lattice();
    proof {
        lemma_rows((text@.len() + 1) as int, (flatten_elements(pattern@, 1, 1).len() + 1) as int);
        lemma_lattice_wf(pattern@, text@);
    }
    let mut state = Sln::State::new(&conf);
    let ghost width = state.width();

    let start_ix = conf.start();
    let end_ix = conf.end();

    solve_ix(&conf, &mut state)?;

    proof {
        lat.lemma_end(start_ix);
        lat.lemma_slot(start_ix);
        assert(node_ok(lat, state.nodes(), width, start_ix));
        lat.lemma_done_score(state.nodes(), width, start_ix);
    }
    let start_node = state.get(start_ix);
    let score = match start_node.done_info() {
        Ok(info) => info.0,
        Err(_) => {
            return Err(Error::IncompleteFinalState);
        },
    };

    let mut trace: Vec<Step<Match, char>> = Vec::new();
    let mut from = start_ix;
    assert(trace_view(trace@) + lat.opt_trace(from) =~= lat.opt_trace(start_ix));
    loop
        invariant
            lat == conf.lattice(),
            lat.wf(),
            start_ix == lat.start(),
            end_ix == lat.end(),
            state.width() == width,
            table_ok(lat, state.nodes(), width),
            lat.valid(from),
            at(state.nodes(), width, from).is_done(),
            trace_view(trace@) + lat.opt_trace(from) == lat.opt_trace(start_ix),
        ensures
            from == end_ix,
            trace_view(trace@) + lat.opt_trace(from) == lat.opt_trace(start_ix),
            lat == conf.lattice(),
            lat.wf(),
            end_ix == lat.end(),
        decreases lat.text.len() - from.text, from.reps - from.rep_off, lat.flat.len() - from.pattern,
    {
        proof {
            lat.lemma_slot(from);
            lat.lemma_end(from);
            assert(node_ok(lat, state.nodes(), width, from));
            lat.lemma_done_score(state.nodes(), width, from);
        }
        let node = state.get(from);
        if !node.is_done() || from == end_ix {
            break ;
        }
        let (patt, text) = conf.get(from);
        let (_, step_type, next) = node.done_info()?;
        proof {
            lat.lemma_opt_trace(from);
            lemma_fill(lat, from, lat.choice(from));
        }
        let ghost sofar = trace_view(trace@);
        if let Some(step) = step_type.step() {
            match final_step(step, patt, text) {
                Some(step) => {
                    trace.push(step);
                    assert(trace_view(trace@) =~= sofar.push(step_view(step)));
                    assert(sofar.push(step_view(step)) + lat.opt_trace(next) =~= sofar + (
                    seq![step_view(step)] + lat.opt_trace(next)));
                },
                None => {
                    return Err(Error::IncompleteFinalState);
                },
            }
        } else {
            assert(sofar + lat.opt_trace(next) =~= sofar + (Seq::empty() + lat.opt_trace(next)));
        }
        from = next;
    }
    if from != end_ix {
        return Err(Error::IncompleteFinalState);
    }
    proof {
        lat.lemma_end(from);
        assert(lat.opt_steps(from) =~= Seq::<StepType>::empty());
        assert(trace_view(trace@) + lat.opt_trace(from) =~= trace_view(trace@));
        lemma_solved(lat, score, trace_view(trace@));
        lemma_best_of_alignments(pattern@, text@, score, trace_view(trace@));
    }

    Ok(Sln::new(score, trace))
}

} // verus!
