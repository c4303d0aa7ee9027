//! What holds of the store of nodes while the solver is at work, and why each
//! move of the solver keeps it so.
//!
//! The nodes that are working lie on one path from the first index to the
//! node that the solver stands on, each further on in the lattice than the
//! one before it. So no step from the last of them leads back to one of them.

use vstd::prelude::*;
use crate::lattice::{step_cost, step_spec, Ix, Lattice};
use crate::lattice_solution::slot_of;
use crate::node::NodeView;
use crate::layout::base_ok;
use crate::reach::{lemma_sum_le, lemma_sum_lt, lemma_sum_update, sum};

verus! {

/// The node for `ix`.
pub open spec fn at(nodes: Seq<NodeView>, width: nat, ix: Ix) -> NodeView {
    nodes[slot_of(width, ix)]
}

/// Whether the node for `ix` is working.
pub open spec fn works(nodes: Seq<NodeView>, width: nat, ix: Ix) -> bool {
    at(nodes, width, ix).is_working()
}

/// Whether the node that step `j` from `ix` leads to is done.
pub open spec fn tried_ok(lat: Lattice, nodes: Seq<NodeView>, width: nat, ix: Ix, j: int) -> bool {
    at(nodes, width, step_spec(ix, lat.steps(ix)[j])).is_done()
}

/// What holds of the node for `ix`: it is ready and untouched, or it holds
/// the steps that lead on from `ix`, the nodes that the steps tried so far
/// lead to are done, and it holds the best of those steps.
pub open spec fn node_ok(lat: Lattice, nodes: Seq<NodeView>, width: nat, ix: Ix) -> bool {
    let node = at(nodes, width, ix);
    if node.current == 0 {
        node == NodeView::fresh()
    } else {
        let best = lat.best(ix, (node.current - 1) as nat);
        &&& node.step_types == lat.steps(ix)
        &&& node.current <= node.step_types.len() + 1
        &&& node.current == 1 ==> node.score == 0
        &&& node.current >= 2 ==> node.score == best.score && node.step_type == lat.steps(
            ix,
        )[best.choice] && node.next == step_spec(ix, lat.steps(ix)[best.choice])
        &&& forall|j: int| 0 <= j < node.current - 1 ==> #[trigger] tried_ok(lat, nodes, width, ix, j)
    }
}

/// What holds of the store: it has a place for every index, and every
/// node is as [`node_ok`] says.
pub open spec fn table_ok(lat: Lattice, nodes: Seq<NodeView>, width: nat) -> bool {
    &&& width == lat.flat.len() + 1
    &&& nodes.len() == (lat.text.len() + 1) * width
    &&& forall|ix: Ix| lat.valid(ix) ==> #[trigger] node_ok(lat, nodes, width, ix)
}

/// Whether the index at place `i` of the path is the one that its
/// predecessor is trying, and remembers its predecessor as its parent.
pub open spec fn link_ok(nodes: Seq<NodeView>, width: nat, stack: Seq<Ix>, i: int) -> bool {
    let parent = stack[i - 1];
    &&& stack[i] == step_spec(parent, at(nodes, width, parent).trying())
    &&& at(nodes, width, stack[i]).parent == parent
}

/// What holds of the path of working nodes.
pub open spec fn stack_ok(lat: Lattice, nodes: Seq<NodeView>, width: nat, stack: Seq<Ix>) -> bool {
    &&& forall|i: int|
        0 <= i < stack.len() ==> lat.valid(#[trigger] stack[i]) && works(nodes, width, stack[i])
    &&& stack.len() > 0 ==> stack[0] == lat.start()
    &&& forall|i: int| 0 < i < stack.len() ==> #[trigger] link_ok(nodes, width, stack, i)
    &&& forall|i: int, j: int|
        0 <= i < j < stack.len() ==> lat.further(#[trigger] stack[j], #[trigger] stack[i])
    &&& forall|ix: Ix| lat.valid(ix) && #[trigger] works(nodes, width, ix) ==> stack.contains(ix)
}

/// What holds between two moves of the solver.
pub open spec fn search_ok(lat: Lattice, nodes: Seq<NodeView>, width: nat, stack: Seq<Ix>) -> bool {
    &&& lat.wf()
    &&& table_ok(lat, nodes, width)
    &&& stack_ok(lat, nodes, width, stack)
    &&& reached_ok(lat, nodes)
}

/// The moves that the solver has spent on the steps from one node: two for
/// each step that it has tried to the end, and one for the step on trial.
pub open spec fn node_moves(node: NodeView) -> nat {
    if node.current == 0 {
        0
    } else if node.current <= node.step_types.len() {
        (2 * (node.current - 1) + 1) as nat
    } else {
        (2 * (node.current - 1)) as nat
    }
}

/// The moves spent on each node of the store, in order.
pub open spec fn moves(nodes: Seq<NodeView>) -> Seq<nat> {
    Seq::new(nodes.len(), |slot: int| node_moves(nodes[slot]))
}

/// The moves spent on all the nodes together.
pub open spec fn moved(nodes: Seq<NodeView>) -> nat {
    sum(moves(nodes))
}

/// A change to one node changes the moves spent by what it changes of
/// that node's.
pub proof fn lemma_moved_update(nodes: Seq<NodeView>, slot: int, node: NodeView)
    requires
        0 <= slot < nodes.len(),
    ensures
        moved(nodes.update(slot, node)) == moved(nodes) - node_moves(nodes[slot]) + node_moves(node),
{
    assert(moves(nodes.update(slot, node)) =~= moves(nodes).update(slot, node_moves(node)));
    lemma_sum_update(moves(nodes), slot, node_moves(node));
}

/// On a store of ready nodes no move has been spent.
pub proof fn lemma_moved_fresh(nodes: Seq<NodeView>)
    requires
        forall|i: int| 0 <= i < nodes.len() ==> nodes[i] == NodeView::fresh(),
    ensures
        moved(nodes) == 0,
{
    lemma_sum_le(moves(nodes), Seq::new(nodes.len(), |slot: int| 0nat));
    lemma_sum_zero(nodes.len());
}

proof fn lemma_sum_zero(len: nat)
    ensures
        sum(Seq::new(len, |slot: int| 0nat)) == 0,
    decreases len,
{
    if len > 0 {
        lemma_sum_zero((len - 1) as nat);
        assert(Seq::new(len, |slot: int| 0nat).drop_last() =~= Seq::new(
            (len - 1) as nat,
            |slot: int| 0nat,
        ));
    }
}

/// Whether every node that is not ready is the node of an index that can
/// be reached.
pub open spec fn reached_ok(lat: Lattice, nodes: Seq<NodeView>) -> bool {
    forall|slot: int|
        0 <= slot < nodes.len() && (#[trigger] nodes[slot]).current > 0 ==> lat.has_owner(slot)
}

proof fn lemma_row(width: int, text_a: int, rest_a: int, text_b: int, rest_b: int)
    by (nonlinear_arith)
    requires
        0 <= rest_a < width,
        0 <= rest_b < width,
        0 <= text_a,
        0 <= text_b,
        text_a * width + rest_a == text_b * width + rest_b,
    ensures
        text_a == text_b,
        rest_a == rest_b,
{
}

proof fn lemma_row_fits(width: int, text: int, rest: int, rows: int)
    by (nonlinear_arith)
    requires
        0 <= rest < width,
        0 <= text < rows,
    ensures
        0 <= text * width,
        0 <= text * width + rest < rows * width,
{
}

impl Lattice {
    /// The store has a place for every index of the lattice.
    pub proof fn lemma_slot(self, ix: Ix)
        requires
            self.wf(),
            self.valid(ix),
        ensures
            0 <= ix.pattern + ix.rep_off <= self.flat.len(),
            0 <= ix.text * (self.flat.len() + 1),
            0 <= slot_of((self.flat.len() + 1) as nat, ix) < (self.text.len() + 1) * (
            self.flat.len() + 1),
    {
        if ix.pattern < self.flat.len() {
            assert(base_ok(self.flat, self.lay, 1, ix.pattern as int));
        }
        lemma_row_fits(
            (self.flat.len() + 1) as int,
            ix.text as int,
            ix.pattern + ix.rep_off,
            (self.text.len() + 1) as int,
        );
    }

    /// Two indices of the lattice have two places in the store.
    pub proof fn lemma_slots_differ(self, a: Ix, b: Ix)
        requires
            self.wf(),
            self.valid(a),
            self.valid(b),
            a != b,
        ensures
            slot_of((self.flat.len() + 1) as nat, a) != slot_of((self.flat.len() + 1) as nat, b),
    {
        let width = (self.flat.len() + 1) as int;
        self.lemma_slot(a);
        self.lemma_slot(b);
        if slot_of(width as nat, a) == slot_of(width as nat, b) {
            lemma_row(
                width,
                a.text as int,
                a.pattern + a.rep_off,
                b.text as int,
                b.pattern + b.rep_off,
            );
            let q = a.pattern + a.rep_off;
            if a.pattern < self.flat.len() {
                assert(base_ok(self.flat, self.lay, 1, a.pattern as int));
                assert(self.lay[q].copy == a.rep_off);
            }
            if b.pattern < self.flat.len() {
                assert(base_ok(self.flat, self.lay, 1, b.pattern as int));
                assert(self.lay[q].copy == b.rep_off);
            }
            assert(false);
        }
    }

    /// Further on than further on is further on.
    pub proof fn lemma_further_trans(self, a: Ix, b: Ix, c: Ix)
        requires
            self.further(a, b),
            self.further(b, c),
        ensures
            self.further(a, c),
    {
    }

    /// The score that a node that is done holds is the best score from its
    /// index.
    pub proof fn lemma_done_score(self, nodes: Seq<NodeView>, width: nat, ix: Ix)
        requires
            self.wf(),
            self.valid(ix),
            node_ok(self, nodes, width, ix),
            at(nodes, width, ix).is_done(),
        ensures
            at(nodes, width, ix).score == self.opt(ix),
            self.steps(ix).len() > 0 ==> at(nodes, width, ix).step_type == self.steps(
                ix,
            )[self.choice(ix)] && at(nodes, width, ix).next == step_spec(
                ix,
                self.steps(ix)[self.choice(ix)],
            ),
            self.steps(ix).len() > 0 ==> at(
                nodes,
                width,
                step_spec(ix, self.steps(ix)[self.choice(ix)]),
            ).is_done(),
    {
        if self.steps(ix).len() == 0 {
            self.lemma_opt_end(ix);
        } else {
            self.lemma_best_choice(ix, self.steps(ix).len());
            assert(tried_ok(self, nodes, width, ix, self.choice(ix)));
        }
    }

    /// The step that the last node of the path is trying leads to an index
    /// of the lattice whose node is not working.
    pub proof fn lemma_trying(self, nodes: Seq<NodeView>, width: nat, stack: Seq<Ix>)
        requires
            search_ok(self, nodes, width, stack),
            stack.len() > 0,
        ensures
            ({
                let top = stack.last();
                let node = at(nodes, width, top);
                let child = step_spec(top, node.trying());
                &&& node.is_working()
                &&& node.step_types == self.steps(top)
                &&& self.valid(child)
                &&& crate::lattice::step_fits(top, node.trying())
                &&& !works(nodes, width, child)
                &&& self.further(child, top)
            }),
    {
        let top = stack.last();
        let node = at(nodes, width, top);
        assert(self.valid(stack[stack.len() - 1]));
        assert(node_ok(self, nodes, width, top));
        self.lemma_step(top, node.current - 1);
        let child = step_spec(top, node.trying());
        if works(nodes, width, child) {
            assert(stack.contains(child));
            let i = choose|i: int| 0 <= i < stack.len() && stack[i] == child;
            if i < stack.len() - 1 {
                assert(self.further(stack[stack.len() - 1], stack[i]));
            }
            assert(false);
        }
    }

    /// A node that is not ready is the node of an index that can be
    /// reached.
    pub proof fn lemma_reached(self, nodes: Seq<NodeView>, width: nat, ix: Ix)
        requires
            self.wf(),
            table_ok(self, nodes, width),
            reached_ok(self, nodes),
            self.valid(ix),
            at(nodes, width, ix).current > 0,
        ensures
            self.reachable(ix),
    {
        self.lemma_slot(ix);
        let slot = slot_of(width, ix);
        assert(nodes[slot].current > 0);
        let owner = choose|owner: Ix| #[trigger] self.owns(owner, slot);
        if owner != ix {
            self.lemma_slots_differ(owner, ix);
        }
    }

    /// A change to the node of an index that can be reached leaves every
    /// node that is not ready the node of such an index.
    pub proof fn lemma_reached_update(
        self,
        nodes: Seq<NodeView>,
        width: nat,
        ix: Ix,
        node: NodeView,
    )
        requires
            self.wf(),
            table_ok(self, nodes, width),
            reached_ok(self, nodes),
            self.valid(ix),
            self.reachable(ix),
        ensures
            reached_ok(self, nodes.update(slot_of(width, ix), node)),
    {
        let after = nodes.update(slot_of(width, ix), node);
        self.lemma_slot(ix);
        assert forall|slot: int| 0 <= slot < after.len() && (#[trigger] after[slot]).current
            > 0 implies self.has_owner(slot) by {
            if slot == slot_of(width, ix) {
                assert(self.owns(ix, slot));
            } else {
                assert(nodes[slot].current > 0);
            }
        }
    }

    /// The path of working nodes, with the index `ix` added whose node was
    /// ready and is now working, is again as it should be.
    proof fn lemma_enter_stack(
        self,
        nodes: Seq<NodeView>,
        width: nat,
        stack: Seq<Ix>,
        ix: Ix,
        node: NodeView,
    )
        requires
            search_ok(self, nodes, width, stack),
            self.valid(ix),
            at(nodes, width, ix).is_ready(),
            node.is_working(),
            stack.len() == 0 ==> ix == self.start(),
            stack.len() > 0 ==> ix == step_spec(
                stack.last(),
                at(nodes, width, stack.last()).trying(),
            ) && node.parent == stack.last(),
            forall|x: Ix|
                self.valid(x) && x != ix ==> #[trigger] at(
                    nodes.update(slot_of(width, ix), node),
                    width,
                    x,
                ) == at(nodes, width, x),
            at(nodes.update(slot_of(width, ix), node), width, ix) == node,
        ensures
            stack_ok(self, nodes.update(slot_of(width, ix), node), width, stack.push(ix)),
    {
        let after = nodes.update(slot_of(width, ix), node);
        let path = stack.push(ix);
        if stack.len() > 0 {
            self.lemma_trying(nodes, width, stack);
        }
        assert forall|i: int| 0 <= i < path.len() implies self.valid(#[trigger] path[i]) && works(
            after,
            width,
            path[i],
        ) by {
            if i < stack.len() {
                assert(self.valid(stack[i]) && works(nodes, width, stack[i]));
                assert(at(after, width, stack[i]) == at(nodes, width, stack[i]));
            }
        }
        assert forall|i: int| 0 < i < path.len() implies #[trigger] link_ok(
            after,
            width,
            path,
            i,
        ) by {
            assert(self.valid(stack[i - 1]) && works(nodes, width, stack[i - 1]));
            assert(at(after, width, stack[i - 1]) == at(nodes, width, stack[i - 1]));
            if i < stack.len() {
                assert(link_ok(nodes, width, stack, i));
                assert(self.valid(stack[i]) && works(nodes, width, stack[i]));
                assert(at(after, width, stack[i]) == at(nodes, width, stack[i]));
            }
        }
        assert forall|i: int, j: int| 0 <= i < j < path.len() implies self.further(
            #[trigger] path[j],
            #[trigger] path[i],
        ) by {
            if j < stack.len() {
                assert(self.further(stack[j], stack[i]));
            } else if i < stack.len() - 1 {
                assert(self.further(stack[stack.len() - 1], stack[i]));
                self.lemma_further_trans(ix, stack.last(), stack[i]);
            }
        }
        assert forall|x: Ix| self.valid(x) && #[trigger] works(after, width, x) implies path.contains(
            x,
        ) by {
            if x == ix {
                assert(path[stack.len() as int] == x);
            } else {
                assert(at(after, width, x) == at(nodes, width, x));
                assert(works(nodes, width, x));
                assert(stack.contains(x));
                let i = choose|i: int| 0 <= i < stack.len() && stack[i] == x;
                assert(path[i] == x);
            }
        }
    }

    /// The index that the solver is about to come to can be reached.
    proof fn lemma_enter_reachable(self, nodes: Seq<NodeView>, width: nat, stack: Seq<Ix>, ix: Ix)
        requires
            search_ok(self, nodes, width, stack),
            stack.len() == 0 ==> ix == self.start(),
            stack.len() > 0 ==> ix == step_spec(
                stack.last(),
                at(nodes, width, stack.last()).trying(),
            ),
        ensures
            self.reachable(ix),
    {
        if stack.len() == 0 {
            self.lemma_start_reachable();
        } else {
            let top = stack.last();
            self.lemma_trying(nodes, width, stack);
            assert(self.valid(stack[stack.len() - 1]));
            self.lemma_reached(nodes, width, top);
            self.lemma_step_reachable(top, at(nodes, width, top).current - 1);
        }
    }

    /// The solver comes to a node that is ready and sets it to work: the
    /// node joins the path.
    pub proof fn lemma_enter(
        self,
        nodes: Seq<NodeView>,
        width: nat,
        stack: Seq<Ix>,
        ix: Ix,
        node: NodeView,
    )
        requires
            search_ok(self, nodes, width, stack),
            self.valid(ix),
            at(nodes, width, ix).is_ready(),
            self.steps(ix).len() > 0,
            stack.len() == 0 ==> ix == self.start(),
            stack.len() > 0 ==> ix == step_spec(
                stack.last(),
                at(nodes, width, stack.last()).trying(),
            ) && node.parent == stack.last(),
            node == (NodeView {
                current: 1,
                parent: node.parent,
                step_types: self.steps(ix),
                ..at(nodes, width, ix)
            }),
        ensures
            search_ok(self, nodes.update(slot_of(width, ix), node), width, stack.push(ix)),
            moved(nodes.update(slot_of(width, ix), node)) == moved(nodes) + 1,
            node.is_working(),
    {
        let slot = slot_of(width, ix);
        let after = nodes.update(slot, node);
        self.lemma_slot(ix);
        lemma_moved_update(nodes, slot, node);
        assert(node_ok(self, nodes, width, ix));
        assert(node_ok(self, after, width, ix));
        self.lemma_frame(nodes, width, ix, node);
        self.lemma_enter_stack(nodes, width, stack, ix, node);
        self.lemma_enter_reachable(nodes, width, stack, ix);
        self.lemma_reached_update(nodes, width, ix, node);
    }

    /// The solver comes to the last index, whose node is ready, and leaves
    /// it done.
    pub proof fn lemma_enter_end(
        self,
        nodes: Seq<NodeView>,
        width: nat,
        stack: Seq<Ix>,
        ix: Ix,
        node: NodeView,
    )
        requires
            search_ok(self, nodes, width, stack),
            self.valid(ix),
            at(nodes, width, ix).is_ready(),
            self.steps(ix).len() == 0,
            stack.len() == 0 ==> ix == self.start(),
            stack.len() > 0 ==> ix == step_spec(
                stack.last(),
                at(nodes, width, stack.last()).trying(),
            ),
            node == (NodeView { current: 1, parent: node.parent, ..at(nodes, width, ix) }),
        ensures
            search_ok(self, nodes.update(slot_of(width, ix), node), width, stack),
            moved(nodes.update(slot_of(width, ix), node)) == moved(nodes),
            node.is_done(),
            forall|x: Ix|
                self.valid(x) && x != ix ==> #[trigger] at(
                    nodes.update(slot_of(width, ix), node),
                    width,
                    x,
                ) == at(nodes, width, x),
            at(nodes.update(slot_of(width, ix), node), width, ix) == node,
    {
        let slot = slot_of(width, ix);
        let after = nodes.update(slot, node);
        self.lemma_slot(ix);
        lemma_moved_update(nodes, slot, node);
        assert(node_ok(self, nodes, width, ix));
        assert(node_ok(self, after, width, ix));
        self.lemma_frame(nodes, width, ix, node);
        self.lemma_enter_reachable(nodes, width, stack, ix);
        self.lemma_reached_update(nodes, width, ix, node);
        assert forall|i: int| 0 <= i < stack.len() implies self.valid(#[trigger] stack[i])
            && works(after, width, stack[i]) by {
            assert(self.valid(stack[i]) && works(nodes, width, stack[i]));
            assert(at(after, width, stack[i]) == at(nodes, width, stack[i]));
        }
        assert forall|i: int| 0 < i < stack.len() implies #[trigger] link_ok(
            after,
            width,
            stack,
            i,
        ) by {
            assert(link_ok(nodes, width, stack, i));
            assert(self.valid(stack[i - 1]) && works(nodes, width, stack[i - 1]));
            assert(self.valid(stack[i]) && works(nodes, width, stack[i]));
            assert(at(after, width, stack[i - 1]) == at(nodes, width, stack[i - 1]));
            assert(at(after, width, stack[i]) == at(nodes, width, stack[i]));
        }
        assert forall|x: Ix| self.valid(x) && #[trigger] works(after, width, x) implies stack.contains(
            x,
        ) by {
            assert(at(after, width, x) == at(nodes, width, x));
            assert(works(nodes, width, x));
        }
    }

    /// A change to the node for `ix`, which was not done, leaves the other
    /// nodes as they should be, if it leaves the node for `ix` so.
    pub proof fn lemma_frame(self, nodes: Seq<NodeView>, width: nat, ix: Ix, node: NodeView)
        requires
            self.wf(),
            table_ok(self, nodes, width),
            self.valid(ix),
            !at(nodes, width, ix).is_done(),
            node_ok(self, nodes.update(slot_of(width, ix), node), width, ix),
        ensures
            table_ok(self, nodes.update(slot_of(width, ix), node), width),
            forall|x: Ix|
                self.valid(x) && x != ix ==> #[trigger] at(
                    nodes.update(slot_of(width, ix), node),
                    width,
                    x,
                ) == at(nodes, width, x),
            at(nodes.update(slot_of(width, ix), node), width, ix) == node,
    {
        let after = nodes.update(slot_of(width, ix), node);
        self.lemma_slot(ix);
        assert forall|x: Ix| self.valid(x) && x != ix implies #[trigger] at(after, width, x) == at(
            nodes,
            width,
            x,
        ) by {
            self.lemma_slots_differ(x, ix);
            self.lemma_slot(x);
        }
        assert forall|x: Ix| self.valid(x) implies #[trigger] node_ok(self, after, width, x) by {
            assert(node_ok(self, nodes, width, x));
            if x != ix {
                let seen = at(nodes, width, x);
                assert forall|j: int| 0 <= j < seen.current - 1 implies #[trigger] tried_ok(
                    self,
                    after,
                    width,
                    x,
                    j,
                ) by {
                    assert(tried_ok(self, nodes, width, x, j));
                    self.lemma_step(x, j);
                    let tried = step_spec(x, self.steps(x)[j]);
                    assert(at(after, width, tried) == at(nodes, width, tried));
                }
            }
        }
    }

    /// What a working node holds after it has taken in the best score of
    /// the index that its step on trial leads to.
    pub proof fn lemma_update_node(
        self,
        nodes: Seq<NodeView>,
        width: nat,
        top: Ix,
        node: NodeView,
    )
        requires
            self.wf(),
            table_ok(self, nodes, width),
            self.valid(top),
            at(nodes, width, top).is_working(),
            at(nodes, width, step_spec(top, at(nodes, width, top).trying())).is_done(),
            ({
                let old = at(nodes, width, top);
                let child = step_spec(top, old.trying());
                let new_score = at(nodes, width, child).score;
                node == (if old.current <= 1 || new_score + step_cost(old.trying()) < old.score {
                    NodeView {
                        current: (old.current + 1) as usize,
                        step_type: old.trying(),
                        score: (new_score + step_cost(old.trying())) as usize,
                        next: child,
                        ..old
                    }
                } else {
                    NodeView { current: (old.current + 1) as usize, ..old }
                })
            }),
        ensures
            node_ok(self, nodes.update(slot_of(width, top), node), width, top),
            node.is_done() || node.is_working(),
            node_moves(node) == node_moves(at(nodes, width, top)) + (if node.is_done() {
                1nat
            } else {
                2nat
            }),
            node.parent == at(nodes, width, top).parent,
            node.step_types == at(nodes, width, top).step_types,
    {
        let old = at(nodes, width, top);
        let slot = slot_of(width, top);
        let after = nodes.update(slot, node);
        assert(node_ok(self, nodes, width, top));
        let j = old.current - 1;
        self.lemma_step(top, j);
        let child = step_spec(top, old.trying());
        assert(node_ok(self, nodes, width, child));
        self.lemma_done_score(nodes, width, child);
        self.lemma_bound(child);
        self.lemma_slot(top);
        assert(node.current == old.current + 1);
        assert(node.score == self.best(top, old.current as nat).score && node.step_type
            == self.steps(top)[self.best(top, old.current as nat).choice] && node.next == step_spec(
            top,
            self.steps(top)[self.best(top, old.current as nat).choice],
        )) by {
            reveal(Lattice::best);
        }
        assert forall|k: int| 0 <= k < node.current - 1 implies #[trigger] tried_ok(
            self,
            after,
            width,
            top,
            k,
        ) by {
            let tried = step_spec(top, self.steps(top)[k]);
            self.lemma_step(top, k);
            if k < old.current - 1 {
                assert(tried_ok(self, nodes, width, top, k));
            }
            self.lemma_slots_differ(tried, top);
            self.lemma_slot(tried);
        }
    }

    /// The path of working nodes stays what it is when its last node
    /// changes but goes on working, and loses its last node when that node
    /// is done.
    pub proof fn lemma_update_stack(
        self,
        nodes: Seq<NodeView>,
        width: nat,
        stack: Seq<Ix>,
        node: NodeView,
    )
        requires
            self.wf(),
            stack_ok(self, nodes, width, stack),
            stack.len() > 0,
            node.is_done() || node.is_working(),
            node.parent == at(nodes, width, stack.last()).parent,
            forall|x: Ix|
                self.valid(x) && x != stack.last() ==> #[trigger] at(
                    nodes.update(slot_of(width, stack.last()), node),
                    width,
                    x,
                ) == at(nodes, width, x),
            at(nodes.update(slot_of(width, stack.last()), node), width, stack.last()) == node,
        ensures
            node.is_done() ==> stack_ok(
                self,
                nodes.update(slot_of(width, stack.last()), node),
                width,
                stack.drop_last(),
            ),
            !node.is_done() ==> stack_ok(
                self,
                nodes.update(slot_of(width, stack.last()), node),
                width,
                stack,
            ),
            stack.len() == 1 <==> stack.last() == self.start(),
            stack.len() > 1 ==> node.parent == stack[stack.len() - 2] && stack.last() == step_spec(
                stack[stack.len() - 2],
                at(nodes, width, stack[stack.len() - 2]).trying(),
            ),
    {
        let top = stack.last();
        let after = nodes.update(slot_of(width, top), node);
        let last = stack.len() - 1;
        assert(self.valid(stack[last]));
        if stack.len() > 1 {
            assert(link_ok(nodes, width, stack, last));
            assert(self.further(stack[last], stack[0]));
        }
        let path = if node.is_done() {
            stack.drop_last()
        } else {
            stack
        };
        assert forall|i: int| 0 <= i < path.len() implies self.valid(#[trigger] path[i]) && works(
            after,
            width,
            path[i],
        ) by {
            assert(self.valid(stack[i]) && works(nodes, width, stack[i]));
            if i < last {
                assert(self.further(stack[last], stack[i]));
                assert(at(after, width, stack[i]) == at(nodes, width, stack[i]));
            }
        }
        assert forall|i: int| 0 < i < path.len() implies #[trigger] link_ok(
            after,
            width,
            path,
            i,
        ) by {
            assert(link_ok(nodes, width, stack, i));
            assert(self.valid(stack[i - 1]) && works(nodes, width, stack[i - 1]));
            assert(self.valid(stack[i]) && works(nodes, width, stack[i]));
            assert(self.further(stack[last], stack[i - 1]));
            assert(at(after, width, stack[i - 1]) == at(nodes, width, stack[i - 1]));
            if i < last {
                assert(self.further(stack[last], stack[i]));
                assert(at(after, width, stack[i]) == at(nodes, width, stack[i]));
            }
        }
        assert forall|i: int, j: int| 0 <= i < j < path.len() implies self.further(
            #[trigger] path[j],
            #[trigger] path[i],
        ) by {
            assert(self.further(stack[j], stack[i]));
        }
        assert forall|x: Ix| self.valid(x) && #[trigger] works(after, width, x) implies path.contains(
            x,
        ) by {
            if x == top {
                assert(path[last] == x);
            } else {
                assert(at(after, width, x) == at(nodes, width, x));
                assert(works(nodes, width, x));
                assert(stack.contains(x));
                let i = choose|i: int| 0 <= i < stack.len() && stack[i] == x;
                assert(path[i] == x);
            }
        }
    }

    /// The node that the step on trial leads to is done, and the last node
    /// of the path takes its score in. The node goes on to its next step, or
    /// it is done and leaves the path.
    pub proof fn lemma_update(
        self,
        nodes: Seq<NodeView>,
        width: nat,
        stack: Seq<Ix>,
        node: NodeView,
    )
        requires
            search_ok(self, nodes, width, stack),
            stack.len() > 0,
            at(nodes, width, step_spec(stack.last(), at(nodes, width, stack.last()).trying()))
                .is_done(),
            ({
                let top = stack.last();
                let old = at(nodes, width, top);
                let child = step_spec(top, old.trying());
                let new_score = at(nodes, width, child).score;
                node == (if old.current <= 1 || new_score + step_cost(old.trying()) < old.score {
                    NodeView {
                        current: (old.current + 1) as usize,
                        step_type: old.trying(),
                        score: (new_score + step_cost(old.trying())) as usize,
                        next: child,
                        ..old
                    }
                } else {
                    NodeView { current: (old.current + 1) as usize, ..old }
                })
            }),
        ensures
            node.is_done() ==> search_ok(
                self,
                nodes.update(slot_of(width, stack.last()), node),
                width,
                stack.drop_last(),
            ),
            !node.is_done() ==> node.is_working() && search_ok(
                self,
                nodes.update(slot_of(width, stack.last()), node),
                width,
                stack,
            ),
            moved(nodes.update(slot_of(width, stack.last()), node)) == moved(nodes) + (if node.is_done() {
                1nat
            } else {
                2nat
            }),
            at(nodes.update(slot_of(width, stack.last()), node), width, stack.last()) == node,
            node.parent == at(nodes, width, stack.last()).parent,
            stack.len() == 1 <==> stack.last() == self.start(),
            stack.len() > 1 ==> node.parent == stack[stack.len() - 2] && stack.last() == step_spec(
                stack[stack.len() - 2],
                at(
                    nodes.update(slot_of(width, stack.last()), node),
                    width,
                    stack[stack.len() - 2],
                ).trying(),
            ),
    {
        let top = stack.last();
        assert(self.valid(stack[stack.len() - 1]) && works(nodes, width, stack[stack.len() - 1]));
        self.lemma_update_node(nodes, width, top, node);
        self.lemma_frame(nodes, width, top, node);
        self.lemma_update_stack(nodes, width, stack, node);
        self.lemma_slot(top);
        lemma_moved_update(nodes, slot_of(width, top), node);
        self.lemma_reached(nodes, width, top);
        self.lemma_reached_update(nodes, width, top, node);
        if stack.len() > 1 {
            let below = stack[stack.len() - 2];
            assert(self.valid(below));
            assert(self.further(stack[stack.len() - 1], stack[stack.len() - 2]));
            assert(at(nodes.update(slot_of(width, top), node), width, below) == at(
                nodes,
                width,
                below,
            ));
        }
    }

    /// The moves spent so far are no more than the moves that the solver
    /// needs in all, and fewer while the node of `ix` is working.
    pub proof fn lemma_moved_so_far(self, nodes: Seq<NodeView>, width: nat, ix: Ix)
        requires
            self.wf(),
            table_ok(self, nodes, width),
            reached_ok(self, nodes),
            self.valid(ix),
        ensures
            1 + moved(nodes) <= self.moves_needed(),
            at(nodes, width, ix).is_working() ==> 2 + moved(nodes) <= self.moves_needed(),
    {
        let spent = moves(nodes);
        let needed = self.all_moves();
        assert forall|slot: int| 0 <= slot < spent.len() implies spent[slot] <= needed[slot] by {
            if nodes[slot].current > 0 {
                let owner = choose|owner: Ix| #[trigger] self.owns(owner, slot);
                assert(node_ok(self, nodes, width, owner));
            }
        }
        lemma_sum_le(spent, needed);
        if at(nodes, width, ix).is_working() {
            self.lemma_reached(nodes, width, ix);
            self.lemma_slot_moves(ix);
            assert(node_ok(self, nodes, width, ix));
            lemma_sum_lt(spent, needed, slot_of(width, ix));
        }
    }

    /// In a store in which the node of the first index is done and no node
    /// is working, the nodes of all the indices that `steps` lead to are
    /// done.
    pub proof fn lemma_all_done(
        self,
        nodes: Seq<NodeView>,
        width: nat,
        steps: Seq<crate::lattice::StepType>,
        ix: Ix,
    )
        requires
            self.wf(),
            table_ok(self, nodes, width),
            at(nodes, width, self.start()).is_done(),
            forall|x: Ix| self.valid(x) ==> !#[trigger] works(nodes, width, x),
            self.reaches(steps, ix),
        ensures
            self.valid(ix),
            at(nodes, width, ix).is_done(),
        decreases steps.len(),
    {
        self.lemma_end(self.start());
        if steps.len() > 0 {
            let before = self.walk_end(self.start(), steps.drop_last());
            self.lemma_all_done(nodes, width, steps.drop_last(), before);
            let j = choose|j: int|
                0 <= j < self.steps(before).len() && #[trigger] self.steps(before)[j]
                    == steps.last();
            self.lemma_step(before, j);
            assert(node_ok(self, nodes, width, before));
            assert(tried_ok(self, nodes, width, before, j));
        }
    }

    /// Once the node of the first index is done and no node is working,
    /// the solver has spent all the moves that it needs but the first.
    pub proof fn lemma_moved_at_last(self, nodes: Seq<NodeView>, width: nat)
        requires
            self.wf(),
            table_ok(self, nodes, width),
            reached_ok(self, nodes),
            at(nodes, width, self.start()).is_done(),
            forall|x: Ix| self.valid(x) ==> !#[trigger] works(nodes, width, x),
        ensures
            1 + moved(nodes) == self.moves_needed(),
    {
        let spent = moves(nodes);
        let needed = self.all_moves();
        assert forall|slot: int| 0 <= slot < spent.len() implies spent[slot] == needed[slot] by {
            if self.has_owner(slot) {
                let owner = choose|owner: Ix| #[trigger] self.owns(owner, slot);
                let steps = choose|steps: Seq<crate::lattice::StepType>| #[trigger]
                    self.reaches(steps, owner);
                self.lemma_all_done(nodes, width, steps, owner);
                assert(node_ok(self, nodes, width, owner));
            }
        }
        assert(spent =~= needed);
    }
}

} // verus!
