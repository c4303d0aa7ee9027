//! The solver with all its nodes side by side in one vector.
//!
//! The vector has a place for every index of the lattice, whether the solver
//! comes to it or not: one row for each position in the text, and in each row
//! one place for each position in the flat pattern and one for the pattern's
//! end.

use vstd::prelude::*;
use crate::{trace_view, Atoms, ElementCore, Match, MatchView, Pattern, Step};
use crate::alignment::best_of_alignments;
use crate::error::Error;
use crate::flat_pattern::flatten_elements;
use crate::lattice::Ix;
use crate::config::{lattice_of, Config, LatticeConfig};
use crate::lattice_solution::{
    best_alignment,
    lemma_rows,
    outcome,
    slot_of,
    solve_lattice,
    solved,
    LatticeSolution,
    LatticeState,
    MAX_STEPS,
};
use crate::node::{Node, NodeView};

verus! {

/// The best alignment of a pattern with a text.
#[derive(Eq, PartialEq, Debug)]
pub struct TableSolution {
    /// The number of characters, of the text and of the pattern, that the
    /// alignment passes over.
    pub score: usize,
    /// The steps of the alignment.
    pub trace: Vec<Step<Match, char>>,
}

impl LatticeSolution for TableSolution {
    type Conf = Config;

    type State = State;

    open spec fn score_view(&self) -> usize {
        self.score
    }

    open spec fn trace_view(&self) -> Seq<Step<MatchView, char>> {
        trace_view(self.trace@)
    }

    fn new(score: usize, trace: Vec<Step<Match, char>>) -> (solution: Self) {
        TableSolution { score, trace }
    }

    fn score_lattice(&self) -> (score: &usize) {
        &self.score
    }

    fn trace_lattice(&self) -> (trace: &Vec<Step<Match, char>>) {
        &self.trace
    }
}

impl TableSolution {
    /// The best alignment of `pattern` with `text`.
    ///
    /// The trace is an alignment of the two: it holds every character of
    /// the text, and of the pattern the literals and classes on one way
    /// through it, with one branch of each alternative and any number of
    /// rounds through each repetition; each of its hits is one, and the marks
    /// of its captures are balanced. The score counts the characters that the
    /// trace passes over, and no alignment passes over fewer.
    ///
    /// The score is the least that any walk through the lattice of pattern
    /// and text costs, and the trace is that of the walk that takes, at every
    /// index, the first of the steps that reach the least. The solver gives
    /// up where it needs [`MAX_STEPS`] moves or more, and only there: it
    /// needs one move, and two for every step from an index that it can
    /// reach, which is never more than six for each place of its table.
    pub fn solve(pattern: &Pattern<ElementCore>, text: &Atoms) -> (r: Result<Self, Error>)
        requires
            (text@.len() + 1) * (flatten_elements(pattern@, 1, 1).len() + 1) <= usize::MAX,
        ensures
            solved(lattice_of(pattern@, text@), outcome(r)),
            r matches Ok(solution) ==> best_alignment(
                lattice_of(pattern@, text@),
                solution.score,
                trace_view(solution.trace@),
            ),
            r matches Ok(solution) ==> best_of_alignments(
                pattern@,
                text@,
                solution.score,
                trace_view(solution.trace@),
            ),
    {
        solve_lattice::<TableSolution>(pattern, text)
    }
}

/// The nodes of all the indices of a lattice, side by side.
pub struct State {
    nodes: Vec<Node>,
    pattern_len: usize,
}

/// The views of the nodes of `s`, in order.
pub open spec fn node_views(s: Seq<Node>) -> Seq<NodeView> {
    Seq::new(s.len(), |i: int| s[i]@)
}

impl State {
    /// The place of the node for `ix`.
    fn node(&self, ix: Ix) -> (slot: usize)
        requires
            slot_of(self.pattern_len as nat, ix) <= usize::MAX,
        ensures
            slot == slot_of(self.pattern_len as nat, ix),
    {
        proof {
            assert(ix.text * self.pattern_len >= 0) by (nonlinear_arith);
        }
        ix.text * self.pattern_len + ix.pattern + ix.rep_off
    }
}

impl LatticeState<Config> for State {
    closed spec fn nodes(&self) -> Seq<NodeView> {
        node_views(self.nodes@)
    }

    closed spec fn width(&self) -> nat {
        self.pattern_len as nat
    }

    fn new(conf: &Config) -> (state: Self) {
        proof {
            lemma_rows((conf@.text.len() + 1) as int, (conf@.flat.len() + 1) as int);
        }
        // one more row and one more place in each row, for the indices at
        // the end of the text and at the end of the pattern
        let pattern_len = conf.pattern_len() + 1;
        let text_len = conf.text_len() + 1;
        let num_nodes = text_len * pattern_len;
        let mut nodes: Vec<Node> = Vec::new();
        let mut i: usize = 0;
        while i < num_nodes
            invariant
                i <= num_nodes,
                nodes@.len() == i,
                forall|j: int| 0 <= j < i ==> (#[trigger] nodes@[j])@ == NodeView::fresh(),
            decreases num_nodes - i,
        {
            nodes.push(Node::new());
            i += 1;
        }
        State { nodes, pattern_len }
    }

    fn get(&self, ix: Ix) -> (node: &Node) {
        assert(self.nodes().len() == self.nodes.len());
        let node_ix = self.node(ix);
        &self.nodes[node_ix]
    }

    fn get_mut(&mut self, ix: Ix) -> (node: &mut Node) {
        assert(self.nodes().len() == self.nodes.len());
        let node_ix = self.node(ix);
        proof {
            assert forall|n: Node| #[trigger]
                node_views(self.nodes@.update(node_ix as int, n)) =~= node_views(
                    self.nodes@,
                ).update(node_ix as int, n@) by {}
        }
        &mut self.nodes[node_ix]
    }
}

} // verus!
