//! The solver with its nodes in a map, which holds a node only for the
//! indices that the solver has come to.

use vstd::prelude::*;
use std::collections::hash_map::HashMap;
use crate::{trace_view, ElementCore, Match, MatchView, Problem, Step};
use crate::alignment::best_of_alignments;
use crate::error::Error;
use crate::flat_pattern::flatten_elements;
use crate::lattice::Ix;
use crate::config::{lattice_of, Config, LatticeConfig};
use crate::lattice_solution::{
    best_alignment,
    lemma_rows,
    outcome,
    slot_of,
    solve_lattice,
    solved,
    LatticeSolution,
    LatticeState,
};
use crate::node::{Node, NodeView};

verus! {

/// The best alignment of a pattern with a text.
#[derive(Eq, PartialEq, Debug)]
pub struct MapSolution {
    score: usize,
    trace: Vec<Step<Match, char>>,
}

impl LatticeSolution for MapSolution {
    type Conf = Config;

    type State = State;

    closed spec fn score_view(&self) -> usize {
        self.score
    }

    closed spec fn trace_view(&self) -> Seq<Step<MatchView, char>> {
        trace_view(self.trace@)
    }

    fn new(score: usize, trace: Vec<Step<Match, char>>) -> (solution: Self) {
        MapSolution { score, trace }
    }

    fn score_lattice(&self) -> (score: &usize) {
        &self.score
    }

    fn trace_lattice(&self) -> (trace: &Vec<Step<Match, char>>) {
        &self.trace
    }
}

impl MapSolution {
    /// The best alignment of the problem's pattern with its text: the same
    /// score and the same trace as
    /// [`TableSolution::solve`](crate::table_solution::TableSolution::solve)
    /// gives. The trace is an alignment of the two, and no alignment passes
    /// over fewer characters than the score says.
    pub fn solve(problem: &Problem<ElementCore>) -> (r: Result<Self, Error>)
        requires
            (problem.text@.len() + 1) * (flatten_elements(problem.pattern@, 1, 1).len() + 1)
                <= usize::MAX,
        ensures
            solved(lattice_of(problem.pattern@, problem.text@), outcome(r)),
            r matches Ok(solution) ==> best_alignment(
                lattice_of(problem.pattern@, problem.text@),
                solution.score_view(),
                solution.trace_view(),
            ),
            r matches Ok(solution) ==> best_of_alignments(
                problem.pattern@,
                problem.text@,
                solution.score_view(),
                solution.trace_view(),
            ),
    {
        solve_lattice::<MapSolution>(&problem.pattern, &problem.text)
    }

    /// The number of characters, of the text and of the pattern, that the
    /// alignment passes over.
    pub fn score(&self) -> (score: &usize)
        ensures
            *score == self.score_view(),
    {
        self.score_lattice()
    }

    /// The steps of the alignment.
    pub fn trace(&self) -> (trace: &Vec<Step<Match, char>>)
        ensures
            trace_view(trace@) == self.trace_view(),
    {
        self.trace_lattice()
    }
}

/// The nodes of the indices that the solver has come to. Every other index
/// has the same node, which is ready.
pub struct State {
    nodes: HashMap<usize, Node>,
    default: Node,
    pattern_len: usize,
    size: usize,
}

impl State {
    /// The node for the place `slot`.
    spec fn node_at(&self, slot: int) -> NodeView {
        if self.nodes@.dom().contains(slot as usize) {
            self.nodes@[slot as usize]@
        } else {
            self.default@
        }
    }

    /// The key of the node for `ix`.
    fn node(&self, ix: Ix) -> (slot: usize)
        requires
            slot_of(self.pattern_len as nat, ix) <= usize::MAX,
        ensures
            slot == slot_of(self.pattern_len as nat, ix),
    {
        proof {
            assert(ix.text * self.pattern_len >= 0) by (nonlinear_arith);
        }
        ix.text * self.pattern_len + ix.pattern + ix.rep_off
    }
}

impl LatticeState<Config> for State {
    closed spec fn nodes(&self) -> Seq<NodeView> {
        Seq::new(self.size as nat, |slot: int| self.node_at(slot))
    }

    closed spec fn width(&self) -> nat {
        self.pattern_len as nat
    }

    fn new(conf: &Config) -> (state: Self) {
        proof {
            lemma_rows((conf@.text.len() + 1) as int, (conf@.flat.len() + 1) as int);
        }
        let pattern_len = conf.pattern_len() + 1;
        let text_len = conf.text_len() + 1;
        State { nodes: HashMap::new(), default: Node::new(), pattern_len, size: text_len * pattern_len }
    }

    fn get(&self, ix: Ix) -> (node: &Node) {
        let key = self.node(ix);
        match self.nodes.get(&key) {
            Some(node) => node,
            None => &self.default,
        }
    }

    fn get_mut(&mut self, ix: Ix) -> (node: &mut Node) {
        let key = self.node(ix);
        let fresh = self.default.clone();
        self.nodes.entry(key).or_insert(fresh)
    }
}

} // verus!
