//! The node that the solver keeps for one index of the lattice.

use vstd::prelude::*;
use crate::error::Error;
use crate::lattice::{nonempty_into_vec, step_cost, step_types_of, Ix, NodeType, StepType};

verus! {

/// The text that `{:?}` gives for the index with these four fields.
pub uninterp spec fn ix_debug(pattern: usize, text: usize, reps: usize, rep_off: usize) -> Seq<
    char,
>;

/// The index as `{:?}` writes it, through the `Debug` that is derived for
/// [`Ix`].
#[verifier::external_body]
pub(crate) fn debug_ix(ix: &Ix) -> (text: String)
    ensures
        text@ == ix_debug(ix.pattern, ix.text, ix.reps, ix.rep_off),
{
    format!("{:?}", ix)
}

/// What the solver knows of one index of the lattice.
///
/// A node is ready until the solver first comes to it, then working while
/// the steps that lead on from it are tried one after the other, and done
/// once the last of them has been tried. While it is working it holds the
/// best of the steps tried so far, so that it holds the best of all when it
/// is done.
#[derive(Debug)]
pub struct Node {
    current: usize,
    parent: Ix,
    score: usize,
    step_type: StepType,
    next: Ix,
    step_types: Vec<StepType>,
}

/// The view of a [`Node`].
pub struct NodeView {
    /// 0 while the node is ready; then one more than the number of steps that
    /// have been tried.
    pub current: usize,
    /// The index from which the solver first came to the node.
    pub parent: Ix,
    /// The best score of the steps tried so far.
    pub score: usize,
    /// The best of the steps tried so far.
    pub step_type: StepType,
    /// The index that the best step leads to.
    pub next: Ix,
    /// The steps that lead on from the node, in the order in which they are
    /// tried.
    pub step_types: Seq<StepType>,
}

impl NodeView {
    /// The node that the solver has not come to yet.
    pub open spec fn fresh() -> NodeView {
        NodeView {
            current: 0,
            parent: Ix { pattern: 0, text: 0, reps: 0, rep_off: 0 },
            score: 0,
            step_type: StepType::Hit,
            next: Ix { pattern: 0, text: 0, reps: 0, rep_off: 0 },
            step_types: Seq::empty(),
        }
    }

    pub open spec fn is_ready(self) -> bool {
        self.current == 0
    }

    pub open spec fn is_working(self) -> bool {
        self.current > 0 && self.current <= self.step_types.len()
    }

    pub open spec fn is_done(self) -> bool {
        self.current > self.step_types.len()
    }

    /// The step that a working node is trying.
    pub open spec fn trying(self) -> StepType {
        self.step_types[self.current - 1]
    }
}

impl View for Node {
    type V = NodeView;

    closed spec fn view(&self) -> NodeView {
        NodeView {
            current: self.current,
            parent: self.parent,
            score: self.score,
            step_type: self.step_type,
            next: self.next,
            step_types: self.step_types@,
        }
    }
}

impl Clone for Node {
    fn clone(&self) -> (node: Self)
        ensures
            node@ == self@,
    {
        Node {
            current: self.current,
            parent: self.parent,
            score: self.score,
            step_type: self.step_type,
            next: self.next,
            step_types: self.step_types.clone(),
        }
    }
}

impl Node {
    pub fn new() -> (node: Self)
        ensures
            node@ == NodeView::fresh(),
    {
        Self {
            current: 0,
            parent: Default::default(),
            score: 0,
            step_type: StepType::Hit,
            next: Default::default(),
            step_types: Vec::new(),
        }
    }

    pub fn is_ready(&self) -> (b: bool)
        ensures
            b == self@.is_ready(),
    {
        self.current == 0
    }

    pub fn is_working(&self) -> (b: bool)
        ensures
            b == self@.is_working(),
    {
        self.current > 0 && self.current <= self.step_types.len()
    }

    pub fn is_done(&self) -> (b: bool)
        ensures
            b == self@.is_done(),
    {
        self.current > self.step_types.len()
    }

    /// The step that the node is trying, for a node that is working.
    pub fn current_step_type(&self) -> (r: Result<StepType, Error>)
        ensures
            self@.is_working() ==> r == Ok::<StepType, Error>(self@.trying()),
            !self@.is_working() ==> (r matches Err(Error::CannotGetNodeField(field, state))
                && field@ == "current_step_type"@ && state@ == "working"@),
    {
        if self.is_working() {
            Ok(self.step_types[self.current - 1])
        } else {
            Err(Error::CannotGetNodeField("current_step_type", "working"))
        }
    }

    /// The best score, the best step and the index that it leads to, for a
    /// node that is done.
    pub fn done_info(&self) -> (r: Result<(usize, StepType, Ix), Error>)
        ensures
            self@.is_done() ==> r == Ok::<(usize, StepType, Ix), Error>(
                (self@.score, self@.step_type, self@.next),
            ),
            !self@.is_done() ==> (r matches Err(Error::CannotGetNodeField(field, state))
                && field@ == "score/step_type/next"@ && state@ == "done"@),
    {
        if self.is_done() {
            Ok((self.score, self.step_type, self.next))
        } else {
            Err(Error::CannotGetNodeField("score/step_type/next", "done"))
        }
    }

    /// Sets a ready node to work: on the steps of `opt_node_type`, or on no
    /// step at all at the last index, which is thereby done.
    pub fn initialise(
        &mut self,
        end_ix: Ix,
        parent_ix: Ix,
        ix: Ix,
        opt_node_type: Option<NodeType>,
    ) -> (r: Result<(), Error>)
        ensures
            !old(self)@.is_ready() ==> final(self)@ == old(self)@ && (r matches Err(
                Error::CannotInitialiseNode(text),
            ) && text@ == ix_debug(ix.pattern, ix.text, ix.reps, ix.rep_off)),
            old(self)@.is_ready() ==> match opt_node_type {
                Some(node_type) => r is Ok && final(self)@ == (NodeView {
                    current: 1,
                    parent: parent_ix,
                    step_types: step_types_of(node_type),
                    ..old(self)@
                }),
                None => if ix == end_ix {
                    r is Ok && final(self)@ == (NodeView {
                        current: 1,
                        parent: parent_ix,
                        ..old(self)@
                    })
                } else {
                    final(self)@ == old(self)@ && (r matches Err(Error::NoNodeType(text)) && text@
                        == ix_debug(ix.pattern, ix.text, ix.reps, ix.rep_off))
                },
            },
    {
        if self.is_ready() {
            match opt_node_type {
                Some(node_type) => {
                    let step_types = nonempty_into_vec(node_type.step_types());
                    self.parent = parent_ix;
                    self.current += 1;
                    self.step_types = step_types;
                    Ok(())
                },
                None => {
                    if ix == end_ix {
                        self.parent = parent_ix;
                        self.current += 1;
                        Ok(())
                    } else {
                        Err(Error::NoNodeType(debug_ix(&ix)))
                    }
                },
            }
        } else {
            Err(Error::CannotInitialiseNode(debug_ix(&ix)))
        }
    }

    /// Takes in the best score `new_score` from the index `new_child` that
    /// the step on trial leads to: the step becomes the node's best step if
    /// it is the first, or better than the best before it. The node goes on
    /// to its next step. Hands back the node's parent.
    pub fn update(&mut self, new_child: Ix, ix: Ix, new_score: usize) -> (r: Result<Ix, Error>)
        requires
            new_score < usize::MAX,
            old(self)@.current < usize::MAX,
        ensures
            !old(self)@.is_working() ==> final(self)@ == old(self)@ && (r matches Err(
                Error::CannotUpdateNode(text),
            ) && text@ == ix_debug(ix.pattern, ix.text, ix.reps, ix.rep_off)),
            old(self)@.is_working() ==> r == Ok::<Ix, Error>(old(self)@.parent) && final(self)@
                == (if old(self)@.current <= 1 || new_score + step_cost(old(self)@.trying()) < old(
                self,
            )@.score {
                NodeView {
                    current: (old(self)@.current + 1) as usize,
                    step_type: old(self)@.trying(),
                    score: (new_score + step_cost(old(self)@.trying())) as usize,
                    next: new_child,
                    ..old(self)@
                }
            } else {
                NodeView { current: (old(self)@.current + 1) as usize, ..old(self)@ }
            }),
    {
        if self.is_working() {
            let parent_ix = self.parent;
            let current_step_type = self.step_types[self.current - 1];
            let new_score = new_score + current_step_type.cost();
            if self.current <= 1 || new_score < self.score {
                self.step_type = current_step_type;
                self.score = new_score;
                self.next = new_child;
                self.current += 1;
            } else {
                self.current += 1;
            }
            Ok(parent_ix)
        } else {
            Err(Error::CannotUpdateNode(debug_ix(&ix)))
        }
    }
}

} // verus!
