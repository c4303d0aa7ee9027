//! The errors of pattern parsing and of the solver.

use vstd::prelude::*;
use regex_syntax::Error as RegexError;

verus! {

/// The error of the regular-expression parser.
#[verifier::external_type_specification]
#[verifier::external_body]
pub struct ExRegexError(RegexError);

/// What can go wrong between a pattern's text and the finished alignment.
///
/// The variants from [`Error::NoNodeProgress`] on tell of a fault inside the
/// solver, never of a fault in the input.
#[derive(Debug)]
pub enum Error {
    /// A file named on the command line could not be read.
    CouldNotReadFile(String),
    /// The regular-expression parser refuses the pattern.
    PatternNotRegex(RegexError),
    /// The pattern uses a construct that the solver does not know.
    PatternUnsupported(String),
    /// The pattern sets a repetition bound that does not fit the machine.
    RegexBoundTooLarge,
    /// The solver gave up after this many steps.
    ExceededMaxSteps(usize),
    /// A node was neither at work nor done after it was processed.
    NoNodeProgress(String),
    /// An index other than the last one offers no step.
    NoNodeType(String),
    /// A node was set up a second time.
    CannotInitialiseNode(String),
    /// A node was given a result while it was not at work.
    CannotUpdateNode(String),
    /// A field of a node was read in a state that does not hold it: the
    /// field's name, then the state that was expected.
    CannotGetNodeField(&'static str, &'static str),
    /// The finished table does not hold a whole alignment.
    IncompleteFinalState,
}

} // verus!
