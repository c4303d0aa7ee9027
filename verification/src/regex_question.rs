//! A problem asked as two texts: the pattern as a regular expression, and
//! the text to match.

use vstd::prelude::*;
use crate::{Atoms, Element, Problem};
use crate::error::Error;
use crate::regex_pattern::{parse_pattern, parsed_as};

verus! {

pub struct RegexQuestion {
    /// The pattern, written as a regular expression.
    pub pattern_regex: String,
    /// The text to match.
    pub text: String,
}

impl RegexQuestion {
    /// The problem that the question asks: the pattern that the regular
    /// expression stands for, and the characters of the text.
    pub fn ask(&self) -> (r: Result<Problem<Element>, Error>)
        ensures
            match r {
                Ok(problem) => parsed_as(Ok(problem.pattern), self.pattern_regex@) && problem.text@
                    == self.text@,
                Err(e) => parsed_as(Err(e), self.pattern_regex@),
            },
    {
        let pattern = parse_pattern(self.pattern_regex.as_str())?;
        let text = Atoms { atoms: Self::atoms(self.text.as_str()) };
        Ok(Problem { pattern, text })
    }

    /// The characters of `text`, in order.
    fn atoms(text: &str) -> (atoms: Vec<char>)
        ensures
            atoms@ == text@,
    {
        let mut atoms: Vec<char> = Vec::new();
        for c in it: text.chars()
            invariant
                it.seq() == text@,
                atoms@ == text@.take(it.index() as int),
        {
            atoms.push(c);
            assert(atoms@ =~= text@.take(it.index() + 1));
        }
        assert(atoms@ =~= text@);
        atoms
    }
}

} // verus!
