//! Reads a pattern from its text, with the regular-expression parser of the
//! crate `regex_syntax`.
//!
//! The parser works on bytes where this library works on characters. A byte
//! of a literal is taken for the character with the byte's number, which is
//! right for ASCII.

use vstd::prelude::*;
use regex_syntax::hir::{Hir, HirKind};
use regex_syntax::hir::Class as HirClass;
use regex_syntax::Error as RegexError;
use crate::{
    element_views,
    Class,
    ClassRange,
    Element,
    ElementView,
    Match,
    MatchView,
    Pattern,
    Repetition,
    RepetitionView,
};
use crate::error::Error;

verus! {

/// A parsed regular expression, as `regex_syntax` hands it out.
#[verifier::external_type_specification]
#[verifier::external_body]
pub struct ExHir(Hir);

/// A class of characters, as `regex_syntax` hands it out.
#[verifier::external_type_specification]
#[verifier::external_body]
pub struct ExHirClass(HirClass);

/// The ranges that a class of `regex_syntax` holds, in its order, the ends
/// of a range of bytes taken for the characters with their numbers.
pub uninterp spec fn class_ranges(class: HirClass) -> Seq<ClassRange>;

/// What a parsed regular expression holds, as far as this library reads it.
pub uninterp spec fn hir_syntax(hir: Hir) -> SyntaxView;

/// What `regex_syntax` makes of the text of a pattern; none where it
/// refuses the text.
pub uninterp spec fn parsed(pattern: Seq<char>) -> Option<SyntaxView>;

impl Class {
    /// The class with the ranges of `hir_class`, from `ClassUnicode::iter`
    /// or `ClassBytes::iter` and the `start` and `end` of each range.
    #[verifier::external_body]
    pub fn from(hir_class: HirClass) -> (class: Class)
        ensures
            class@ == class_ranges(hir_class),
    {
        let ranges = match &hir_class {
            HirClass::Unicode(ranges) => ranges.iter().map(
                |range| ClassRange { start: range.start(), end: range.end() },
            ).collect(),
            HirClass::Bytes(ranges) => ranges.iter().map(
                |range| ClassRange { start: range.start() as char, end: range.end() as char },
            ).collect(),
        };
        Class { ranges }
    }
}

/// A parsed regular expression in this library's own terms.
#[derive(Debug)]
pub enum Syntax {
    /// These bytes, one after the other.
    Literal(Vec<u8>),
    Class(Class),
    Capture(Box<Syntax>),
    Alternation(Vec<Syntax>),
    /// Between `min` and `max` copies of `sub`.
    Repetition { min: u32, max: Option<u32>, sub: Box<Syntax> },
    Concat(Vec<Syntax>),
    /// The expression that matches the empty text and nothing else.
    Empty,
    /// A look-around assertion, with the text that `{:?}` gives for it.
    Look(String),
}

/// The view of a [`Syntax`].
pub enum SyntaxView {
    Literal(Seq<u8>),
    Class(Seq<ClassRange>),
    Capture(Box<SyntaxView>),
    Alternation(Seq<SyntaxView>),
    Repetition { min: u32, max: Option<u32>, sub: Box<SyntaxView> },
    Concat(Seq<SyntaxView>),
    Empty,
    Look(Seq<char>),
}

impl View for Syntax {
    type V = SyntaxView;

    open spec fn view(&self) -> SyntaxView
        decreases self,
    {
        match self {
            Syntax::Literal(bytes) => SyntaxView::Literal(bytes@),
            Syntax::Class(class) => SyntaxView::Class(class@),
            Syntax::Capture(sub) => SyntaxView::Capture(Box::new((**sub).view())),
            Syntax::Alternation(subs) => SyntaxView::Alternation(syntax_views(subs@)),
            Syntax::Repetition { min, max, sub } => SyntaxView::Repetition {
                min: *min,
                max: *max,
                sub: Box::new((**sub).view()),
            },
            Syntax::Concat(subs) => SyntaxView::Concat(syntax_views(subs@)),
            Syntax::Empty => SyntaxView::Empty,
            Syntax::Look(text) => SyntaxView::Look(text@),
        }
    }
}

/// The views of the expressions of `s`, in order.
pub open spec fn syntax_views(s: Seq<Syntax>) -> Seq<SyntaxView>
    decreases s,
{
    if s.len() == 0 {
        Seq::empty()
    } else {
        syntax_views(s.drop_last()).push(s.last()@)
    }
}

/// `regex_syntax::parse`: the parsed form of `pattern`, or the parser's
/// error. The same text gives the same outcome.
#[verifier::external_body]
fn parse_hir(pattern: &str) -> (r: Result<Hir, RegexError>)
    ensures
        match r {
            Ok(hir) => parsed(pattern@) == Some(hir_syntax(hir)),
            Err(_) => parsed(pattern@) is None,
        },
{
    regex_syntax::parse(pattern)
}

/// `Hir::kind`, followed down the whole expression: each kind becomes the
/// variant of [`Syntax`] with the same name.
#[verifier::external_body]
fn syntax_of(hir: &Hir) -> (syntax: Syntax)
    ensures
        syntax@ == hir_syntax(*hir),
{
    match hir.kind() {
        HirKind::Literal(literal) => Syntax::Literal(literal.0.to_vec()),
        HirKind::Class(class) => Syntax::Class(Class::from(class.clone())),
        HirKind::Capture(capture) => Syntax::Capture(Box::new(syntax_of(&capture.sub))),
        HirKind::Alternation(subs) => Syntax::Alternation(subs.iter().map(syntax_of).collect()),
        HirKind::Repetition(rep) => Syntax::Repetition {
            min: rep.min,
            max: rep.max,
            sub: Box::new(syntax_of(&rep.sub)),
        },
        HirKind::Concat(subs) => Syntax::Concat(subs.iter().map(syntax_of).collect()),
        HirKind::Empty => Syntax::Empty,
        look @ HirKind::Look(_) => Syntax::Look(format!("{:?}", look)),
    }
}

/// What the fault of the empty expression is told with.
pub const EMPTY: &'static str = "Empty";

/// Why a parsed regular expression gives no pattern.
pub enum Fault {
    /// It holds something that this library has no element for.
    Unsupported(Seq<char>),
    /// A bound of a repetition does not fit the machine's numbers.
    BoundTooLarge,
}

/// The fault that an error tells of, for the errors of reading a parsed
/// regular expression.
pub open spec fn fault_of(e: Error) -> Option<Fault> {
    match e {
        Error::PatternUnsupported(text) => Some(Fault::Unsupported(text@)),
        Error::RegexBoundTooLarge => Some(Fault::BoundTooLarge),
        _ => None,
    }
}

/// The elements of the literal `bytes`: each byte the literal character
/// with the byte's number.
pub open spec fn literal_elements(bytes: Seq<u8>) -> Seq<ElementView> {
    Seq::new(bytes.len(), |i: int| ElementView::Match(MatchView::Lit(bytes[i] as char)))
}

/// The elements that stand for the parsed regular expression `s`, or the
/// first fault that is met in it, from left to right.
///
/// An alternation of more than two branches becomes an alternative whose
/// first branch is the alternative of all branches but the last. The fault
/// of a repetition's body comes before that of its bounds. This library has
/// no element for the empty expression, nor for a look-around assertion.
pub open spec fn elements_of(s: SyntaxView) -> Result<Seq<ElementView>, Fault>
    decreases s, 0nat,
{
    match s {
        SyntaxView::Literal(bytes) => Ok(literal_elements(bytes)),
        SyntaxView::Class(ranges) => Ok(seq![ElementView::Match(MatchView::Class(ranges))]),
        SyntaxView::Capture(sub) => match elements_of(*sub) {
            Ok(inner) => Ok(seq![ElementView::Capture(inner)]),
            Err(fault) => Err(fault),
        },
        SyntaxView::Alternation(subs) => if subs.len() == 0 {
            Ok(Seq::empty())
        } else if subs.len() == 1 {
            elements_of(subs[0])
        } else {
            match alternative_of(subs, subs.len()) {
                Ok(alternative) => Ok(seq![alternative]),
                Err(fault) => Err(fault),
            }
        },
        SyntaxView::Repetition { min, max, sub } => match elements_of(*sub) {
            Err(fault) => Err(fault),
            Ok(inner) => if min > usize::MAX || (max is Some && max->0 > usize::MAX) {
                Err(Fault::BoundTooLarge)
            } else {
                Ok(
                    seq![
                        ElementView::Repetition(
                            RepetitionView {
                                minimum: min as nat,
                                maximum: match max {
                                    Some(m) => Some(m as nat),
                                    None => None,
                                },
                                inner,
                            },
                        ),
                    ],
                )
            },
        },
        SyntaxView::Concat(subs) => concat_of(subs, subs.len()),
        SyntaxView::Empty => Err(Fault::Unsupported(EMPTY@)),
        SyntaxView::Look(text) => Err(Fault::Unsupported(text)),
    }
}

/// The alternative of the first `k` branches of `subs`, for `k` of 2 and
/// more.
pub open spec fn alternative_of(subs: Seq<SyntaxView>, k: nat) -> Result<ElementView, Fault>
    decreases subs, k,
{
    if k < 2 || k > subs.len() {
        Err(Fault::BoundTooLarge)
    } else if k == 2 {
        match elements_of(subs[0]) {
            Err(fault) => Err(fault),
            Ok(first) => match elements_of(subs[1]) {
                Err(fault) => Err(fault),
                Ok(second) => Ok(ElementView::Alternative(first, second)),
            },
        }
    } else {
        match alternative_of(subs, (k - 1) as nat) {
            Err(fault) => Err(fault),
            Ok(before) => match elements_of(subs[k - 1]) {
                Err(fault) => Err(fault),
                Ok(last) => Ok(ElementView::Alternative(seq![before], last)),
            },
        }
    }
}

/// The elements of the first `k` expressions of `subs`, one after the
/// other.
pub open spec fn concat_of(subs: Seq<SyntaxView>, k: nat) -> Result<Seq<ElementView>, Fault>
    decreases subs, k,
{
    if k == 0 || k > subs.len() {
        Ok(Seq::empty())
    } else {
        match concat_of(subs, (k - 1) as nat) {
            Err(fault) => Err(fault),
            Ok(before) => match elements_of(subs[k - 1]) {
                Err(fault) => Err(fault),
                Ok(more) => Ok(before + more),
            },
        }
    }
}

/// Whether `r` is what reading a parsed regular expression owes, where
/// `expected` is what the expression stands for.
pub open spec fn read_as(r: Result<Vec<Element>, Error>, expected: Result<Seq<ElementView>, Fault>)
    -> bool {
    match expected {
        Ok(elements) => r matches Ok(elems) && element_views(elems@) == elements,
        Err(fault) => r matches Err(e) && fault_of(e) == Some(fault),
    }
}

/// The bound of a repetition as a number of the machine.
fn machine_bound(limit: u32) -> (r: Result<usize, Error>)
    ensures
        limit <= usize::MAX ==> r == Ok::<usize, Error>(limit as usize),
        limit > usize::MAX ==> r matches Err(Error::RegexBoundTooLarge),
{
    if limit as u64 <= usize::MAX as u64 {
        Ok(limit as usize)
    } else {
        Err(Error::RegexBoundTooLarge)
    }
}

proof fn lemma_element_views_add(a: Seq<Element>, b: Seq<Element>)
    ensures
        element_views(a + b) == element_views(a) + element_views(b),
{
    assert(element_views(a + b) =~= element_views(a) + element_views(b));
}

proof fn lemma_element_views_one(e: Element)
    ensures
        element_views(seq![e]) == seq![e@],
        element_views(Seq::<Element>::empty()) == Seq::<ElementView>::empty(),
{
    assert(element_views(seq![e]) =~= seq![e@]);
    assert(element_views(Seq::<Element>::empty()) =~= Seq::<ElementView>::empty());
}

/// The elements that stand for the parsed regular expression `syntax`.
pub fn parse_impl(syntax: &Syntax) -> (r: Result<Vec<Element>, Error>)
    ensures
        read_as(r, elements_of(syntax@)),
    decreases syntax,
{
    match syntax {
        Syntax::Literal(bytes) => {
            let mut elems: Vec<Element> = Vec::new();
            let mut i: usize = 0;
            while i < bytes.len()
                invariant
                    i <= bytes.len(),
                    elems@.len() == i,
                    forall|j: int|
                        0 <= j < i ==> (#[trigger] elems@[j])@ == ElementView::Match(
                            MatchView::Lit(bytes@[j] as char),
                        ),
                decreases bytes.len() - i,
            {
                elems.push(Element::Match(Match::Lit(bytes[i] as char)));
                i += 1;
            }
            assert(element_views(elems@) =~= literal_elements(bytes@));
            Ok(elems)
        },
        Syntax::Class(class) => {
            let elem = Element::Match(Match::Class(class.clone()));
            proof {
                lemma_element_views_one(elem);
            }
            let elems = vec![elem];
            assert(elems@ =~= seq![elem]);
            Ok(elems)
        },
        Syntax::Capture(sub) => {
            let inner = parse_impl(sub)?;
            let elem = Element::Capture(Pattern { elems: inner });
            proof {
                lemma_element_views_one(elem);
            }
            let elems = vec![elem];
            assert(elems@ =~= seq![elem]);
            Ok(elems)
        },
        Syntax::Alternation(children) => {
            let ghost views = syntax_views(children@);
            proof {
                lemma_syntax_views(children@);
            }
            if children.len() == 0 {
                proof {
                    lemma_element_views_one(Element::Match(Match::Lit('a')));
                }
                Ok(Vec::new())
            } else if children.len() == 1 {
                assert(views[0] == children@[0]@);
                parse_impl(&children[0])
            } else {
                assert(views[0] == children@[0]@);
                assert(views[1] == children@[1]@);
                let first = match parse_impl(&children[0]) {
                    Ok(p) => p,
                    Err(e) => {
                        proof {
                            lemma_alternative_fault(views, 2, children.len() as nat);
                        }
                        return Err(e);
                    },
                };
                let second = match parse_impl(&children[1]) {
                    Ok(p) => p,
                    Err(e) => {
                        proof {
                            lemma_alternative_fault(views, 2, children.len() as nat);
                        }
                        return Err(e);
                    },
                };
                let mut elem = Element::Alternative(Pattern { elems: first }, Pattern { elems: second });
                let mut k: usize = 2;
                while k < children.len()
                    invariant
                        2 <= k <= children.len(),
                        views == syntax_views(children@),
                        views.len() == children.len(),
                        syntax@ == SyntaxView::Alternation(views),
                        alternative_of(views, k as nat) == Ok::<ElementView, Fault>(elem@),
                        forall|i: int|
                            0 <= i < children.len() ==> decreases_to!(syntax => #[trigger] children@[i]),
                    decreases children.len() - k,
                {
                    proof {
                        lemma_syntax_views(children@);
                    }
                    let p = match parse_impl(&children[k]) {
                        Ok(p) => p,
                        Err(e) => {
                            proof {
                                lemma_alternative_fault(
                                    views,
                                    (k + 1) as nat,
                                    children.len() as nat,
                                );
                            }
                            return Err(e);
                        },
                    };
                    let before = vec![elem];
                    proof {
                        lemma_element_views_one(before@[0]);
                        assert(before@ =~= seq![before@[0]]);
                    }
                    elem = Element::Alternative(Pattern { elems: before }, Pattern { elems: p });
                    k += 1;
                }
                proof {
                    lemma_element_views_one(elem);
                }
                let elems = vec![elem];
                assert(elems@ =~= seq![elem]);
                Ok(elems)
            }
        },
        Syntax::Repetition { min, max, sub } => {
            match parse_impl(sub) {
                Err(e) => Err(e),
                Ok(inner) => {
                    let minimum = machine_bound(*min)?;
                    let maximum = match max {
                        Some(max) => Some(machine_bound(*max)?),
                        None => None,
                    };
                    let elem = Element::Repetition(
                        Repetition { minimum, maximum, inner: Pattern { elems: inner } },
                    );
                    proof {
                        lemma_element_views_one(elem);
                    }
                    let elems = vec![elem];
                    assert(elems@ =~= seq![elem]);
                    Ok(elems)
                },
            }
        },
        Syntax::Concat(subs) => {
            let ghost views = syntax_views(subs@);
            proof {
                lemma_syntax_views(subs@);
            }
            let mut elems: Vec<Element> = Vec::new();
            let mut k: usize = 0;
            proof {
                lemma_element_views_one(Element::Match(Match::Lit('a')));
            }
            while k < subs.len()
                invariant
                    k <= subs.len(),
                    views == syntax_views(subs@),
                    views.len() == subs.len(),
                    syntax@ == SyntaxView::Concat(views),
                    concat_of(views, k as nat) == Ok::<Seq<ElementView>, Fault>(
                        element_views(elems@),
                    ),
                    forall|i: int|
                        0 <= i < subs.len() ==> decreases_to!(syntax => #[trigger] subs@[i]),
                decreases subs.len() - k,
            {
                proof {
                    lemma_syntax_views(subs@);
                }
                let mut more = match parse_impl(&subs[k]) {
                    Ok(more) => more,
                    Err(e) => {
                        proof {
                            lemma_concat_fault(views, (k + 1) as nat, subs.len() as nat);
                        }
                        return Err(e);
                    },
                };
                proof {
                    lemma_element_views_add(elems@, more@);
                }
                elems.append(&mut more);
                k += 1;
            }
            Ok(elems)
        },
        Syntax::Empty => Err(Error::PatternUnsupported(EMPTY.to_owned())),
        Syntax::Look(text) => Err(Error::PatternUnsupported(text.clone())),
    }
}

proof fn lemma_syntax_views(s: Seq<Syntax>)
    ensures
        syntax_views(s).len() == s.len(),
        forall|i: int| 0 <= i < s.len() ==> #[trigger] syntax_views(s)[i] == s[i]@,
    decreases s.len(),
{
    if s.len() > 0 {
        lemma_syntax_views(s.drop_last());
        assert(syntax_views(s) == syntax_views(s.drop_last()).push(s.last()@));
    } else {
        assert(syntax_views(s) == Seq::<SyntaxView>::empty());
    }
}

/// A fault among the first branches of an alternation is the fault of the
/// whole.
proof fn lemma_alternative_fault(subs: Seq<SyntaxView>, k: nat, n: nat)
    requires
        2 <= k <= n <= subs.len(),
        alternative_of(subs, k) is Err,
    ensures
        alternative_of(subs, n) == alternative_of(subs, k),
    decreases n - k,
{
    if k < n {
        lemma_alternative_fault(subs, k, (n - 1) as nat);
    }
}

/// A fault among the first expressions of a concatenation is the fault of
/// the whole.
proof fn lemma_concat_fault(subs: Seq<SyntaxView>, k: nat, n: nat)
    requires
        1 <= k <= n <= subs.len(),
        concat_of(subs, k) is Err,
    ensures
        concat_of(subs, n) == concat_of(subs, k),
    decreases n - k,
{
    if k < n {
        lemma_concat_fault(subs, k, (n - 1) as nat);
    }
}

/// Whether `r` is what reading the text `pattern` owes: the parser's error
/// where `regex_syntax` refuses the text, and else what the parsed
/// expression stands for.
pub open spec fn parsed_as(r: Result<Pattern<Element>, Error>, pattern: Seq<char>) -> bool {
    match parsed(pattern) {
        None => r matches Err(Error::PatternNotRegex(_)),
        Some(syntax) => match elements_of(syntax) {
            Ok(elements) => r matches Ok(p) && p@ == elements,
            Err(fault) => r matches Err(e) && fault_of(e) == Some(fault),
        },
    }
}

/// The pattern that the text `pattern` stands for.
pub fn parse_pattern(pattern: &str) -> (r: Result<Pattern<Element>, Error>)
    ensures
        parsed_as(r, pattern@),
{
    let hir = match parse_hir(pattern) {
        Ok(hir) => hir,
        Err(e) => {
            return Err(Error::PatternNotRegex(e));
        },
    };
    let syntax = syntax_of(&hir);
    wrap(parse_impl(&syntax))
}

fn wrap(try_elems: Result<Vec<Element>, Error>) -> (r: Result<Pattern<Element>, Error>)
    ensures
        match try_elems {
            Ok(elems) => r matches Ok(p) && p.elems == elems,
            Err(e) => r == Err::<Pattern<Element>, Error>(e),
        },
{
    match try_elems {
        Ok(elems) => Ok(Pattern { elems }),
        Err(e) => Err(e),
    }
}

} // verus!
