//! Closest approximate match between a regex-like pattern and a text.
//!
//! The pattern and the text do not have to match exactly, or even closely: the
//! solver finds the cheapest way to align the two, skipping characters of the
//! text or of the pattern where it has to, and hands back the number of skipped
//! characters together with the steps of the alignment.
//!
//! A pattern is read from its text by
//! [`parse_pattern`](regex_pattern::parse_pattern), or built as a
//! [`Pattern<Element>`] by hand. [`Pattern::desugar`] brings it into its core
//! form, in which a repetition has no bounds. The solvers,
//! [`TableSolution::solve`](table_solution::TableSolution::solve) and
//! [`MapSolution::solve`](map_solution::MapSolution::solve), flatten the core
//! form into a [`FlatPattern`](flat_pattern::FlatPattern) and walk through the
//! [`Lattice`](lattice::Lattice) of flat pattern and text. A
//! [`DiffOutput`](diff_output::DiffOutput) shows the alignment that they find.
//!
//! Every type that holds a vector has a view: the same value with mathematical
//! sequences in place of vectors. Contracts are stated over views. What the
//! solvers hand back is fixed by [`Lattice::opt`](lattice::Lattice::opt) and
//! [`Lattice::opt_trace`](lattice::Lattice::opt_trace); what holds of it is
//! proved in the modules [`optimum`], [`lattice_solution`] and [`empty`].
//!
//! What an alignment is can be said without the lattice: a trace that holds
//! the text, and of the pattern the literals and classes on one way through
//! it. The module [`alignment`] says so, and the solvers promise the best of
//! these: [`shape`] proves that what they hand back is one, and [`least`]
//! that none passes over fewer characters.

use vstd::prelude::*;

pub mod alignment;
pub mod config;
pub mod diff_output;
pub mod empty;
pub mod error;
pub mod flat_pattern;
pub mod lattice;
pub mod lattice_solution;
pub mod layout;
pub mod least;
pub mod map_solution;
pub mod node;
pub mod optimum;
pub mod reach;
pub mod regex_pattern;
pub mod regex_question;
pub mod search;
pub mod shape;
pub mod table_solution;

verus! {

/// A closed range of characters, both ends included.
#[derive(Clone, Copy, PartialEq, Eq, Debug)]
pub struct ClassRange {
    pub start: char,
    pub end: char,
}

/// A class of characters, such as `.` or `[a-z]`: a list of ranges, and a
/// character belongs to the class when one of the ranges holds it.
#[derive(PartialEq, Eq, Debug)]
pub struct Class {
    ranges: Vec<ClassRange>,
}

impl View for Class {
    type V = Seq<ClassRange>;

    closed spec fn view(&self) -> Seq<ClassRange> {
        self.ranges@
    }
}

/// Whether one of `ranges` holds `c`.
pub open spec fn class_matches(ranges: Seq<ClassRange>, c: char) -> bool {
    exists|i: int| 0 <= i < ranges.len() && in_range(#[trigger] ranges[i], c)
}

/// Whether `c` lies between the two ends of `range`.
pub open spec fn in_range(range: ClassRange, c: char) -> bool {
    range.start <= c && c <= range.end
}

impl Class {
    /// The class made of the given ranges.
    pub fn new(ranges: Vec<ClassRange>) -> (class: Class)
        ensures
            class@ == ranges@,
    {
        Class { ranges }
    }

    /// The ranges of the class, in the order in which they are tried.
    pub fn ranges(&self) -> (ranges: &Vec<ClassRange>)
        ensures
            ranges@ == self@,
    {
        &self.ranges
    }

    /// Whether `c` belongs to the class.
    pub fn matches(&self, c: char) -> (b: bool)
        ensures
            b == class_matches(self@, c),
    {
        let mut i: usize = 0;
        while i < self.ranges.len()
            invariant
                i <= self.ranges.len(),
                forall|j: int| 0 <= j < i ==> !in_range(#[trigger] self.ranges@[j], c),
            decreases self.ranges.len() - i,
        {
            if self.ranges[i].start <= c && c <= self.ranges[i].end {
                assert(in_range(self.ranges@[i as int], c));
                return true;
            }
            i += 1;
        }
        false
    }
}

impl Clone for Class {
    fn clone(&self) -> (class: Self)
        ensures
            class@ == self@,
    {
        Class { ranges: self.ranges.clone() }
    }
}

/// What a pattern asks of one character of the text.
#[derive(PartialEq, Eq, Debug)]
pub enum Match {
    /// This very character.
    Lit(char),
    /// Any character of the class.
    Class(Class),
}

/// The view of a [`Match`].
pub enum MatchView {
    Lit(char),
    Class(Seq<ClassRange>),
}

impl View for Match {
    type V = MatchView;

    open spec fn view(&self) -> MatchView {
        match self {
            Match::Lit(c) => MatchView::Lit(*c),
            Match::Class(class) => MatchView::Class(class@),
        }
    }
}

impl Clone for Match {
    fn clone(&self) -> (m: Self)
        ensures
            m@ == self@,
    {
        match self {
            Match::Lit(c) => Match::Lit(*c),
            Match::Class(class) => Match::Class(class.clone()),
        }
    }
}

/// A sequence of pattern elements, matched one after the other.
#[derive(Clone, PartialEq, Eq, Debug)]
pub struct Pattern<E> {
    pub elems: Vec<E>,
}

/// An element of a pattern as its author wrote it.
#[derive(PartialEq, Eq, Debug)]
pub enum Element {
    Match(Match),
    Capture(Pattern<Element>),
    Repetition(Repetition),
    Alternative(Pattern<Element>, Pattern<Element>),
}

/// Between `minimum` and `maximum` copies of `inner`; without a maximum, any
/// number from `minimum` on.
#[derive(Clone, PartialEq, Eq, Debug)]
pub struct Repetition {
    pub minimum: usize,
    pub maximum: Option<usize>,
    pub inner: Pattern<Element>,
}

/// An element of a pattern in core form, where a repetition stands for any
/// number of copies, none included.
#[derive(PartialEq, Eq, Debug)]
pub enum ElementCore {
    Match(Match),
    Capture(Pattern<ElementCore>),
    Repetition(Pattern<ElementCore>),
    Alternative(Pattern<ElementCore>, Pattern<ElementCore>),
}

/// The view of an [`Element`].
pub enum ElementView {
    Match(MatchView),
    Capture(Seq<ElementView>),
    Repetition(RepetitionView),
    Alternative(Seq<ElementView>, Seq<ElementView>),
}

/// The view of a [`Repetition`].
pub struct RepetitionView {
    pub minimum: nat,
    pub maximum: Option<nat>,
    pub inner: Seq<ElementView>,
}

/// The view of an [`ElementCore`].
pub enum CoreElementView {
    Match(MatchView),
    Capture(Seq<CoreElementView>),
    Repetition(Seq<CoreElementView>),
    Alternative(Seq<CoreElementView>, Seq<CoreElementView>),
}

impl View for Element {
    type V = ElementView;

    open spec fn view(&self) -> ElementView
        decreases self,
    {
        match self {
            Element::Match(m) => ElementView::Match(m@),
            Element::Capture(p) => ElementView::Capture(element_views(p.elems@)),
            Element::Repetition(r) => ElementView::Repetition(
                RepetitionView {
                    minimum: r.minimum as nat,
                    maximum: match r.maximum {
                        Some(m) => Some(m as nat),
                        None => None,
                    },
                    inner: element_views(r.inner.elems@),
                },
            ),
            Element::Alternative(p, q) => ElementView::Alternative(
                element_views(p.elems@),
                element_views(q.elems@),
            ),
        }
    }
}

/// The views of the elements of `s`, in order.
pub open spec fn element_views(s: Seq<Element>) -> Seq<ElementView>
    decreases s,
{
    Seq::new(
        s.len(),
        |i: int|
            if 0 <= i < s.len() {
                s[i]@
            } else {
                arbitrary()
            },
    )
}

impl View for ElementCore {
    type V = CoreElementView;

    open spec fn view(&self) -> CoreElementView
        decreases self,
    {
        match self {
            ElementCore::Match(m) => CoreElementView::Match(m@),
            ElementCore::Capture(p) => CoreElementView::Capture(core_views(p.elems@)),
            ElementCore::Repetition(p) => CoreElementView::Repetition(core_views(p.elems@)),
            ElementCore::Alternative(p, q) => CoreElementView::Alternative(
                core_views(p.elems@),
                core_views(q.elems@),
            ),
        }
    }
}

/// The views of the elements of `s`, in order.
pub open spec fn core_views(s: Seq<ElementCore>) -> Seq<CoreElementView>
    decreases s,
{
    Seq::new(
        s.len(),
        |i: int|
            if 0 <= i < s.len() {
                s[i]@
            } else {
                arbitrary()
            },
    )
}

impl Pattern<Element> {
    /// The views of the pattern's elements.
    pub open spec fn view(&self) -> Seq<ElementView> {
        element_views(self.elems@)
    }
}

/// A copy of `elems`, element by element.
fn duplicate_elements(elems: &Vec<Element>) -> (copy: Vec<Element>)
    ensures
        element_views(copy@) == element_views(elems@),
    decreases elems,
{
    let mut copy: Vec<Element> = Vec::new();
    let mut i: usize = 0;
    while i < elems.len()
        invariant
            i <= elems.len(),
            copy@.len() == i,
            forall|j: int| 0 <= j < i ==> (#[trigger] copy@[j])@ == elems@[j]@,
        decreases elems.len() - i,
    {
        let e = elems[i].duplicate();
        copy.push(e);
        i += 1;
    }
    assert(element_views(copy@) =~= element_views(elems@));
    copy
}

impl Element {
    /// A copy of the element.
    pub fn duplicate(&self) -> (elem: Self)
        ensures
            elem@ == self@,
        decreases self,
    {
        match self {
            Element::Match(m) => Element::Match(m.clone()),
            Element::Capture(p) => Element::Capture(
                Pattern { elems: duplicate_elements(&p.elems) },
            ),
            Element::Repetition(r) => Element::Repetition(
                Repetition {
                    minimum: r.minimum,
                    maximum: r.maximum,
                    inner: Pattern { elems: duplicate_elements(&r.inner.elems) },
                },
            ),
            Element::Alternative(p, q) => Element::Alternative(
                Pattern { elems: duplicate_elements(&p.elems) },
                Pattern { elems: duplicate_elements(&q.elems) },
            ),
        }
    }
}

impl Clone for Element {
    fn clone(&self) -> (elem: Self)
        ensures
            elem@ == self@,
    {
        self.duplicate()
    }
}

impl Pattern<ElementCore> {
    /// The views of the pattern's elements.
    pub open spec fn view(&self) -> Seq<CoreElementView> {
        core_views(self.elems@)
    }

    /// A copy of the pattern.
    pub fn duplicate(&self) -> (pattern: Self)
        ensures
            pattern@ == self@,
    {
        Pattern { elems: duplicate_cores(&self.elems) }
    }
}

/// A copy of `elems`, element by element.
fn duplicate_cores(elems: &Vec<ElementCore>) -> (copy: Vec<ElementCore>)
    ensures
        core_views(copy@) == core_views(elems@),
    decreases elems,
{
    let mut copy: Vec<ElementCore> = Vec::new();
    let mut i: usize = 0;
    while i < elems.len()
        invariant
            i <= elems.len(),
            copy@.len() == i,
            forall|j: int| 0 <= j < i ==> (#[trigger] copy@[j])@ == elems@[j]@,
        decreases elems.len() - i,
    {
        let e = elems[i].duplicate();
        copy.push(e);
        i += 1;
    }
    assert(core_views(copy@) =~= core_views(elems@));
    copy
}

impl ElementCore {
    /// A copy of the element.
    pub fn duplicate(&self) -> (elem: Self)
        ensures
            elem@ == self@,
        decreases self,
    {
        match self {
            ElementCore::Match(m) => ElementCore::Match(m.clone()),
            ElementCore::Capture(p) => ElementCore::Capture(
                Pattern { elems: duplicate_cores(&p.elems) },
            ),
            ElementCore::Repetition(p) => ElementCore::Repetition(
                Pattern { elems: duplicate_cores(&p.elems) },
            ),
            ElementCore::Alternative(p, q) => ElementCore::Alternative(
                Pattern { elems: duplicate_cores(&p.elems) },
                Pattern { elems: duplicate_cores(&q.elems) },
            ),
        }
    }
}

impl Clone for ElementCore {
    fn clone(&self) -> (elem: Self)
        ensures
            elem@ == self@,
    {
        self.duplicate()
    }
}

/// `k` copies of `s`, one after the other.
pub open spec fn repeat<A>(s: Seq<A>, k: nat) -> Seq<A>
    decreases k,
{
    if k == 0 {
        Seq::empty()
    } else {
        repeat(s, (k - 1) as nat) + s
    }
}

/// At most `k` copies of `inner`: nothing where `k` is 0, else the choice
/// between nothing and one copy followed by at most `k - 1` more.
pub open spec fn up_to(inner: Seq<CoreElementView>, k: nat) -> Seq<CoreElementView>
    decreases k,
{
    if k == 0 {
        Seq::empty()
    } else {
        seq![CoreElementView::Alternative(Seq::empty(), inner + up_to(inner, (k - 1) as nat))]
    }
}

/// The core elements that stand for `e`.
///
/// A repetition becomes `minimum` copies of its body, followed by a core
/// repetition of the body where it has no maximum, and by at most
/// `maximum - minimum` further copies where it has one.
pub open spec fn desugar_element(e: ElementView) -> Seq<CoreElementView>
    decreases e,
{
    match e {
        ElementView::Match(m) => seq![CoreElementView::Match(m)],
        ElementView::Capture(p) => seq![CoreElementView::Capture(desugar_elements(p))],
        ElementView::Repetition(r) => {
            let inner = desugar_elements(r.inner);
            match r.maximum {
                None => repeat(inner, r.minimum) + seq![CoreElementView::Repetition(inner)],
                Some(maximum) => repeat(inner, r.minimum) + up_to(
                    inner,
                    if maximum >= r.minimum {
                        (maximum - r.minimum) as nat
                    } else {
                        0
                    },
                ),
            }
        },
        ElementView::Alternative(p, q) => seq![
            CoreElementView::Alternative(desugar_elements(p), desugar_elements(q)),
        ],
    }
}

/// The core elements that stand for the elements of `s`, in order.
pub open spec fn desugar_elements(s: Seq<ElementView>) -> Seq<CoreElementView>
    decreases s,
{
    if s.len() == 0 {
        Seq::empty()
    } else {
        desugar_elements(s.drop_last()) + desugar_element(s.last())
    }
}

/// The element that a pattern's author would write for the core element `c`.
pub open spec fn sugar_element(c: CoreElementView) -> ElementView
    decreases c,
{
    match c {
        CoreElementView::Match(m) => ElementView::Match(m),
        CoreElementView::Capture(p) => ElementView::Capture(sugar_elements(p)),
        CoreElementView::Repetition(p) => ElementView::Repetition(
            RepetitionView { minimum: 0, maximum: None, inner: sugar_elements(p) },
        ),
        CoreElementView::Alternative(p, q) => ElementView::Alternative(
            sugar_elements(p),
            sugar_elements(q),
        ),
    }
}

/// The elements that a pattern's author would write for the core elements `s`.
pub open spec fn sugar_elements(s: Seq<CoreElementView>) -> Seq<ElementView>
    decreases s,
{
    Seq::new(
        s.len(),
        |i: int|
            if 0 <= i < s.len() {
                sugar_element(s[i])
            } else {
                arbitrary()
            },
    )
}

/// Desugaring leaves a pattern that is in core form already as it is.
pub proof fn lemma_desugar_core(s: Seq<CoreElementView>)
    ensures
        desugar_elements(sugar_elements(s)) == s,
    decreases s,
{
    if s.len() > 0 {
        lemma_desugar_core(s.drop_last());
        lemma_desugar_core_element(s.last());
        assert(sugar_elements(s).drop_last() =~= sugar_elements(s.drop_last()));
        assert(s.drop_last() + seq![s.last()] =~= s);
    }
}

/// Desugaring leaves an element that is in core form already as it is.
pub proof fn lemma_desugar_core_element(c: CoreElementView)
    ensures
        desugar_element(sugar_element(c)) == seq![c],
    decreases c,
{
    match c {
        CoreElementView::Match(m) => {},
        CoreElementView::Capture(p) => {
            lemma_desugar_core(p);
        },
        CoreElementView::Repetition(p) => {
            lemma_desugar_core(p);
            assert(repeat(p, 0) + seq![c] =~= seq![c]);
        },
        CoreElementView::Alternative(p, q) => {
            lemma_desugar_core(p);
            lemma_desugar_core(q);
        },
    }
}

proof fn lemma_core_views_push(s: Seq<ElementCore>, e: ElementCore)
    ensures
        core_views(s.push(e)) == core_views(s).push(e@),
{
    assert(core_views(s.push(e)) =~= core_views(s).push(e@));
}

proof fn lemma_core_views_add(a: Seq<ElementCore>, b: Seq<ElementCore>)
    ensures
        core_views(a + b) == core_views(a) + core_views(b),
{
    assert(core_views(a + b) =~= core_views(a) + core_views(b));
}

proof fn lemma_desugar_next(s: Seq<ElementView>, i: int)
    requires
        0 <= i < s.len(),
    ensures
        desugar_elements(s.take(i + 1)) == desugar_elements(s.take(i)) + desugar_element(s[i]),
{
    assert(s.take(i + 1).drop_last() =~= s.take(i));
}

/// Appends a copy of each element of `more` to `elems`.
fn extend_cloned(elems: &mut Vec<ElementCore>, more: &Vec<ElementCore>)
    ensures
        core_views(final(elems)@) == core_views(old(elems)@) + core_views(more@),
{
    let mut copy = duplicate_cores(more);
    proof {
        lemma_core_views_add(elems@, copy@);
    }
    elems.append(&mut copy);
}

impl Pattern<Element> {
    /// The pattern in core form.
    pub fn desugar(&self) -> (core: Pattern<ElementCore>)
        ensures
            core@ == desugar_elements(self@),
        decreases self,
    {
        let mut elems: Vec<ElementCore> = Vec::new();
        let mut i: usize = 0;
        while i < self.elems.len()
            invariant
                i <= self.elems.len(),
                core_views(elems@) == desugar_elements(self@.take(i as int)),
            decreases self.elems.len() - i,
        {
            proof {
                lemma_desugar_next(self@, i as int);
            }
            let ghost before = core_views(elems@);
            match &self.elems[i] {
                Element::Match(m) => {
                    let core = ElementCore::Match(m.clone());
                    proof {
                        lemma_core_views_push(elems@, core);
                    }
                    elems.push(core);
                },
                Element::Capture(sugar) => {
                    let inner = sugar.desugar();
                    let core = ElementCore::Capture(inner);
                    proof {
                        lemma_core_views_push(elems@, core);
                    }
                    elems.push(core);
                },
                Element::Repetition(rep) => {
                    let inner = rep.inner.desugar();
                    let mut copies: usize = 0;
                    while copies < rep.minimum
                        invariant
                            copies <= rep.minimum,
                            core_views(elems@) == before + repeat(inner@, copies as nat),
                        decreases rep.minimum - copies,
                    {
                        extend_cloned(&mut elems, &inner.elems);
                        copies += 1;
                        assert(before + repeat(inner@, (copies - 1) as nat) + inner@ =~= before
                            + repeat(inner@, copies as nat));
                    }
                    match rep.maximum {
                        None => {
                            let core = ElementCore::Repetition(inner);
                            proof {
                                lemma_core_views_push(elems@, core);
                                assert(before + repeat(inner@, rep.minimum as nat)
                                    + seq![core@] =~= before + (repeat(
                                    inner@,
                                    rep.minimum as nat,
                                ) + seq![core@]));
                            }
                            elems.push(core);
                        },
                        Some(maximum) => {
                            let mut bounded: Vec<ElementCore> = Vec::new();
                            let mut k: usize = rep.minimum;
                            while k < maximum
                                invariant
                                    rep.minimum <= k,
                                    k <= maximum || k == rep.minimum,
                                    core_views(bounded@) == up_to(
                                        inner@,
                                        (k - rep.minimum) as nat,
                                    ),
                                decreases maximum - k,
                            {
                                let mut at_least_one = duplicate_cores(&inner.elems);
                                proof {
                                    lemma_core_views_add(at_least_one@, bounded@);
                                }
                                at_least_one.append(&mut bounded);
                                let choice = ElementCore::Alternative(
                                    Pattern { elems: Vec::new() },
                                    Pattern { elems: at_least_one },
                                );
                                bounded = Vec::new();
                                proof {
                                    lemma_core_views_push(bounded@, choice);
                                    assert(core_views(Seq::<ElementCore>::empty())
                                        =~= Seq::<CoreElementView>::empty());
                                }
                                bounded.push(choice);
                                k += 1;
                                assert(core_views(bounded@) =~= up_to(
                                    inner@,
                                    (k - rep.minimum) as nat,
                                ));
                            }
                            proof {
                                lemma_core_views_add(elems@, bounded@);
                                assert(before + repeat(inner@, rep.minimum as nat) + core_views(
                                    bounded@,
                                ) =~= before + (repeat(inner@, rep.minimum as nat) + core_views(
                                    bounded@,
                                )));
                            }
                            elems.append(&mut bounded);
                        },
                    }
                },
                Element::Alternative(sugar1, sugar2) => {
                    let inner1 = sugar1.desugar();
                    let inner2 = sugar2.desugar();
                    let core = ElementCore::Alternative(inner1, inner2);
                    proof {
                        lemma_core_views_push(elems@, core);
                    }
                    elems.push(core);
                },
            }
            i += 1;
        }
        assert(self@.take(self.elems.len() as int) =~= self@);
        Pattern { elems }
    }
}

impl Problem<Element> {
    /// The problem with its pattern in core form.
    pub fn desugar(&self) -> (core: Problem<ElementCore>)
        ensures
            core.pattern@ == desugar_elements(self.pattern@),
            core.text@ == self.text@,
    {
        let pattern = self.pattern.desugar();
        let text = Atoms { atoms: self.text.atoms.clone() };
        Problem { pattern, text }
    }
}

/// The text to be matched, character by character.
#[derive(Clone, PartialEq, Eq, Debug)]
pub struct Atoms {
    pub atoms: Vec<char>,
}

impl View for Atoms {
    type V = Seq<char>;

    open spec fn view(&self) -> Seq<char> {
        self.atoms@
    }
}

/// A pattern and the text that it is to be matched against.
#[derive(Clone, PartialEq, Eq, Debug)]
pub struct Problem<E> {
    pub pattern: Pattern<E>,
    pub text: Atoms,
}

/// One step of an alignment of pattern and text.
#[derive(Clone, Copy, PartialEq, Eq, Debug)]
pub enum Step<P, T> {
    /// The pattern accepts the character of the text.
    Hit(P, T),
    /// The pattern's literal or class is passed over.
    SkipPattern(P),
    /// The character of the text is passed over.
    SkipText(T),
    StartCapture,
    StopCapture,
}

impl<P, T> Step<P, T> {
    /// The step of the same kind whose sides are what `fq` makes of the
    /// pattern's side and `fu` of the text's side.
    pub fn map<Q, U, FQ: Fn(&P) -> Q, FU: Fn(&T) -> U>(&self, fq: FQ, fu: FU) -> (step: Step<Q, U>)
        requires
            match self {
                Step::Hit(p, t) => call_requires(fq, (p,)) && call_requires(fu, (t,)),
                Step::SkipPattern(p) => call_requires(fq, (p,)),
                Step::SkipText(t) => call_requires(fu, (t,)),
                _ => true,
            },
        ensures
            match (*self, step) {
                (Step::Hit(p, t), Step::Hit(q, u)) => call_ensures(fq, (&p,), q) && call_ensures(
                    fu,
                    (&t,),
                    u,
                ),
                (Step::SkipPattern(p), Step::SkipPattern(q)) => call_ensures(fq, (&p,), q),
                (Step::SkipText(t), Step::SkipText(u)) => call_ensures(fu, (&t,), u),
                (Step::StartCapture, Step::StartCapture) => true,
                (Step::StopCapture, Step::StopCapture) => true,
                _ => false,
            },
    {
        match self {
            Self::Hit(p, t) => Step::Hit(fq(p), fu(t)),
            Self::SkipPattern(p) => Step::SkipPattern(fq(p)),
            Self::SkipText(t) => Step::SkipText(fu(t)),
            Self::StartCapture => Step::StartCapture,
            Self::StopCapture => Step::StopCapture,
        }
    }
}

/// The view of a step of a trace.
pub open spec fn step_view(step: Step<Match, char>) -> Step<MatchView, char> {
    match step {
        Step::Hit(m, c) => Step::Hit(m@, c),
        Step::SkipPattern(m) => Step::SkipPattern(m@),
        Step::SkipText(c) => Step::SkipText(c),
        Step::StartCapture => Step::StartCapture,
        Step::StopCapture => Step::StopCapture,
    }
}

/// The views of the steps of a trace, in order.
pub open spec fn trace_view(trace: Seq<Step<Match, char>>) -> Seq<Step<MatchView, char>> {
    Seq::new(trace.len(), |i: int| step_view(trace[i]))
}

} // verus!
