use fuzzy::flat_pattern::{Flat, FlatPattern};
use fuzzy::{
    Atoms, Class, ClassRange, Element, ElementCore, Match, Pattern, Problem, Repetition, Step,
};

fn lit(c: char) -> Element {
    Element::Match(Match::Lit(c))
}

fn plain(c: char) -> ElementCore {
    ElementCore::Match(Match::Lit(c))
}

fn pattern(elems: Vec<Element>) -> Pattern<Element> {
    Pattern { elems }
}

fn cores(elems: Vec<ElementCore>) -> Pattern<ElementCore> {
    Pattern { elems }
}

fn rep(minimum: usize, maximum: Option<usize>, elems: Vec<Element>) -> Element {
    Element::Repetition(Repetition { minimum, maximum, inner: pattern(elems) })
}

fn maybe(elems: Vec<ElementCore>) -> ElementCore {
    ElementCore::Alternative(cores(vec![]), cores(elems))
}

fn flat_of(flat: &FlatPattern) -> Vec<Flat> {
    (0..flat.len()).map(|i| flat.get(i).unwrap().clone()).collect()
}

#[test]
fn desugar_keeps_literals_and_classes() {
    let digit = Class::new(vec![ClassRange { start: '0', end: '9' }]);
    let sugar = pattern(vec![lit('a'), Element::Match(Match::Class(digit.clone()))]);
    let expected = cores(vec![plain('a'), ElementCore::Match(Match::Class(digit))]);
    assert_eq!(expected, sugar.desugar());
}

#[test]
fn desugar_of_a_star_is_a_core_repetition() {
    let sugar = pattern(vec![rep(0, None, vec![lit('a')])]);
    let expected = cores(vec![ElementCore::Repetition(cores(vec![plain('a')]))]);
    assert_eq!(expected, sugar.desugar());
}

#[test]
fn desugar_writes_the_minimum_out() {
    let sugar = pattern(vec![rep(2, None, vec![lit('a'), lit('b')])]);
    let expected = cores(vec![
        plain('a'),
        plain('b'),
        plain('a'),
        plain('b'),
        ElementCore::Repetition(cores(vec![plain('a'), plain('b')])),
    ]);
    assert_eq!(expected, sugar.desugar());
}

#[test]
fn desugar_nests_the_copies_up_to_the_maximum() {
    let sugar = pattern(vec![rep(1, Some(3), vec![lit('a')])]);
    let expected = cores(vec![plain('a'), maybe(vec![plain('a'), maybe(vec![plain('a')])])]);
    assert_eq!(expected, sugar.desugar());
}

#[test]
fn desugar_of_an_exact_count_has_no_choice() {
    let sugar = pattern(vec![rep(2, Some(2), vec![lit('a')])]);
    assert_eq!(cores(vec![plain('a'), plain('a')]), sugar.desugar());
}

#[test]
fn desugar_with_a_maximum_below_the_minimum_keeps_the_minimum() {
    let sugar = pattern(vec![rep(2, Some(1), vec![lit('a')])]);
    assert_eq!(cores(vec![plain('a'), plain('a')]), sugar.desugar());
}

#[test]
fn desugar_goes_into_captures_and_alternatives() {
    let sugar = pattern(vec![
        Element::Capture(pattern(vec![rep(1, None, vec![lit('a')])])),
        Element::Alternative(pattern(vec![rep(0, Some(1), vec![lit('b')])]), pattern(vec![])),
    ]);
    let expected = cores(vec![
        ElementCore::Capture(cores(vec![
            plain('a'),
            ElementCore::Repetition(cores(vec![plain('a')])),
        ])),
        ElementCore::Alternative(cores(vec![maybe(vec![plain('b')])]), cores(vec![])),
    ]);
    assert_eq!(expected, sugar.desugar());
}

#[test]
fn desugar_leaves_a_pattern_in_core_form_as_it_is() {
    let sugar = pattern(vec![
        lit('a'),
        Element::Capture(pattern(vec![rep(0, None, vec![lit('b'), rep(0, None, vec![lit('c')])])])),
        Element::Alternative(pattern(vec![lit('d')]), pattern(vec![])),
    ]);
    let expected = cores(vec![
        plain('a'),
        ElementCore::Capture(cores(vec![ElementCore::Repetition(cores(vec![
            plain('b'),
            ElementCore::Repetition(cores(vec![plain('c')])),
        ]))])),
        ElementCore::Alternative(cores(vec![plain('d')]), cores(vec![])),
    ]);
    assert_eq!(expected, sugar.desugar());
}

#[test]
fn desugar_of_a_problem_keeps_the_text() {
    let problem = Problem {
        pattern: pattern(vec![rep(1, Some(1), vec![lit('a')])]),
        text: Atoms { atoms: vec!['x', 'y'] },
    };
    let desugared = problem.desugar();
    assert_eq!(cores(vec![plain('a')]), desugared.pattern);
    assert_eq!(vec!['x', 'y'], desugared.text.atoms);
}

#[test]
fn duplicate_is_equal_to_the_original() {
    let sugar = pattern(vec![rep(1, Some(3), vec![lit('a')]), lit('b')]);
    assert_eq!(sugar.elems[0], sugar.elems[0].duplicate());
    let desugared = sugar.desugar();
    assert_eq!(desugared, desugared.duplicate());
    assert_eq!(desugared.elems[1], desugared.elems[1].clone());
}

#[test]
fn flat_pattern_writes_every_instruction_once() {
    let flat = FlatPattern::new(&cores(vec![
        plain('a'),
        ElementCore::Repetition(cores(vec![
            plain('b'),
            ElementCore::Repetition(cores(vec![plain('c')])),
        ])),
        plain('d'),
    ]));
    let expected = vec![
        Flat::Lit('a'),
        Flat::RepetitionStart(5),
        Flat::Lit('b'),
        Flat::RepetitionStart(2),
        Flat::Lit('c'),
        Flat::RepetitionEnd(2),
        Flat::RepetitionEnd(5),
        Flat::Lit('d'),
    ];
    assert_eq!(8, flat.len());
    assert_eq!(expected, flat_of(&flat));
    assert_eq!(None, flat.get(8));
}

#[test]
fn flat_pattern_writes_more_copies_inside_repetitions() {
    let flat = FlatPattern::custom(
        &cores(vec![
            plain('a'),
            ElementCore::Repetition(cores(vec![
                plain('b'),
                ElementCore::Repetition(cores(vec![plain('c')])),
            ])),
            plain('d'),
        ]),
        1,
    );
    let expected = vec![
        Flat::Lit('a'),
        Flat::RepetitionStart(11),
        Flat::Lit('b'),
        Flat::Lit('b'),
        Flat::RepetitionStart(5),
        Flat::RepetitionStart(5),
        Flat::Lit('c'),
        Flat::Lit('c'),
        Flat::Lit('c'),
        Flat::RepetitionEnd(5),
        Flat::RepetitionEnd(5),
        Flat::RepetitionEnd(5),
        Flat::RepetitionEnd(11),
        Flat::RepetitionEnd(11),
        Flat::Lit('d'),
    ];
    assert_eq!(15, flat.len());
    assert_eq!(expected, flat_of(&flat));
}

#[test]
fn flat_pattern_of_an_alternative_holds_the_two_distances() {
    let digit = Class::new(vec![ClassRange { start: '0', end: '9' }]);
    let flat = FlatPattern::custom(
        &cores(vec![
            ElementCore::Alternative(
                cores(vec![plain('a'), plain('b')]),
                cores(vec![ElementCore::Match(Match::Class(digit.clone()))]),
            ),
            ElementCore::Capture(cores(vec![plain('z')])),
        ]),
        1,
    );
    let expected = vec![
        Flat::AlternativeLeft(3),
        Flat::Lit('a'),
        Flat::Lit('b'),
        Flat::AlternativeRight(2),
        Flat::Class(digit),
        Flat::GroupStart,
        Flat::Lit('z'),
        Flat::GroupEnd,
    ];
    assert_eq!(expected, flat_of(&flat));
}

#[test]
fn flat_pattern_of_an_alternative_inside_a_repetition() {
    let flat = FlatPattern::custom(
        &cores(vec![ElementCore::Repetition(cores(vec![ElementCore::Alternative(
            cores(vec![plain('a')]),
            cores(vec![]),
        )]))]),
        1,
    );
    let expected = vec![
        Flat::RepetitionStart(7),
        Flat::AlternativeLeft(4),
        Flat::AlternativeLeft(4),
        Flat::Lit('a'),
        Flat::Lit('a'),
        Flat::AlternativeRight(2),
        Flat::AlternativeRight(2),
        Flat::RepetitionEnd(7),
        Flat::RepetitionEnd(7),
    ];
    assert_eq!(expected, flat_of(&flat));
}

#[test]
fn flat_pattern_of_the_empty_pattern_is_empty() {
    let flat = FlatPattern::custom(&cores(vec![]), 1);
    assert_eq!(0, flat.len());
    assert_eq!(None, flat.get(0));
}

#[test]
fn class_matches_the_characters_of_its_ranges() {
    let class = Class::new(vec![
        ClassRange { start: 'a', end: 'c' },
        ClassRange { start: '0', end: '0' },
    ]);
    assert!(class.matches('a'));
    assert!(class.matches('c'));
    assert!(class.matches('0'));
    assert!(!class.matches('d'));
    assert!(!class.matches('1'));
    assert!(!Class::new(vec![]).matches('a'));
    assert_eq!(class, class.clone());
}

#[test]
fn map_changes_the_sides_and_keeps_the_kind() {
    let double = |p: &u8| 2 * (*p as u32);
    let upper = |t: &char| t.to_ascii_uppercase();
    assert_eq!(Step::Hit(6u32, 'A'), Step::Hit(3u8, 'a').map(double, upper));
    assert_eq!(Step::SkipPattern(8u32), Step::<u8, char>::SkipPattern(4).map(double, upper));
    assert_eq!(Step::SkipText('B'), Step::<u8, char>::SkipText('b').map(double, upper));
    assert_eq!(Step::StartCapture, Step::<u8, char>::StartCapture.map(double, upper));
    assert_eq!(Step::StopCapture, Step::<u8, char>::StopCapture.map(double, upper));
}
