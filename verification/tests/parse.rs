use fuzzy::error::Error;
use fuzzy::regex_pattern::{parse_impl, parse_pattern, Syntax};
use fuzzy::regex_question::RegexQuestion;
use fuzzy::{Class, ClassRange, Element, Match, Pattern, Repetition};
use regex_syntax::hir::HirKind;

fn patt_class(regex: &str) -> Match {
    let class = match regex_syntax::parse(regex).unwrap().into_kind() {
        HirKind::Class(c) => c,
        unsupported => panic!("Unexpected regex_syntax for class: {:?}", unsupported),
    };
    Match::Class(Class::from(class))
}

fn lit(c: char) -> Element {
    Element::Match(Match::Lit(c))
}

fn lits(cs: &str) -> Vec<Element> {
    cs.chars().map(|c| lit(c)).collect()
}

fn class(regex: &str) -> Element {
    Element::Match(patt_class(regex))
}

fn rep_min(minimum: usize, elems: Vec<Element>) -> Element {
    Element::Repetition(Repetition { minimum, maximum: None, inner: Pattern { elems } })
}

fn rep(elems: Vec<Element>) -> Element {
    rep_min(0, elems)
}

fn rep_bound(minimum: usize, maximum: usize, elems: Vec<Element>) -> Element {
    Element::Repetition(Repetition { minimum, maximum: Some(maximum), inner: Pattern { elems } })
}

fn alt(left: Vec<Element>, right: Vec<Element>) -> Element {
    Element::Alternative(Pattern { elems: left }, Pattern { elems: right })
}

fn capture(elems: Vec<Element>) -> Element {
    Element::Capture(Pattern { elems })
}

fn parse_test(pattern: &str, expected_elems: Vec<Element>) {
    let expected_pattern = Pattern { elems: expected_elems };
    let actual_pattern = parse_pattern(&pattern).expect("Cannot parse pattern");
    assert_eq!(expected_pattern, actual_pattern);
}

fn ask_test(pattern: &str, expected_elems: Vec<Element>) {
    let expected_pattern = Pattern { elems: expected_elems };
    let question = RegexQuestion { pattern_regex: pattern.to_string(), text: "xyz".to_string() };
    let problem = question.ask().expect("Cannot parse pattern");
    assert_eq!(expected_pattern, problem.pattern);
    assert_eq!(vec!['x', 'y', 'z'], problem.text.atoms);
}

#[test]
fn regex_pattern_parse_lit_1() {
    parse_test("a", lits("a"));
}

#[test]
fn regex_pattern_parse_lit_2() {
    parse_test("abc", lits("abc"));
}

#[test]
fn regex_pattern_parse_wildcard() {
    parse_test(".", vec![class(".")]);
}

#[test]
fn regex_pattern_parse_concat_1() {
    parse_test("a.", vec![lit('a'), class(".")]);
}

#[test]
fn regex_pattern_parse_repetition_1() {
    parse_test("a*", vec![rep(lits("a"))]);
}

#[test]
fn regex_pattern_parse_repetition_2() {
    parse_test("a+", vec![rep_min(1, lits("a"))]);
}

#[test]
fn regex_pattern_parse_repetition_3() {
    parse_test("a{2,}", vec![rep_min(2, lits("a"))]);
}

#[test]
fn parse_repetition_4() {
    parse_test("a{0,3}", vec![rep_bound(0, 3, lits("a"))]);
}

#[test]
fn parse_repetition_5() {
    parse_test("a{4}", vec![rep_bound(4, 4, lits("a"))]);
}

#[test]
fn regex_pattern_parse_group_1() {
    parse_test("(a)", vec![capture(lits("a"))]);
}

#[test]
fn regex_pattern_parse_alternative_1() {
    parse_test("ab|cd", vec![alt(lits("ab"), lits("cd"))]);
}

#[test]
fn regex_pattern_parse_alternative_2() {
    parse_test("ab|cd|wxyz", vec![alt(vec![alt(lits("ab"), lits("cd"))], lits("wxyz"))]);
}

#[test]
fn regex_question_parse_lit_1() {
    ask_test("a", lits("a"));
}

#[test]
fn regex_question_parse_lit_2() {
    ask_test("abc", lits("abc"));
}

#[test]
fn regex_question_parse_wildcard() {
    ask_test(".", vec![class(".")]);
}

#[test]
fn regex_question_parse_concat_1() {
    ask_test("a.", vec![lit('a'), class(".")]);
}

#[test]
fn regex_question_parse_repetition_1() {
    ask_test("a*", vec![rep(lits("a"))]);
}

#[test]
fn regex_question_parse_repetition_2() {
    ask_test("a+", vec![rep_min(1, lits("a"))]);
}

#[test]
fn regex_question_parse_repetition_3() {
    ask_test("a{2,}", vec![rep_min(2, lits("a"))]);
}

#[test]
fn regex_question_parse_group_1() {
    ask_test("(a)", vec![capture(lits("a"))]);
}

#[test]
fn regex_question_parse_alternative_1() {
    ask_test("ab|cd", vec![alt(lits("ab"), lits("cd"))]);
}

#[test]
fn regex_question_parse_alternative_2() {
    ask_test("ab|cd|wxyz", vec![alt(vec![alt(lits("ab"), lits("cd"))], lits("wxyz"))]);
}

#[test]
fn parse_rejects_what_is_no_regex() {
    assert!(matches!(parse_pattern("(a"), Err(Error::PatternNotRegex(_))));
}

#[test]
fn parse_rejects_the_empty_pattern() {
    match parse_pattern("") {
        Err(Error::PatternUnsupported(text)) => assert_eq!("Empty", text),
        other => panic!("Unexpected outcome: {:?}", other),
    }
}

#[test]
fn parse_rejects_an_anchor() {
    assert!(matches!(parse_pattern("^a"), Err(Error::PatternUnsupported(_))));
    assert!(matches!(parse_pattern("(^a)"), Err(Error::PatternUnsupported(_))));
    assert!(matches!(parse_pattern("b|^a"), Err(Error::PatternUnsupported(_))));
}

#[test]
fn parse_names_the_anchor_that_it_rejects() {
    match parse_pattern("a$") {
        Err(Error::PatternUnsupported(text)) => assert_eq!("Look(End)", text),
        other => panic!("Unexpected outcome: {:?}", other),
    }
}

#[test]
fn parse_hands_on_the_fault_of_the_body_of_a_repetition() {
    match parse_pattern("b(^a)*c") {
        Err(Error::PatternUnsupported(text)) => assert_eq!("Look(Start)", text),
        other => panic!("Unexpected outcome: {:?}", other),
    }
    assert!(matches!(parse_pattern("(^a){2,3}"), Err(Error::PatternUnsupported(_))));
    assert!(matches!(parse_pattern("b(|a)+"), Err(Error::PatternUnsupported(_))));
}

#[test]
fn parse_impl_hands_on_the_fault_of_the_body_of_a_repetition() {
    let syntax = Syntax::Concat(vec![
        Syntax::Literal(vec![b'b']),
        Syntax::Repetition { min: 0, max: None, sub: Box::new(Syntax::Empty) },
    ]);
    match parse_impl(&syntax) {
        Err(Error::PatternUnsupported(text)) => assert_eq!("Empty", text),
        other => panic!("Unexpected outcome: {:?}", other),
    }
}

#[test]
fn parse_impl_reads_bytes_as_characters() {
    let syntax = Syntax::Concat(vec![
        Syntax::Literal(vec![b'a', b'b']),
        Syntax::Class(Class::new(vec![ClassRange { start: '0', end: '9' }])),
    ]);
    let expected = vec![
        lit('a'),
        lit('b'),
        Element::Match(Match::Class(Class::new(vec![ClassRange { start: '0', end: '9' }]))),
    ];
    assert_eq!(expected, parse_impl(&syntax).unwrap());
}

#[test]
fn parse_impl_hands_on_the_first_fault() {
    let syntax = Syntax::Alternation(vec![
        Syntax::Literal(vec![b'a']),
        Syntax::Look("Look(Start)".to_string()),
        Syntax::Empty,
        Syntax::Look("Look(End)".to_string()),
    ]);
    match parse_impl(&syntax) {
        Err(Error::PatternUnsupported(text)) => assert_eq!("Look(Start)", text),
        other => panic!("Unexpected outcome: {:?}", other),
    }
}

#[test]
fn parse_impl_of_alternations_with_few_branches() {
    assert_eq!(Vec::<Element>::new(), parse_impl(&Syntax::Alternation(vec![])).unwrap());
    let one = Syntax::Alternation(vec![Syntax::Literal(vec![b'a'])]);
    assert_eq!(lits("a"), parse_impl(&one).unwrap());
}

#[test]
fn parse_impl_of_a_bounded_repetition() {
    let syntax = Syntax::Repetition {
        min: 2,
        max: Some(7),
        sub: Box::new(Syntax::Capture(Box::new(Syntax::Literal(vec![b'a'])))),
    };
    assert_eq!(vec![rep_bound(2, 7, vec![capture(lits("a"))])], parse_impl(&syntax).unwrap());
}

#[test]
fn class_from_keeps_the_ranges() {
    let class = match patt_class("[a-cx]") {
        Match::Class(class) => class,
        Match::Lit(_) => panic!("Unexpected literal"),
    };
    assert_eq!(
        &vec![ClassRange { start: 'a', end: 'c' }, ClassRange { start: 'x', end: 'x' }],
        class.ranges()
    );
    assert!(class.matches('b'));
    assert!(class.matches('x'));
    assert!(!class.matches('d'));
}

#[test]
fn class_from_bytes_takes_bytes_for_characters() {
    let class = match patt_class("(?-u)[a-c]") {
        Match::Class(class) => class,
        Match::Lit(_) => panic!("Unexpected literal"),
    };
    assert_eq!(&vec![ClassRange { start: 'a', end: 'c' }], class.ranges());
}

#[test]
fn pattern_parse_lit_1() {
    parse_test("a", vec![lit('a')]);
}

#[test]
fn pattern_parse_lit_2() {
    parse_test("abc", vec![lit('a'), lit('b'), lit('c')]);
}

#[test]
fn pattern_parse_wildcard() {
    parse_test(".", vec![class(".")]);
}

#[test]
fn pattern_parse_concat_1() {
    parse_test("a.", vec![lit('a'), class(".")]);
}

#[test]
fn pattern_parse_kleene_1() {
    parse_test("a*", vec![rep(vec![lit('a')])]);
}

#[test]
fn pattern_parse_group_1() {
    parse_test("(a)", vec![capture(vec![lit('a')])]);
}

#[test]
fn regex_question_parse_kleene_1() {
    ask_test("a*", vec![rep(vec![lit('a')])]);
}
