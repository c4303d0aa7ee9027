use fuzzy::diff_output::{Chunk, Diff, DiffOutput, Same};
use fuzzy::{Atoms, Class, Element, Match, Pattern, Problem, Repetition, Step};
use regex_syntax::hir::HirKind;

fn patt_class(regex: &str) -> Match {
    let class = match regex_syntax::parse(regex).unwrap().into_kind() {
        HirKind::Class(c) => c,
        unsupported => panic!("Unexpected regex_syntax for class: {:?}", unsupported),
    };
    Match::Class(Class::from(class))
}

fn lit(c: char) -> Element {
    Element::Match(Match::Lit(c))
}

fn lits(cs: &str) -> Vec<Element> {
    cs.chars().map(|c| lit(c)).collect()
}

fn class(regex: &str) -> Element {
    Element::Match(patt_class(regex))
}

fn rep_min(minimum: usize, elems: Vec<Element>) -> Element {
    Element::Repetition(Repetition { minimum, maximum: None, inner: Pattern { elems } })
}

fn rep(elems: Vec<Element>) -> Element {
    rep_min(0, elems)
}

#[allow(dead_code)]
fn rep_bound(minimum: usize, maximum: usize, elems: Vec<Element>) -> Element {
    Element::Repetition(Repetition { minimum, maximum: Some(maximum), inner: Pattern { elems } })
}

fn alt(left: Vec<Element>, right: Vec<Element>) -> Element {
    Element::Alternative(Pattern { elems: left }, Pattern { elems: right })
}

#[allow(dead_code)]
fn capture(elems: Vec<Element>) -> Element {
    Element::Capture(Pattern { elems })
}

struct TestCase {
    #[allow(dead_code)]
    problem: Problem<Element>,
    score: usize,
    trace: Vec<Step<Match, char>>,
}

fn problem(elems: Vec<Element>, text: &str) -> Problem<Element> {
    Problem { pattern: Pattern { elems }, text: Atoms { atoms: text.chars().collect() } }
}

fn hit(c: char) -> Step<Match, char> {
    Step::Hit(Match::Lit(c), c)
}

fn match_empty() -> TestCase {
    TestCase { problem: problem(vec![], ""), score: 0, trace: vec![] }
}

fn fail_empty_1() -> TestCase {
    TestCase { problem: problem(vec![], "a"), score: 1, trace: vec![Step::SkipText('a')] }
}

fn fail_empty_2() -> TestCase {
    TestCase {
        problem: problem(lits("a"), ""),
        score: 1,
        trace: vec![Step::SkipPattern(Match::Lit('a'))],
    }
}

fn match_lit_1() -> TestCase {
    TestCase { problem: problem(lits("a"), "a"), score: 0, trace: vec![hit('a')] }
}

fn match_lit_2() -> TestCase {
    TestCase { problem: problem(lits("ab"), "ab"), score: 0, trace: vec![hit('a'), hit('b')] }
}

fn fail_lit_1() -> TestCase {
    TestCase {
        problem: problem(lits("a"), "aa"),
        score: 1,
        trace: vec![hit('a'), Step::SkipText('a')],
    }
}

fn fail_lit_2() -> TestCase {
    TestCase {
        problem: problem(lits("aba"), "aa"),
        score: 1,
        trace: vec![hit('a'), Step::SkipPattern(Match::Lit('b')), hit('a')],
    }
}

fn fail_lit_3() -> TestCase {
    TestCase {
        problem: problem(lits("abcde"), "zabke"),
        score: 4,
        trace: vec![
            Step::SkipText('z'),
            hit('a'),
            hit('b'),
            Step::SkipPattern(Match::Lit('c')),
            Step::SkipPattern(Match::Lit('d')),
            Step::SkipText('k'),
            hit('e'),
        ],
    }
}

fn match_class_1() -> TestCase {
    TestCase {
        problem: problem(vec![class(".")], "a"),
        score: 0,
        trace: vec![Step::Hit(patt_class("."), 'a')],
    }
}

fn match_class_2() -> TestCase {
    TestCase {
        problem: problem(vec![class("[a-zA-Z]")], "a"),
        score: 0,
        trace: vec![Step::Hit(patt_class("[a-zA-Z]"), 'a')],
    }
}

fn match_class_3() -> TestCase {
    TestCase {
        problem: problem(vec![class("[a-zA-Z]")], "X"),
        score: 0,
        trace: vec![Step::Hit(patt_class("[a-zA-Z]"), 'X')],
    }
}

fn fail_class_1() -> TestCase {
    TestCase {
        problem: problem(vec![class("[^a]")], "a"),
        score: 2,
        trace: vec![Step::SkipPattern(patt_class("[^a]")), Step::SkipText('a')],
    }
}

fn match_alternative_1() -> TestCase {
    TestCase {
        problem: problem(vec![alt(lits("ab"), lits("cd"))], "ab"),
        score: 0,
        trace: vec![hit('a'), hit('b')],
    }
}

fn match_alternative_2() -> TestCase {
    TestCase {
        problem: problem(vec![alt(lits("ab"), lits("cd"))], "cd"),
        score: 0,
        trace: vec![hit('c'), hit('d')],
    }
}

fn match_alternative_3() -> TestCase {
    TestCase {
        problem: problem(
            vec![
                alt(lits("a"), vec![alt(lits("b"), vec![alt(lits("c"), lits("d"))])]),
                lit('z'),
            ],
            "cz",
        ),
        score: 0,
        trace: vec![hit('c'), hit('z')],
    }
}

fn fail_alternative_1() -> TestCase {
    TestCase {
        problem: problem(vec![alt(lits("ab"), lits("cd"))], "acd"),
        score: 1,
        trace: vec![Step::SkipText('a'), hit('c'), hit('d')],
    }
}

fn match_repetition_1() -> TestCase {
    TestCase {
        problem: problem(vec![rep(lits("a"))], "aa"),
        score: 0,
        trace: vec![hit('a'), hit('a')],
    }
}

fn match_repetition_2() -> TestCase {
    TestCase {
        problem: problem(vec![rep(vec![lit('a'), rep(lits("b"))])], "aababb"),
        score: 0,
        trace: vec![hit('a'), hit('a'), hit('b'), hit('a'), hit('b'), hit('b')],
    }
}

fn match_repetition_3() -> TestCase {
    TestCase {
        problem: problem(vec![rep(vec![class("[0-9]")])], "0451"),
        score: 0,
        trace: vec![
            Step::Hit(patt_class("[0-9]"), '0'),
            Step::Hit(patt_class("[0-9]"), '4'),
            Step::Hit(patt_class("[0-9]"), '5'),
            Step::Hit(patt_class("[0-9]"), '1'),
        ],
    }
}

fn match_repetition_4() -> TestCase {
    TestCase { problem: problem(vec![rep_min(1, lits("a"))], "a"), score: 0, trace: vec![hit('a')] }
}

fn match_repetition_5() -> TestCase {
    TestCase {
        problem: problem(vec![rep_bound(0, 5, lits("a"))], "aaaa"),
        score: 0,
        trace: vec![hit('a'), hit('a'), hit('a'), hit('a')],
    }
}

fn fail_repetition_1() -> TestCase {
    TestCase {
        problem: problem(vec![rep(lits("a"))], "aba"),
        score: 1,
        trace: vec![hit('a'), Step::SkipText('b'), hit('a')],
    }
}

fn fail_repetition_2() -> TestCase {
    TestCase {
        problem: problem(vec![rep_min(1, lits("a"))], ""),
        score: 1,
        trace: vec![Step::SkipPattern(Match::Lit('a'))],
    }
}

fn fail_repetition_3() -> TestCase {
    TestCase {
        problem: problem(vec![rep_bound(0, 1, lits("a"))], "aa"),
        score: 1,
        trace: vec![Step::SkipText('a'), hit('a')],
    }
}

#[test]
fn diff_output_test_new_match_empty() {
    let test_case = match_empty();
    let expected = "";
    let actual = DiffOutput::new(&test_case.score, &test_case.trace).to_string();
    assert_eq!(expected, actual);
}

#[test]
fn diff_output_test_new_match_lit_1() {
    let test_case = match_lit_1();
    let expected = "a";
    let actual = DiffOutput::new(&test_case.score, &test_case.trace).to_string();
    assert_eq!(expected, actual);
}

#[test]
fn diff_output_test_new_match_lit_2() {
    let test_case = match_lit_2();
    let expected = "ab";
    let actual = DiffOutput::new(&test_case.score, &test_case.trace).to_string();
    assert_eq!(expected, actual);
}

#[test]
fn diff_output_test_new_match_class_1() {
    let test_case = match_class_1();
    let expected = "a";
    let actual = DiffOutput::new(&test_case.score, &test_case.trace).to_string();
    assert_eq!(expected, actual);
}

#[test]
fn diff_output_test_new_match_class_2() {
    let test_case = match_class_2();
    let expected = "a";
    let actual = DiffOutput::new(&test_case.score, &test_case.trace).to_string();
    assert_eq!(expected, actual);
}

#[test]
fn diff_output_test_new_match_class_3() {
    let test_case = match_class_3();
    let expected = "X";
    let actual = DiffOutput::new(&test_case.score, &test_case.trace).to_string();
    assert_eq!(expected, actual);
}

#[test]
fn diff_output_test_new_match_repetition_1() {
    let test_case = match_repetition_1();
    let expected = "aa";
    let actual = DiffOutput::new(&test_case.score, &test_case.trace).to_string();
    assert_eq!(expected, actual);
}

#[test]
fn diff_output_test_new_match_repetition_2() {
    let test_case = match_repetition_2();
    let expected = "aababb";
    let actual = DiffOutput::new(&test_case.score, &test_case.trace).to_string();
    assert_eq!(expected, actual);
}

#[test]
fn diff_output_test_new_match_repetition_3() {
    let test_case = match_repetition_3();
    let expected = "0451";
    let actual = DiffOutput::new(&test_case.score, &test_case.trace).to_string();
    assert_eq!(expected, actual);
}

#[test]
fn diff_output_test_new_fail_empty_1() {
    let test_case = fail_empty_1();
    let expected = "{+a+}";
    let actual = DiffOutput::new(&test_case.score, &test_case.trace).to_string();
    assert_eq!(expected, actual);
}

#[test]
fn diff_output_test_new_fail_empty_2() {
    let test_case = fail_empty_2();
    let expected = "[-a-]";
    let actual = DiffOutput::new(&test_case.score, &test_case.trace).to_string();
    assert_eq!(expected, actual);
}

#[test]
fn diff_output_test_new_fail_lit_1() {
    let test_case = fail_lit_1();
    let expected = "a{+a+}";
    let actual = DiffOutput::new(&test_case.score, &test_case.trace).to_string();
    assert_eq!(expected, actual);
}

#[test]
fn diff_output_test_new_fail_lit_2() {
    let test_case = fail_lit_2();
    let expected = "a[-b-]a";
    let actual = DiffOutput::new(&test_case.score, &test_case.trace).to_string();
    assert_eq!(expected, actual);
}

#[test]
fn diff_output_test_new_fail_lit_3() {
    let test_case = fail_lit_3();
    let expected = "{+z+}ab[-cd-]{+k+}e";
    let actual = DiffOutput::new(&test_case.score, &test_case.trace).to_string();
    assert_eq!(expected, actual);
}

#[test]
fn diff_output_test_new_fail_class_1() {
    let test_case = fail_class_1();
    let expected = "[-?-]{+a+}";
    let actual = DiffOutput::new(&test_case.score, &test_case.trace).to_string();
    assert_eq!(expected, actual);
}

#[test]
fn diff_chunks_of_fail_lit_3() {
    let test_case = fail_lit_3();
    let output = DiffOutput::new(&test_case.score, &test_case.trace);
    assert_eq!(
        vec![
            Chunk::Diff(Diff { taken: vec![], added: vec!['z'] }),
            Chunk::Same(Same { text: vec!['a', 'b'] }),
            Chunk::Diff(Diff { taken: vec!['c', 'd'], added: vec!['k'] }),
            Chunk::Same(Same { text: vec!['e'] }),
        ],
        output.chunks
    );
}

#[test]
fn diff_skips_capture_marks() {
    let trace = vec![
        Step::StartCapture,
        Step::Hit(Match::Lit('a'), 'a'),
        Step::StopCapture,
        Step::Hit(Match::Lit('b'), 'b'),
    ];
    let output = DiffOutput::new(&0, &trace);
    assert_eq!(vec![Chunk::Same(Same { text: vec!['a', 'b'] })], output.chunks);
    assert_eq!("ab", output.to_string());
}

#[test]
fn diff_text_then_pattern_is_shown_pattern_first() {
    let trace = vec![
        Step::SkipText('x'),
        Step::SkipPattern(patt_class("[0-9]")),
        Step::SkipPattern(Match::Lit('y')),
    ];
    let output = DiffOutput::new(&3, &trace);
    assert_eq!("[-?y-]{+x+}", output.to_string());
}
