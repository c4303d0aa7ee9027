use fuzzy::diff_output::{DiffOutput, OutChunk};
use fuzzy::lattice_solution::{fits, solve_lattice, LatticeSolution};
use fuzzy::map_solution::MapSolution;
use fuzzy::regex_pattern::parse_pattern;
use fuzzy::table_solution::TableSolution;
use fuzzy::{Atoms, ElementCore, Match, Pattern, Problem, Step};

fn atoms(text: &str) -> Atoms {
    Atoms { atoms: text.chars().collect() }
}

fn in_core(regex: &str) -> Pattern<ElementCore> {
    parse_pattern(regex).expect("Cannot parse pattern").desugar()
}

fn solve(regex: &str, text: &str) -> TableSolution {
    TableSolution::solve(&in_core(regex), &atoms(text)).unwrap()
}

fn diff(regex: &str, text: &str) -> (usize, String) {
    let solution = solve(regex, text);
    (solution.score, DiffOutput::new(&solution.score, &solution.trace).to_string())
}

fn skips(trace: &Vec<Step<Match, char>>) -> usize {
    trace.iter().filter(|step| matches!(step, Step::SkipText(_) | Step::SkipPattern(_))).count()
}

fn text_of(trace: &Vec<Step<Match, char>>) -> String {
    let mut text = String::new();
    for step in trace {
        match step {
            Step::Hit(_, c) => text.push(*c),
            Step::SkipText(c) => text.push(*c),
            _ => {}
        }
    }
    text
}

const CASES: [(&str, &str); 9] = [
    ("Helloo* World", "Helloooooo world"),
    ("bar", "baz"),
    ("...", "foo"),
    (r"\([a-z0-9]*\)", "(1st place)"),
    ("[0-9]{4}", "'69"),
    ("a*", "aba"),
    ("(<([0-9]*,)*[0-9]*> )*<([0-9]*,)*[0-9]*>", "<12,34,56> <789> <"),
    (r"((title: [a-zA-Z ]*|salary: \$[0-9]*|name: [a-zA-Z ]*), )*", "name: Andrew Ant, salary: 100,000"),
    ("[a-zA-Z]+ [a-zA-Z]+", "John Smith"),
];

#[test]
fn readme_hello_world() {
    assert_eq!((2, "Helloooooo [-W-]{+w+}orld".to_string()), diff("Helloo* World", "Helloooooo world"));
}

#[test]
fn readme_bar_baz() {
    assert_eq!((2, "ba[-r-]{+z+}".to_string()), diff("bar", "baz"));
}

#[test]
fn readme_foo() {
    assert_eq!((0, "foo".to_string()), diff("...", "foo"));
}

#[test]
fn readme_1st_place() {
    assert_eq!((1, "(1st{+ +}place)".to_string()), diff(r"\([a-z0-9]*\)", "(1st place)"));
}

#[test]
fn readme_nested() {
    assert_eq!(
        (1, "<12,34,56> <789> <[->-]".to_string()),
        diff("(<([0-9]*,)*[0-9]*> )*<([0-9]*,)*[0-9]*>", "<12,34,56> <789> <")
    );
}

#[test]
fn readme_andrew() {
    assert_eq!(
        (4, "name: Andrew Ant, salary: [-$-]100{+,+}000[-, -]".to_string()),
        diff(
            r"((title: [a-zA-Z ]*|salary: \$[0-9]*|name: [a-zA-Z ]*), )*",
            "name: Andrew Ant, salary: 100,000"
        )
    );
}

#[test]
fn readme_john() {
    assert_eq!((0, "John Smith".to_string()), diff("[a-zA-Z]+ [a-zA-Z]+", "John Smith"));
}

#[test]
fn readme_year() {
    assert_eq!((3, "[-??-]{+'+}69".to_string()), diff("[0-9]{4}", "'69"));
}

#[test]
fn a_star_against_aba_costs_one() {
    assert_eq!(1, solve("a*", "aba").score);
}

#[test]
fn the_score_counts_the_skips_of_the_trace() {
    for (regex, text) in CASES {
        let solution = solve(regex, text);
        assert_eq!(skips(&solution.trace), solution.score, "{} against {}", regex, text);
    }
}

#[test]
fn the_trace_holds_the_text() {
    for (regex, text) in CASES {
        let solution = solve(regex, text);
        assert_eq!(text, text_of(&solution.trace), "{} against {}", regex, text);
    }
}

#[test]
fn an_exact_match_costs_nothing_and_nothing_costs_less() {
    assert_eq!(0, solve("(ab|cd)*e", "abcdabe").score);
    assert_eq!(1, solve("(ab|cd)*e", "abcabe").score);
    assert_eq!(1, solve("(ab|cd)*e", "abcdab").score);
}

#[test]
fn the_empty_pattern_skips_the_whole_text() {
    let empty = Pattern { elems: vec![] };
    for text in ["", "a", "hello"] {
        let solution = TableSolution::solve(&empty, &atoms(text)).unwrap();
        assert_eq!(text.chars().count(), solution.score);
        let expected: Vec<Step<Match, char>> = text.chars().map(|c| Step::SkipText(c)).collect();
        assert_eq!(expected, solution.trace);
    }
}

#[test]
fn the_empty_text_costs_the_cheapest_way_through_the_pattern() {
    assert_eq!(3, solve("abc", "").score);
    assert_eq!(0, solve("a*", "").score);
    assert_eq!(1, solve("a+", "").score);
    assert_eq!(1, solve("(abc|d)", "").score);
    assert_eq!(2, solve("(abc|de)f*(g|hi)*", "").score);
    assert_eq!(2, solve("x{2,5}", "").score);
}

#[test]
fn captures_leave_their_marks_in_the_trace() {
    let solution = solve("a(b)", "ab");
    assert_eq!(
        vec![
            Step::Hit(Match::Lit('a'), 'a'),
            Step::StartCapture,
            Step::Hit(Match::Lit('b'), 'b'),
            Step::StopCapture,
        ],
        solution.trace
    );
}

#[test]
fn two_runs_give_the_same_alignment() {
    for (regex, text) in CASES {
        assert_eq!(solve(regex, text), solve(regex, text));
    }
}

#[test]
fn table_and_map_give_the_same_alignment() {
    for (regex, text) in CASES {
        let table = solve(regex, text);
        let map = MapSolution::solve(&Problem { pattern: in_core(regex), text: atoms(text) }).unwrap();
        assert_eq!(table.score, *map.score());
        assert_eq!(table.trace, *map.trace());
        let again = solve_lattice::<MapSolution>(&in_core(regex), &atoms(text)).unwrap();
        assert_eq!(map, again);
        assert_eq!(table.score_lattice(), again.score_lattice());
        assert_eq!(table.trace_lattice(), again.trace_lattice());
        assert_eq!(table, TableSolution::new(*map.score(), table.trace_lattice().clone()));
    }
}

#[test]
fn out_chunks_split_a_mixed_difference_in_two() {
    let solution = solve("abcde", "zabke");
    let output = DiffOutput::new(&solution.score, &solution.trace);
    assert_eq!(
        vec![
            OutChunk::Added("z".to_string()),
            OutChunk::Same("ab".to_string()),
            OutChunk::Taken("cd".to_string()),
            OutChunk::Added("k".to_string()),
            OutChunk::Same("e".to_string()),
        ],
        OutChunk::from(&output.chunks)
    );
    let taken = solve("ab", "b");
    let output = DiffOutput::new(&taken.score, &taken.trace);
    assert_eq!(
        vec![OutChunk::Taken("a".to_string()), OutChunk::Same("b".to_string())],
        OutChunk::from(&output.chunks)
    );
}

#[test]
fn a_lattice_of_the_usual_size_fits() {
    for (regex, text) in CASES {
        assert!(fits(&in_core(regex), &atoms(text)));
    }
    assert!(fits(&Pattern { elems: vec![] }, &atoms("")));
}

#[test]
fn the_trace_holds_every_literal_of_a_plain_pattern() {
    for (regex, text) in [("abcde", "zabke"), ("bar", "baz"), ("abc", ""), ("abc", "abcabc")] {
        let solution = solve(regex, text);
        let mut sides = String::new();
        for step in &solution.trace {
            match step {
                Step::Hit(Match::Lit(c), _) => sides.push(*c),
                Step::SkipPattern(Match::Lit(c)) => sides.push(*c),
                _ => {}
            }
        }
        assert_eq!(regex, sides);
    }
}

#[test]
fn a_skipped_character_stands_before_the_mark_of_a_capture() {
    let solution = solve("(a)", "xa");
    assert_eq!(
        vec![
            Step::SkipText('x'),
            Step::StartCapture,
            Step::Hit(Match::Lit('a'), 'a'),
            Step::StopCapture,
        ],
        solution.trace
    );
    let solution = solve("(a)", "ax");
    assert_eq!(
        vec![
            Step::StartCapture,
            Step::Hit(Match::Lit('a'), 'a'),
            Step::SkipText('x'),
            Step::StopCapture,
        ],
        solution.trace
    );
}

fn asked(trace: &Vec<Step<Match, char>>) -> Vec<&Match> {
    let mut sides = Vec::new();
    for step in trace {
        match step {
            Step::Hit(m, _) => sides.push(m),
            Step::SkipPattern(m) => sides.push(m),
            _ => {}
        }
    }
    sides
}

/// The places in `sides` at which a way through `elems` can end that begins
/// at one of the places `from`.
fn ways(elems: &[ElementCore], sides: &[&Match], from: Vec<usize>) -> Vec<usize> {
    let mut places = from;
    for elem in elems {
        places = match elem {
            ElementCore::Match(m) => places
                .into_iter()
                .filter(|place| *place < sides.len() && sides[*place] == m)
                .map(|place| place + 1)
                .collect(),
            ElementCore::Capture(inner) => ways(&inner.elems, sides, places),
            ElementCore::Alternative(left, right) => {
                let mut ends = ways(&left.elems, sides, places.clone());
                for end in ways(&right.elems, sides, places) {
                    if !ends.contains(&end) {
                        ends.push(end);
                    }
                }
                ends
            }
            ElementCore::Repetition(inner) => {
                let mut ends = places;
                let mut round: usize = 0;
                while round <= sides.len() {
                    for end in ways(&inner.elems, sides, ends.clone()) {
                        if !ends.contains(&end) {
                            ends.push(end);
                        }
                    }
                    round += 1;
                }
                ends
            }
        };
    }
    places
}

fn goes_through(pattern: &Pattern<ElementCore>, trace: &Vec<Step<Match, char>>) -> bool {
    let sides = asked(trace);
    ways(&pattern.elems, &sides, vec![0]).contains(&sides.len())
}

fn hits_are_real(trace: &Vec<Step<Match, char>>) -> bool {
    trace.iter().all(|step| match step {
        Step::Hit(Match::Lit(l), c) => l == c,
        Step::Hit(Match::Class(class), c) => class.matches(*c),
        _ => true,
    })
}

#[test]
fn the_trace_goes_one_way_through_the_pattern() {
    for (regex, text) in CASES {
        let solution = solve(regex, text);
        assert!(goes_through(&in_core(regex), &solution.trace), "{} against {}", regex, text);
    }
}

#[test]
fn a_trace_that_leaves_the_pattern_goes_no_way_through_it() {
    let pattern = in_core("(ab|cd)*e");
    let both = vec![
        Step::Hit(Match::Lit('a'), 'a'),
        Step::Hit(Match::Lit('d'), 'd'),
        Step::Hit(Match::Lit('e'), 'e'),
    ];
    assert!(!goes_through(&pattern, &both));
    let none = vec![Step::SkipText('e')];
    assert!(!goes_through(&pattern, &none));
    let twice = vec![
        Step::Hit(Match::Lit('c'), 'c'),
        Step::SkipPattern(Match::Lit('d')),
        Step::Hit(Match::Lit('a'), 'a'),
        Step::Hit(Match::Lit('b'), 'b'),
        Step::Hit(Match::Lit('e'), 'e'),
    ];
    assert!(goes_through(&pattern, &twice));
}

#[test]
fn every_hit_of_the_trace_is_one() {
    for (regex, text) in CASES {
        let solution = solve(regex, text);
        assert!(hits_are_real(&solution.trace), "{} against {}", regex, text);
    }
}

#[test]
fn no_alignment_passes_over_fewer_characters() {
    let pattern = in_core("(ab|cd)*e");
    let text = "cabe";
    let solution = TableSolution::solve(&pattern, &atoms(text)).unwrap();
    assert_eq!(1, solution.score);
    let others = vec![
        vec![
            Step::SkipText('c'),
            Step::Hit(Match::Lit('a'), 'a'),
            Step::Hit(Match::Lit('b'), 'b'),
            Step::Hit(Match::Lit('e'), 'e'),
        ],
        vec![
            Step::Hit(Match::Lit('c'), 'c'),
            Step::SkipPattern(Match::Lit('d')),
            Step::Hit(Match::Lit('a'), 'a'),
            Step::Hit(Match::Lit('b'), 'b'),
            Step::Hit(Match::Lit('e'), 'e'),
        ],
        vec![
            Step::SkipText('c'),
            Step::SkipText('a'),
            Step::SkipText('b'),
            Step::Hit(Match::Lit('e'), 'e'),
        ],
        vec![
            Step::SkipPattern(Match::Lit('a')),
            Step::SkipPattern(Match::Lit('b')),
            Step::Hit(Match::Lit('c'), 'c'),
            Step::SkipPattern(Match::Lit('d')),
            Step::Hit(Match::Lit('a'), 'a'),
            Step::Hit(Match::Lit('b'), 'b'),
            Step::Hit(Match::Lit('e'), 'e'),
        ],
    ];
    for other in &others {
        assert_eq!(text, text_of(other));
        assert!(goes_through(&pattern, other));
        assert!(hits_are_real(other));
        assert!(solution.score <= skips(other));
    }
}

fn marks_are_balanced(trace: &Vec<Step<Match, char>>) -> bool {
    let mut open: usize = 0;
    for step in trace {
        match step {
            Step::StartCapture => open += 1,
            Step::StopCapture => {
                if open == 0 {
                    return false;
                }
                open -= 1;
            }
            _ => {}
        }
    }
    open == 0
}

#[test]
fn the_marks_of_captures_are_balanced() {
    for (regex, text) in CASES {
        let solution = solve(regex, text);
        assert!(marks_are_balanced(&solution.trace), "{} against {}", regex, text);
    }
    let nested = solve("((a)(b))*", "abxab").trace;
    assert!(marks_are_balanced(&nested));
    assert_eq!(6, nested.iter().filter(|step| matches!(step, Step::StartCapture)).count());
    assert!(!marks_are_balanced(&vec![Step::StopCapture, Step::StartCapture]));
    assert!(!marks_are_balanced(&vec![Step::StartCapture]));
}
