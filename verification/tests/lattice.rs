use fuzzy::error::Error;
use fuzzy::flat_pattern::Flat;
use fuzzy::lattice::{Ix, LatticeIx, NodeType, StepType};
use fuzzy::config::{Config, LatticeConfig};
use fuzzy::lattice_solution::{LatticeState, MAX_STEPS};
use fuzzy::node::Node;
use fuzzy::{Atoms, Class, ClassRange, ElementCore, Match, Pattern, Step};
use nonempty::NonEmpty;

fn ix(pattern: usize, text: usize, reps: usize, rep_off: usize) -> Ix {
    Ix { pattern, text, reps, rep_off }
}

fn conf(elems: Vec<ElementCore>, text: &str) -> Config {
    Config::new(&Pattern { elems }, &Atoms { atoms: text.chars().collect() })
}

fn plain(c: char) -> ElementCore {
    ElementCore::Match(Match::Lit(c))
}

#[test]
fn the_solver_gives_up_after_a_thousand_million_steps() {
    assert_eq!(1000000000, MAX_STEPS);
}

#[test]
fn default_ix_is_all_zero() {
    assert_eq!(ix(0, 0, 0, 0), Ix::default());
}

#[test]
fn a_repetition_restarts_only_at_depth_zero() {
    assert!(ix(3, 1, 2, 0).can_restart());
    assert!(!ix(3, 1, 2, 1).can_restart());
}

#[test]
fn only_skips_cost_something() {
    assert_eq!(1, StepType::SkipText.cost());
    assert_eq!(1, StepType::SkipPattern.cost());
    assert_eq!(0, StepType::Hit.cost());
    assert_eq!(0, StepType::StartGroup.cost());
    assert_eq!(0, StepType::EndGroup.cost());
    assert_eq!(0, StepType::StartLeft.cost());
    assert_eq!(0, StepType::StartRight(3).cost());
    assert_eq!(0, StepType::PassRight(3).cost());
    assert_eq!(0, StepType::StartRepetition.cost());
    assert_eq!(0, StepType::PassRepetition(3).cost());
    assert_eq!(0, StepType::EndRepetition.cost());
    assert_eq!(0, StepType::RestartRepetition(3).cost());
}

#[test]
fn five_steps_leave_a_mark_in_the_trace() {
    assert_eq!(Some(Step::Hit((), ())), StepType::Hit.step());
    assert_eq!(Some(Step::SkipPattern(())), StepType::SkipPattern.step());
    assert_eq!(Some(Step::SkipText(())), StepType::SkipText.step());
    assert_eq!(Some(Step::StartCapture), StepType::StartGroup.step());
    assert_eq!(Some(Step::StopCapture), StepType::EndGroup.step());
    assert_eq!(None, StepType::StartLeft.step());
    assert_eq!(None, StepType::StartRight(1).step());
    assert_eq!(None, StepType::PassRight(1).step());
    assert_eq!(None, StepType::StartRepetition.step());
    assert_eq!(None, StepType::PassRepetition(1).step());
    assert_eq!(None, StepType::EndRepetition.step());
    assert_eq!(None, StepType::RestartRepetition(1).step());
}

#[test]
fn node_type_of_literals_and_classes() {
    let at = ix(0, 0, 1, 0);
    let digit = Flat::Class(Class::new(vec![ClassRange { start: '0', end: '9' }]));
    assert_eq!(None, NodeType::get(None, None, &at));
    assert_eq!(Some(NodeType::FinishedPattern), NodeType::get(None, Some(&'a'), &at));
    assert_eq!(Some(NodeType::Hit), NodeType::get(Some(&Flat::Lit('a')), Some(&'a'), &at));
    assert_eq!(Some(NodeType::NoHit), NodeType::get(Some(&Flat::Lit('a')), Some(&'b'), &at));
    assert_eq!(Some(NodeType::FinishedText), NodeType::get(Some(&Flat::Lit('a')), None, &at));
    assert_eq!(Some(NodeType::Hit), NodeType::get(Some(&digit), Some(&'4'), &at));
    assert_eq!(Some(NodeType::NoHit), NodeType::get(Some(&digit), Some(&'a'), &at));
    assert_eq!(Some(NodeType::FinishedText), NodeType::get(Some(&digit), None, &at));
}

#[test]
fn node_type_of_marks() {
    let at = ix(0, 0, 2, 0);
    let deep = ix(0, 0, 2, 1);
    assert_eq!(
        Some(NodeType::StartGroup(false)),
        NodeType::get(Some(&Flat::GroupStart), None, &at)
    );
    assert_eq!(
        Some(NodeType::StartGroup(true)),
        NodeType::get(Some(&Flat::GroupStart), Some(&'a'), &at)
    );
    assert_eq!(
        Some(NodeType::EndGroup(true)),
        NodeType::get(Some(&Flat::GroupEnd), Some(&'a'), &at)
    );
    assert_eq!(Some(NodeType::EndGroup(false)), NodeType::get(Some(&Flat::GroupEnd), None, &at));
    assert_eq!(
        Some(NodeType::AlternativeLeft(4, false)),
        NodeType::get(Some(&Flat::AlternativeLeft(4)), None, &at)
    );
    assert_eq!(
        Some(NodeType::AlternativeLeft(4, true)),
        NodeType::get(Some(&Flat::AlternativeLeft(4)), Some(&'a'), &at)
    );
    assert_eq!(
        Some(NodeType::AlternativeRight(5, false)),
        NodeType::get(Some(&Flat::AlternativeRight(5)), None, &at)
    );
    assert_eq!(
        Some(NodeType::AlternativeRight(5, true)),
        NodeType::get(Some(&Flat::AlternativeRight(5)), Some(&'a'), &at)
    );
    assert_eq!(
        Some(NodeType::RepetitionStart(6, false)),
        NodeType::get(Some(&Flat::RepetitionStart(6)), None, &at)
    );
    assert_eq!(
        Some(NodeType::RepetitionStart(6, true)),
        NodeType::get(Some(&Flat::RepetitionStart(6)), Some(&'a'), &at)
    );
    assert_eq!(
        Some(NodeType::RepetitionRestart(7, false)),
        NodeType::get(Some(&Flat::RepetitionEnd(7)), None, &at)
    );
    assert_eq!(
        Some(NodeType::RepetitionRestart(7, true)),
        NodeType::get(Some(&Flat::RepetitionEnd(7)), Some(&'a'), &at)
    );
    assert_eq!(
        Some(NodeType::RepetitionEnd(false)),
        NodeType::get(Some(&Flat::RepetitionEnd(7)), None, &deep)
    );
    assert_eq!(
        Some(NodeType::RepetitionEnd(true)),
        NodeType::get(Some(&Flat::RepetitionEnd(7)), Some(&'a'), &deep)
    );
}

fn list(steps: Vec<StepType>) -> NonEmpty<StepType> {
    NonEmpty::from_vec(steps).unwrap()
}

#[test]
fn step_types_in_the_order_in_which_they_are_tried() {
    assert_eq!(list(vec![StepType::SkipText]), NodeType::FinishedPattern.step_types());
    assert_eq!(list(vec![StepType::SkipPattern]), NodeType::FinishedText.step_types());
    assert_eq!(
        list(vec![StepType::Hit, StepType::SkipPattern, StepType::SkipText]),
        NodeType::Hit.step_types()
    );
    assert_eq!(
        list(vec![StepType::SkipPattern, StepType::SkipText]),
        NodeType::NoHit.step_types()
    );
}

#[test]
fn step_types_of_marks_without_text() {
    assert_eq!(list(vec![StepType::StartGroup]), NodeType::StartGroup(false).step_types());
    assert_eq!(list(vec![StepType::EndGroup]), NodeType::EndGroup(false).step_types());
    assert_eq!(
        list(vec![StepType::StartLeft, StepType::StartRight(4)]),
        NodeType::AlternativeLeft(4, false).step_types()
    );
    assert_eq!(
        list(vec![StepType::PassRight(5)]),
        NodeType::AlternativeRight(5, false).step_types()
    );
    assert_eq!(
        list(vec![StepType::StartRepetition, StepType::PassRepetition(6)]),
        NodeType::RepetitionStart(6, false).step_types()
    );
    assert_eq!(
        list(vec![StepType::RestartRepetition(7)]),
        NodeType::RepetitionRestart(7, false).step_types()
    );
    assert_eq!(list(vec![StepType::EndRepetition]), NodeType::RepetitionEnd(false).step_types());
}

#[test]
fn step_types_of_marks_with_text_begin_with_the_skip() {
    assert_eq!(
        list(vec![StepType::SkipText, StepType::StartGroup]),
        NodeType::StartGroup(true).step_types()
    );
    assert_eq!(
        list(vec![StepType::SkipText, StepType::EndGroup]),
        NodeType::EndGroup(true).step_types()
    );
    assert_eq!(
        list(vec![StepType::SkipText, StepType::StartLeft, StepType::StartRight(4)]),
        NodeType::AlternativeLeft(4, true).step_types()
    );
    assert_eq!(
        list(vec![StepType::SkipText, StepType::PassRight(5)]),
        NodeType::AlternativeRight(5, true).step_types()
    );
    assert_eq!(
        list(vec![StepType::SkipText, StepType::StartRepetition, StepType::PassRepetition(6)]),
        NodeType::RepetitionStart(6, true).step_types()
    );
    assert_eq!(
        list(vec![StepType::SkipText, StepType::RestartRepetition(7)]),
        NodeType::RepetitionRestart(7, true).step_types()
    );
    assert_eq!(
        list(vec![StepType::SkipText, StepType::EndRepetition]),
        NodeType::RepetitionEnd(true).step_types()
    );
}

#[test]
fn config_start_end_and_get() {
    let conf = conf(vec![plain('a'), ElementCore::Repetition(Pattern { elems: vec![plain('b')] })], "xy");
    assert_eq!(ix(0, 0, 1, 0), conf.start());
    assert_eq!(ix(6, 2, 1, 0), conf.end());
    assert_eq!(6, conf.pattern_len());
    assert_eq!(2, conf.text_len());
    assert_eq!((Some(&Flat::Lit('a')), Some(&'x')), conf.get(ix(0, 0, 1, 0)));
    assert_eq!((Some(&Flat::RepetitionStart(3)), Some(&'y')), conf.get(ix(1, 1, 1, 0)));
    assert_eq!((Some(&Flat::RepetitionEnd(3)), None), conf.get(ix(4, 2, 2, 1)));
    assert_eq!((None, None), conf.get(conf.end()));
}

#[test]
fn config_step_for_every_step_type() {
    let conf = conf(vec![], "");
    let at = ix(10, 3, 2, 1);
    assert_eq!(ix(12, 4, 2, 0), conf.step(at, StepType::Hit));
    assert_eq!(ix(10, 4, 2, 0), conf.step(at, StepType::SkipText));
    assert_eq!(ix(12, 3, 2, 1), conf.step(at, StepType::SkipPattern));
    assert_eq!(ix(12, 3, 2, 1), conf.step(at, StepType::StartGroup));
    assert_eq!(ix(12, 3, 2, 1), conf.step(at, StepType::EndGroup));
    assert_eq!(ix(12, 3, 2, 1), conf.step(at, StepType::StartLeft));
    assert_eq!(ix(17, 3, 2, 1), conf.step(at, StepType::StartRight(5)));
    assert_eq!(ix(15, 3, 2, 1), conf.step(at, StepType::PassRight(5)));
    assert_eq!(ix(12, 3, 3, 2), conf.step(at, StepType::StartRepetition));
    assert_eq!(ix(12, 3, 1, 0), conf.step(at, StepType::EndRepetition));
    assert_eq!(ix(18, 3, 2, 1), conf.step(at, StepType::PassRepetition(5)));
    assert_eq!(ix(5, 3, 1, 1), conf.step(at, StepType::RestartRepetition(5)));
}

#[test]
fn a_new_node_is_ready() {
    let node = Node::new();
    assert!(node.is_ready());
    assert!(!node.is_working());
    assert!(!node.is_done());
    assert!(matches!(
        node.current_step_type(),
        Err(Error::CannotGetNodeField("current_step_type", "working"))
    ));
    assert!(matches!(
        node.done_info(),
        Err(Error::CannotGetNodeField("score/step_type/next", "done"))
    ));
}

#[test]
fn a_node_tries_its_steps_and_keeps_the_first_best() {
    let end = ix(9, 9, 1, 0);
    let parent = ix(0, 0, 1, 0);
    let at = ix(1, 0, 1, 0);
    let mut node = Node::new();
    node.initialise(end, parent, at, Some(NodeType::Hit)).unwrap();
    assert!(node.is_working());
    assert_eq!(StepType::Hit, node.current_step_type().unwrap());

    assert_eq!(parent, node.update(ix(2, 1, 1, 0), at, 5).unwrap());
    assert!(node.is_working());
    assert_eq!(StepType::SkipPattern, node.current_step_type().unwrap());

    assert_eq!(parent, node.update(ix(2, 0, 1, 0), at, 4).unwrap());
    assert_eq!(StepType::SkipText, node.current_step_type().unwrap());

    assert_eq!(parent, node.update(ix(1, 1, 1, 0), at, 2).unwrap());
    assert!(node.is_done());
    assert!(!node.is_working());
    assert_eq!((3, StepType::SkipText, ix(1, 1, 1, 0)), node.done_info().unwrap());
    assert!(node.current_step_type().is_err());
}

#[test]
fn a_node_takes_the_earlier_of_two_equal_steps() {
    let end = ix(9, 9, 1, 0);
    let at = ix(1, 0, 1, 0);
    let mut node = Node::new();
    node.initialise(end, Ix::default(), at, Some(NodeType::NoHit)).unwrap();
    node.update(ix(2, 0, 1, 0), at, 3).unwrap();
    node.update(ix(1, 1, 1, 0), at, 3).unwrap();
    assert_eq!((4, StepType::SkipPattern, ix(2, 0, 1, 0)), node.done_info().unwrap());
}

#[test]
fn the_last_node_is_done_at_once() {
    let end = ix(9, 9, 1, 0);
    let mut node = Node::new();
    node.initialise(end, ix(8, 9, 1, 0), end, None).unwrap();
    assert!(node.is_done());
    assert_eq!((0, StepType::Hit, Ix::default()), node.done_info().unwrap());
}

#[test]
fn a_node_without_steps_elsewhere_is_an_error() {
    let end = ix(9, 9, 1, 0);
    let mut node = Node::new();
    match node.initialise(end, Ix::default(), ix(3, 4, 2, 1), None) {
        Err(Error::NoNodeType(text)) => {
            assert_eq!("Ix { pattern: 3, text: 4, reps: 2, rep_off: 1 }", text)
        }
        other => panic!("Unexpected outcome: {:?}", other),
    }
    assert!(node.is_ready());
}

#[test]
fn a_node_is_set_to_work_only_once() {
    let end = ix(9, 9, 1, 0);
    let at = ix(3, 4, 2, 1);
    let mut node = Node::new();
    node.initialise(end, Ix::default(), at, Some(NodeType::StartGroup(false))).unwrap();
    match node.initialise(end, Ix::default(), at, Some(NodeType::Hit)) {
        Err(Error::CannotInitialiseNode(text)) => {
            assert_eq!("Ix { pattern: 3, text: 4, reps: 2, rep_off: 1 }", text)
        }
        other => panic!("Unexpected outcome: {:?}", other),
    }
    assert_eq!(StepType::StartGroup, node.current_step_type().unwrap());
}

#[test]
fn a_node_that_is_not_working_takes_no_score() {
    let at = ix(3, 4, 2, 1);
    let mut node = Node::new();
    match node.update(ix(4, 4, 2, 1), at, 0) {
        Err(Error::CannotUpdateNode(text)) => {
            assert_eq!("Ix { pattern: 3, text: 4, reps: 2, rep_off: 1 }", text)
        }
        other => panic!("Unexpected outcome: {:?}", other),
    }
    assert!(node.is_ready());
}

fn stores_agree<S: LatticeState<Config>>() {
    let conf = conf(vec![plain('a'), plain('b')], "x");
    let mut state = S::new(&conf);
    let at = ix(1, 1, 1, 0);
    assert!(state.get(at).is_ready());
    state.get_mut(at).initialise(conf.end(), conf.start(), at, Some(NodeType::Hit)).unwrap();
    assert!(state.get(at).is_working());
    assert!(state.get(conf.start()).is_ready());
    assert!(state.get(conf.end()).is_ready());
    assert!(state.get(ix(2, 0, 1, 0)).is_ready());
    state.get_mut(at).update(ix(2, 1, 1, 0), at, 1).unwrap();
    assert_eq!(StepType::SkipPattern, state.get(at).current_step_type().unwrap());
}

#[test]
fn the_table_holds_a_node_for_every_index() {
    stores_agree::<fuzzy::table_solution::State>();
}

#[test]
fn the_map_holds_a_node_for_every_index() {
    stores_agree::<fuzzy::map_solution::State>();
}
