use ncd_predict::context::{build_exhaustive, ContextTable};
use ncd_predict::distance::Distance;
use ncd_predict::engine::get_ncds;
use ncd_predict::error::Error;
use ncd_predict::index::{Neighbor, SpatialIndex};
use ncd_predict::oracle::RunLengthOracle;
use ncd_predict::predictor::{
    display_byte, majority_vote, query_descriptor, Predictor, DEFAULT_NEIGHBORS,
};

fn bytes(s: &str) -> Vec<u8> {
    s.bytes().collect()
}

fn answer(distance: u128, id: usize) -> Neighbor {
    Neighbor { distance, id }
}

#[test]
fn live_window_is_the_tail_of_the_running_context() {
    assert_eq!(query_descriptor(0, 8), (0, 0));
    assert_eq!(query_descriptor(4, 8), (4, 0));
    assert_eq!(query_descriptor(8, 8), (8, 0));
    assert_eq!(query_descriptor(9, 8), (8, 1));
    assert_eq!(query_descriptor(100, 8), (8, 92));
    assert_eq!(query_descriptor(5, 0), (0, 5));
}

#[test]
fn carriage_return_is_shown_as_line_feed() {
    assert_eq!(display_byte(b'\r'), b'\n');
    assert_eq!(display_byte(b'\n'), b'\n');
    assert_eq!(display_byte(b'a'), b'a');
    assert_eq!(display_byte(0), 0);
    assert_eq!(display_byte(255), 255);
}

#[test]
fn default_number_of_neighbours() {
    assert_eq!(DEFAULT_NEIGHBORS, 7);
}

#[test]
fn vote_goes_to_the_most_frequent_target() {
    let targets = bytes("xyxzy");
    let answers = vec![answer(0, 1), answer(1, 0), answer(2, 2), answer(3, 3)];
    assert_eq!(majority_vote(&answers, &targets), Some(b'x'));
}

#[test]
fn vote_tie_goes_to_the_nearer_neighbour() {
    let targets = bytes("abab");
    let answers = vec![answer(1, 1), answer(2, 0), answer(3, 2), answer(4, 3)];
    assert_eq!(majority_vote(&answers, &targets), Some(b'b'));
    let answers = vec![answer(1, 0), answer(2, 1), answer(3, 3), answer(4, 2)];
    assert_eq!(majority_vote(&answers, &targets), Some(b'a'));
}

#[test]
fn vote_tie_at_one_distance_goes_to_the_smaller_byte() {
    let targets = bytes("zc");
    let answers = vec![answer(5, 0), answer(5, 1)];
    assert_eq!(majority_vote(&answers, &targets), Some(b'c'));
    let answers = vec![answer(5, 1), answer(5, 0)];
    assert_eq!(majority_vote(&answers, &targets), Some(b'c'));
}

#[test]
fn vote_does_not_depend_on_the_order_of_the_answers() {
    let targets = bytes("ppqqr");
    let sorted = vec![answer(1, 4), answer(2, 2), answer(3, 0), answer(4, 3), answer(5, 1)];
    let shuffled = vec![answer(4, 3), answer(1, 4), answer(5, 1), answer(3, 0), answer(2, 2)];
    assert_eq!(majority_vote(&sorted, &targets), Some(b'q'));
    assert_eq!(majority_vote(&shuffled, &targets), Some(b'q'));
}

#[test]
fn vote_without_answers_has_no_winner() {
    assert_eq!(majority_vote(&vec![], &bytes("abc")), None);
}

#[test]
fn repeated_votes_give_one_outcome() {
    let targets = bytes("abcabcabc");
    let answers = vec![answer(3, 8), answer(3, 1), answer(4, 0), answer(9, 5), answer(9, 3), answer(9, 4)];
    let first = majority_vote(&answers, &targets);
    for _ in 0..10 {
        assert_eq!(majority_vote(&answers, &targets), first);
    }
    // two votes each; "b" and "c" both have a neighbour at distance 3
    assert_eq!(first, Some(b'b'));
}

#[test]
fn periodic_corpus_is_continued() {
    let corpus = bytes("abababab");
    let table = build_exhaustive(&corpus, 2);
    let mut predictor =
        Predictor::train(&RunLengthOracle, corpus, table, 2, DEFAULT_NEIGHBORS, bytes("ab")).ok().unwrap();
    let produced = predictor.generate(&RunLengthOracle, 4);
    assert_eq!(produced, Ok(bytes("abab")));
    assert_eq!(predictor.state, bytes("ababab"));
}

#[test]
fn periodic_corpus_step_by_step() {
    let corpus = bytes("abababab");
    let table = build_exhaustive(&corpus, 2);
    let mut predictor =
        Predictor::train(&RunLengthOracle, corpus, table, 2, DEFAULT_NEIGHBORS, bytes("ab")).ok().unwrap();
    assert_eq!(predictor.next_query(), (2, 0));
    assert_eq!(predictor.step(&RunLengthOracle), Ok(b'a'));
    assert_eq!(predictor.next_query(), (2, 1));
    assert_eq!(predictor.step(&RunLengthOracle), Ok(b'b'));
    assert_eq!(predictor.state, bytes("abab"));
}

#[test]
fn nearest_neighbours_of_a_context_of_the_periodic_corpus() {
    let corpus = bytes("abababab");
    let table = build_exhaustive(&corpus, 2);
    let matrix = get_ncds(&RunLengthOracle, (&corpus, &table.contexts), (&corpus, &table.contexts));
    let index = SpatialIndex::build(&matrix).ok().unwrap();
    let state = bytes("ab");
    let vector = get_ncds(&RunLengthOracle, (&state, &vec![(2, 0)]), (&corpus, &table.contexts))
        .pop()
        .unwrap();
    let answers = index.query(&vector, 7).unwrap();
    let found: Vec<usize> = answers.iter().map(|a| a.id).collect();
    // the three "ab", the three "b", and the first "ba"
    assert_eq!(found, vec![1, 5, 9, 2, 6, 10, 3]);
    assert_eq!(answers[0].distance, 0);
    assert_eq!(answers[2].distance, 0);
    assert!(answers[3].distance > 0);
}

#[test]
fn generation_stops_at_the_budget() {
    let corpus = bytes("abcabcabcabc");
    let table = build_exhaustive(&corpus, 3);
    let mut predictor = Predictor::train(&RunLengthOracle, corpus, table, 3, 3, bytes("abc")).ok().unwrap();
    assert_eq!(predictor.generate(&RunLengthOracle, 0), Ok(vec![]));
    assert_eq!(predictor.state, bytes("abc"));
    let produced = predictor.generate(&RunLengthOracle, 5).unwrap();
    assert_eq!(produced.len(), 5);
    assert_eq!(predictor.state.len(), 8);
    assert_eq!(&predictor.state[..3], b"abc");
    assert_eq!(&predictor.state[3..], &produced[..]);
}

#[test]
fn advance_takes_a_feature_vector_from_outside() {
    let corpus = bytes("abababab");
    let table = build_exhaustive(&corpus, 2);
    let matrix = get_ncds(&RunLengthOracle, (&corpus, &table.contexts), (&corpus, &table.contexts));
    let index = SpatialIndex::build(&matrix).ok().unwrap();
    let mut predictor = Predictor::assemble(corpus.clone(), table, index, 2, 7, bytes("xba"));
    let d = predictor.next_query();
    assert_eq!(d, (2, 1));
    let vector = get_ncds(
        &RunLengthOracle,
        (&predictor.state, &vec![d]),
        (&corpus, &predictor.table.contexts),
    )
    .pop()
    .unwrap();
    assert_eq!(predictor.advance(&vector), Ok(b'b'));
    assert_eq!(predictor.state, bytes("xbab"));
}

#[test]
fn advance_without_prediction_changes_nothing() {
    let corpus = bytes("abababab");
    let table = build_exhaustive(&corpus, 2);
    let mut predictor =
        Predictor::train(&RunLengthOracle, corpus, table, 2, 7, bytes("ab")).ok().unwrap();
    assert_eq!(predictor.advance(&vec![Distance::Finite(0)]), Err(Error::WrongDimension));
    let mut vector = vec![Distance::Finite(0); 12];
    vector[5] = Distance::NonFinite;
    assert_eq!(predictor.advance(&vector), Err(Error::NonFiniteDistance));
    assert_eq!(predictor.state, bytes("ab"));
}

#[test]
fn no_neighbours_no_prediction() {
    let corpus = bytes("abababab");
    let table = build_exhaustive(&corpus, 2);
    let mut none_asked =
        Predictor::train(&RunLengthOracle, corpus.clone(), table, 2, 0, bytes("ab")).ok().unwrap();
    assert_eq!(none_asked.step(&RunLengthOracle), Err(Error::NoNeighbors));
    assert_eq!(none_asked.generate(&RunLengthOracle, 3), Err(Error::NoNeighbors));
    assert_eq!(none_asked.state, bytes("ab"));
    let empty = ContextTable { contexts: vec![], targets: vec![] };
    let mut nothing_indexed =
        Predictor::train(&RunLengthOracle, corpus, empty, 2, 7, bytes("ab")).ok().unwrap();
    assert_eq!(nothing_indexed.step(&RunLengthOracle), Err(Error::NoNeighbors));
}

#[test]
fn training_refuses_a_table_with_distances_that_are_no_numbers() {
    let corpus = bytes("abc");
    let table = ContextTable { contexts: vec![(0, 0), (0, 1)], targets: bytes("ab") };
    let r = Predictor::train(&RunLengthOracle, corpus, table, 2, 7, vec![]);
    assert_eq!(r.err(), Some(Error::NonFiniteDistance));
}

#[test]
fn parts_that_do_not_fit_are_told_apart() {
    let corpus = bytes("abababab");
    let table = build_exhaustive(&corpus, 2);
    let mut predictor =
        Predictor::train(&RunLengthOracle, corpus, table, 2, 7, bytes("ab")).ok().unwrap();
    assert!(predictor.is_well_formed());
    predictor.table.targets[0] = b'z';
    assert!(!predictor.is_well_formed());
    predictor.table.targets[0] = b'b';
    assert!(predictor.is_well_formed());
    predictor.table.contexts.pop();
    predictor.table.targets.pop();
    assert!(!predictor.is_well_formed());
}
