use ncd_predict::context::{build_exhaustive, ContextTable};
use ncd_predict::error::Error;
use ncd_predict::distance::{Distance, ONE};
use ncd_predict::engine::{
    descriptor_range, drop_degenerate, get_ncds, get_ncds_chunked, get_ncds_two_sets,
    has_windows_inside, same_operands,
};
use ncd_predict::oracle::RunLengthOracle;

fn bytes(s: &str) -> Vec<u8> {
    s.bytes().collect()
}

#[test]
fn distances_under_the_run_length_oracle() {
    let corpus = bytes("abab");
    // "a", "b", "ab", "ba"
    let contexts = vec![(1, 0), (1, 1), (2, 0), (2, 1)];
    let m = get_ncds(&RunLengthOracle, (&corpus, &contexts), (&corpus, &contexts));
    let h = ONE / 2;
    let expected = vec![
        vec![0, ONE, h, ONE],
        vec![ONE, 0, ONE, h],
        vec![ONE, h, ONE, h],
        vec![h, ONE, h, ONE],
    ];
    for i in 0..4 {
        for j in 0..4 {
            assert_eq!(m[i][j], Distance::Finite(expected[i][j]), "entry {} {}", i, j);
        }
    }
}

#[test]
fn matrix_has_one_row_for_each_query_and_one_column_for_each_reference() {
    let q_corpus = bytes("xyzzy");
    let r_corpus = bytes("abababab");
    let queries = vec![(2, 0), (3, 2), (1, 4)];
    let references = build_exhaustive(&r_corpus, 2).contexts;
    let m = get_ncds(&RunLengthOracle, (&q_corpus, &queries), (&r_corpus, &references));
    assert_eq!(m.len(), 3);
    for row in &m {
        assert_eq!(row.len(), 12);
    }
    let none: Vec<(usize, usize)> = vec![];
    let empty_rows = get_ncds(&RunLengthOracle, (&q_corpus, &none), (&r_corpus, &references));
    assert_eq!(empty_rows.len(), 0);
    let empty_cols = get_ncds(&RunLengthOracle, (&q_corpus, &queries), (&r_corpus, &none));
    assert_eq!(empty_cols.len(), 3);
    assert!(empty_cols.iter().all(|row| row.is_empty()));
}

#[test]
fn same_set_path_and_two_set_path_agree() {
    let corpus = bytes("the quick brown fox jumps over the lazy dog");
    let table = build_exhaustive(&corpus, 4);
    let copy_corpus = corpus.clone();
    let copy_contexts = table.contexts.clone();
    assert!(same_operands(&(&corpus, &table.contexts), &(&copy_corpus, &copy_contexts)));
    let shared = get_ncds(&RunLengthOracle, (&corpus, &table.contexts), (&corpus, &table.contexts));
    let general =
        get_ncds_two_sets(&RunLengthOracle, (&corpus, &table.contexts), (&copy_corpus, &copy_contexts));
    assert_eq!(shared, general);
}

#[test]
fn operands_are_the_same_only_if_corpus_and_windows_are() {
    let a = bytes("abcd");
    let b = bytes("abcd");
    let c = bytes("abce");
    let d1 = vec![(1, 0), (2, 1)];
    let d2 = vec![(1, 0), (2, 1)];
    let d3 = vec![(1, 0), (2, 2)];
    let d4 = vec![(1, 0)];
    let d5 = vec![(2, 0), (2, 1)];
    assert!(same_operands(&(&a, &d1), &(&b, &d2)));
    assert!(!same_operands(&(&a, &d1), &(&c, &d2)));
    assert!(!same_operands(&(&a, &d1), &(&b, &d3)));
    assert!(!same_operands(&(&a, &d1), &(&b, &d4)));
    assert!(!same_operands(&(&a, &d1), &(&b, &d5)));
    assert!(!same_operands(&(&a, &d1), &(&bytes("abc"), &d2)));
}

#[test]
fn zero_length_contexts_give_no_number() {
    let corpus = bytes("ab");
    let contexts = vec![(0, 0), (1, 0)];
    let m = get_ncds(&RunLengthOracle, (&corpus, &contexts), (&corpus, &contexts));
    assert_eq!(m[0][0], Distance::NonFinite);
    assert_eq!(m[0][1], Distance::Finite(ONE));
    assert_eq!(m[1][0], Distance::Finite(ONE));
    assert_eq!(m[1][1], Distance::Finite(0));
}

#[test]
fn chunked_runs_give_the_matrix_of_one_run() {
    let corpus = bytes("mississippi river banks");
    let queries = build_exhaustive(&corpus, 3).contexts;
    let references = vec![(3, 0), (2, 5), (4, 11), (1, 7), (3, 20)];
    let whole = get_ncds(&RunLengthOracle, (&corpus, &queries), (&corpus, &references));
    for capacity in [5usize, 6, 9, 10, 11, 49, 50, 1000, usize::MAX] {
        let chunked =
            get_ncds_chunked(&RunLengthOracle, (&corpus, &queries), (&corpus, &references), capacity);
        assert_eq!(chunked.as_ref(), Ok(&whole), "capacity {}", capacity);
    }
}

#[test]
fn chunked_run_fails_where_no_row_fits() {
    let corpus = bytes("abcdefgh");
    let queries = vec![(2, 0), (2, 1)];
    let references = vec![(1, 0), (1, 1), (1, 2)];
    let r = get_ncds_chunked(&RunLengthOracle, (&corpus, &queries), (&corpus, &references), 2);
    assert_eq!(r, Err(Error::BufferAllocationFailure));
    let none: Vec<(usize, usize)> = vec![];
    let r = get_ncds_chunked(&RunLengthOracle, (&corpus, &none), (&corpus, &references), 2);
    assert_eq!(r, Ok(vec![]));
}

#[test]
fn concatenating_two_row_chunks_by_hand() {
    let corpus = bytes("abracadabra");
    let queries = build_exhaustive(&corpus, 2).contexts;
    let references = vec![(2, 0), (2, 3), (1, 9)];
    let whole = get_ncds(&RunLengthOracle, (&corpus, &queries), (&corpus, &references));
    for split in 0..=queries.len() {
        let head = descriptor_range(&queries, 0, split);
        let tail = descriptor_range(&queries, split, queries.len());
        let mut joined = get_ncds(&RunLengthOracle, (&corpus, &head), (&corpus, &references));
        let mut rest = get_ncds(&RunLengthOracle, (&corpus, &tail), (&corpus, &references));
        joined.append(&mut rest);
        assert_eq!(joined, whole);
    }
}

#[test]
fn reflexive_where_doubling_does_not_lengthen_the_code() {
    let corpus = bytes("aaab");
    let x = vec![(3, 0)];
    let m = get_ncds(&RunLengthOracle, (&corpus, &x), (&corpus, &x));
    assert_eq!(m[0][0], Distance::Finite(0));
    // "ab" doubled has four runs, not two: its distance from itself is one
    let y = vec![(2, 2)];
    let m = get_ncds(&RunLengthOracle, (&corpus, &y), (&corpus, &y));
    assert_eq!(m[0][0], Distance::Finite(ONE));
}

#[test]
fn symmetric_where_both_concatenations_have_one_length() {
    let corpus = bytes("aabbb");
    // "aa" and "bbb": "aabbb" and "bbbaa" both have two runs
    let x = vec![(2, 0)];
    let y = vec![(3, 2)];
    let xy = get_ncds(&RunLengthOracle, (&corpus, &x), (&corpus, &y));
    let yx = get_ncds(&RunLengthOracle, (&corpus, &y), (&corpus, &x));
    assert_eq!(xy[0][0], yx[0][0]);
    assert_eq!(xy[0][0], Distance::Finite(ONE));
}

#[test]
fn bounded_by_zero_and_one_under_the_run_length_oracle() {
    let corpus = bytes("aabcccdabbbbaacd");
    let contexts = build_exhaustive(&corpus, 4).contexts;
    let m = get_ncds(&RunLengthOracle, (&corpus, &contexts), (&corpus, &contexts));
    for row in &m {
        for d in row {
            match d {
                Distance::Finite(v) => assert!(0 <= *v && *v <= ONE),
                Distance::NonFinite => panic!("no number"),
            }
        }
    }
}

#[test]
fn windows_are_checked_against_the_corpus() {
    let corpus = bytes("abcd");
    assert!(has_windows_inside(&(&corpus, &vec![(4, 0), (0, 4), (2, 2)])));
    assert!(!has_windows_inside(&(&corpus, &vec![(1, 0), (2, 3)])));
    assert!(!has_windows_inside(&(&corpus, &vec![(usize::MAX, 2)])));
    assert!(has_windows_inside(&(&corpus, &vec![])));
}

#[test]
fn degenerate_contexts_are_dropped_in_order() {
    let corpus = bytes("abcdef");
    let table = ContextTable {
        contexts: vec![(0, 0), (1, 0), (0, 3), (2, 3), (0, 5)],
        targets: bytes("abdfz"),
    };
    assert!(!table.is_valid_for(&corpus));
    let table = ContextTable {
        contexts: vec![(0, 0), (1, 0), (0, 3), (2, 3), (0, 5)],
        targets: bytes("abdff"),
    };
    assert!(table.is_valid_for(&corpus));
    let kept = drop_degenerate(&RunLengthOracle, &corpus, &table);
    assert_eq!(kept.contexts, vec![(1, 0), (2, 3)]);
    assert_eq!(kept.targets, bytes("bf"));
    let m = get_ncds(&RunLengthOracle, (&corpus, &kept.contexts), (&corpus, &kept.contexts));
    assert!(m.iter().all(|row| row.iter().all(|d| d.is_finite())));
}

#[test]
fn nothing_is_dropped_from_an_exhaustive_table() {
    let corpus = bytes("abababab");
    let table = build_exhaustive(&corpus, 2);
    let kept = drop_degenerate(&RunLengthOracle, &corpus, &table);
    assert_eq!(kept.contexts, table.contexts);
    assert_eq!(kept.targets, table.targets);
}
