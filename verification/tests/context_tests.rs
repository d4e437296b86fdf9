use ncd_predict::context::{build_exhaustive, build_sampled, get_data, ContextTable};

fn bytes(s: &str) -> Vec<u8> {
    s.bytes().collect()
}

#[test]
fn get_data_lists_every_full_window() {
    let data = bytes("abcdef");
    let (x, y) = get_data(&data, 2);
    assert_eq!(x, vec![(2, 0), (2, 1), (2, 2), (2, 3)]);
    assert_eq!(y.len(), 4);
    assert_eq!(y[0], b"bc");
    assert_eq!(y[1], b"cd");
    assert_eq!(y[2], b"de");
    assert_eq!(y[3], b"ef");
}

#[test]
fn get_data_with_window_as_long_as_the_corpus_is_empty() {
    let data = bytes("abc");
    let (x, y) = get_data(&data, 3);
    assert!(x.is_empty());
    assert!(y.is_empty());
}

#[test]
fn get_data_with_zero_length_windows() {
    let data = bytes("ab");
    let (x, y) = get_data(&data, 0);
    assert_eq!(x, vec![(0, 0), (0, 1)]);
    assert_eq!(y.len(), 2);
    assert!(y[0].is_empty());
    assert!(y[1].is_empty());
}

#[test]
fn exhaustive_table_of_a_periodic_corpus() {
    let data = bytes("abababab");
    let table = build_exhaustive(&data, 2);
    assert_eq!(
        table.contexts,
        vec![
            (1, 0),
            (2, 0),
            (1, 1),
            (2, 1),
            (1, 2),
            (2, 2),
            (1, 3),
            (2, 3),
            (1, 4),
            (2, 4),
            (1, 5),
            (2, 5)
        ]
    );
    assert_eq!(table.targets, bytes("baabbaabbaab"));
    assert_eq!(table.len(), 12);
    assert!(table.is_valid_for(&data));
}

#[test]
fn exhaustive_table_holds_n_examples_for_each_position() {
    let data = bytes("hello world");
    let table = build_exhaustive(&data, 3);
    assert_eq!(table.len(), (11 - 3) * 3);
    for k in 0..table.len() {
        let position = k / 3;
        let prefix = k % 3 + 1;
        assert_eq!(table.contexts[k], (prefix, position));
        assert_eq!(table.targets[k], data[position + prefix]);
    }
}

#[test]
fn exhaustive_table_without_room_is_empty() {
    let data = bytes("abc");
    assert_eq!(build_exhaustive(&data, 3).len(), 0);
    assert_eq!(build_exhaustive(&data, 0).len(), 0);
}

#[test]
fn sampled_table_follows_the_offsets() {
    let data = bytes("abcdefgh");
    let table = build_sampled(&data, 3, &vec![4, 0, 4, 2]).unwrap();
    assert_eq!(table.contexts, vec![(3, 4), (3, 0), (3, 4), (3, 2)]);
    assert_eq!(table.targets, bytes("hdhf"));
    assert!(table.is_valid_for(&data));
}

#[test]
fn sampled_table_refuses_an_offset_without_target() {
    let data = bytes("abcdefgh");
    assert!(build_sampled(&data, 3, &vec![0, 5]).is_none());
    assert!(build_sampled(&data, 8, &vec![0]).is_none());
    assert!(build_sampled(&data, 9, &vec![0]).is_none());
    assert!(build_sampled(&data, 3, &vec![usize::MAX]).is_none());
    assert!(build_sampled(&data, 3, &vec![]).is_some());
}

#[test]
fn table_validity_is_checked_against_the_corpus() {
    let data = bytes("abcd");
    let good = ContextTable { contexts: vec![(2, 1)], targets: vec![b'd'] };
    assert!(good.is_valid_for(&data));
    let wrong_target = ContextTable { contexts: vec![(2, 1)], targets: vec![b'a'] };
    assert!(!wrong_target.is_valid_for(&data));
    let outside = ContextTable { contexts: vec![(2, 2)], targets: vec![b'd'] };
    assert!(!outside.is_valid_for(&data));
    let uneven = ContextTable { contexts: vec![(2, 1)], targets: vec![] };
    assert!(!uneven.is_valid_for(&data));
    let huge = ContextTable { contexts: vec![(usize::MAX, usize::MAX)], targets: vec![b'd'] };
    assert!(!huge.is_valid_for(&data));
}
