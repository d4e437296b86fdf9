use ncd_predict::distance::Distance;
use ncd_predict::error::Error;
use ncd_predict::index::{squared_euclidean, Neighbor, SpatialIndex};

fn row(values: &[i64]) -> Vec<Distance> {
    values.iter().map(|v| Distance::Finite(*v)).collect()
}

fn ids(answers: &[Neighbor]) -> Vec<usize> {
    answers.iter().map(|a| a.id).collect()
}

#[test]
fn squared_distance_of_points() {
    assert_eq!(squared_euclidean(&vec![], &vec![]), 0);
    assert_eq!(squared_euclidean(&vec![0, 0], &vec![3, 4]), 25);
    assert_eq!(squared_euclidean(&vec![-2, 7], &vec![1, 7]), 9);
    assert_eq!(squared_euclidean(&vec![5], &vec![5]), 0);
}

#[test]
fn squared_distance_is_held_at_the_largest_value() {
    let far = squared_euclidean(&vec![i64::MIN], &vec![i64::MAX]);
    assert_eq!(far, (u64::MAX as u128) * (u64::MAX as u128));
    assert_eq!(squared_euclidean(&vec![i64::MIN, i64::MIN], &vec![i64::MAX, i64::MAX]), u128::MAX);
}

#[test]
fn build_takes_the_dimension_of_the_first_vector() {
    let index = SpatialIndex::build(&vec![row(&[1, 2, 3]), row(&[4, 5, 6])]).ok().unwrap();
    assert_eq!(index.len(), 2);
    assert_eq!(index.dims(), 3);
    let empty = SpatialIndex::build(&vec![]).ok().unwrap();
    assert_eq!(empty.len(), 0);
    assert_eq!(empty.dims(), 0);
}

#[test]
fn build_refuses_ragged_vectors() {
    let r = SpatialIndex::build(&vec![row(&[1, 2]), row(&[1, 2, 3])]);
    assert_eq!(r.err(), Some(Error::RaggedDimensions));
    let r = SpatialIndex::build(&vec![row(&[1, 2]), vec![Distance::NonFinite]]);
    assert_eq!(r.err(), Some(Error::RaggedDimensions));
}

#[test]
fn build_refuses_what_is_no_number() {
    let r = SpatialIndex::build(&vec![row(&[1, 2]), vec![Distance::Finite(0), Distance::NonFinite]]);
    assert_eq!(r.err(), Some(Error::NonFiniteDistance));
}

#[test]
fn query_returns_the_nearest_first() {
    let index =
        SpatialIndex::build(&vec![row(&[10, 0]), row(&[0, 0]), row(&[3, 4]), row(&[-1, 0])]).ok().unwrap();
    let answers = index.query(&row(&[0, 0]), 3).unwrap();
    assert_eq!(
        answers,
        vec![
            Neighbor { distance: 0, id: 1 },
            Neighbor { distance: 1, id: 3 },
            Neighbor { distance: 25, id: 2 },
        ]
    );
}

#[test]
fn query_returns_as_many_as_there_are() {
    let index = SpatialIndex::build(&vec![row(&[5]), row(&[1]), row(&[3])]).ok().unwrap();
    assert_eq!(ids(&index.query(&row(&[0]), 0).unwrap()), Vec::<usize>::new());
    assert_eq!(ids(&index.query(&row(&[0]), 1).unwrap()), vec![1]);
    assert_eq!(ids(&index.query(&row(&[0]), 2).unwrap()), vec![1, 2]);
    assert_eq!(ids(&index.query(&row(&[0]), 3).unwrap()), vec![1, 2, 0]);
    assert_eq!(ids(&index.query(&row(&[0]), 7).unwrap()), vec![1, 2, 0]);
    assert_eq!(ids(&index.query(&row(&[0]), usize::MAX).unwrap()), vec![1, 2, 0]);
}

#[test]
fn query_breaks_ties_by_ascending_id() {
    let index = SpatialIndex::build(&vec![
        row(&[2, 0]),
        row(&[0, 2]),
        row(&[1, 0]),
        row(&[-2, 0]),
        row(&[0, -1]),
        row(&[0, -2]),
    ])
    .ok()
    .unwrap();
    let answers = index.query(&row(&[0, 0]), 4).unwrap();
    assert_eq!(ids(&answers), vec![2, 4, 0, 1]);
    let all = index.query(&row(&[0, 0]), 6).unwrap();
    assert_eq!(ids(&all), vec![2, 4, 0, 1, 3, 5]);
    for pair in all.windows(2) {
        assert!(pair[0].distance <= pair[1].distance);
        assert!(pair[0].id != pair[1].id);
    }
}

#[test]
fn query_holds_no_point_twice() {
    let vectors: Vec<Vec<Distance>> = (0..20).map(|i| row(&[(i * 7) % 5, (i * 3) % 4])).collect();
    let index = SpatialIndex::build(&vectors).ok().unwrap();
    let answers = index.query(&row(&[2, 2]), 20).unwrap();
    let mut seen = ids(&answers);
    seen.sort();
    assert_eq!(seen, (0..20).collect::<Vec<usize>>());
    for pair in answers.windows(2) {
        assert!(
            pair[0].distance < pair[1].distance
                || (pair[0].distance == pair[1].distance && pair[0].id < pair[1].id)
        );
    }
}

#[test]
fn query_refuses_another_dimension() {
    let index = SpatialIndex::build(&vec![row(&[1, 2])]).ok().unwrap();
    assert_eq!(index.query(&row(&[1]), 1), Err(Error::WrongDimension));
    assert_eq!(index.query(&row(&[1, 2, 3]), 1), Err(Error::WrongDimension));
    assert_eq!(index.query(&vec![Distance::NonFinite], 1), Err(Error::WrongDimension));
}

#[test]
fn query_refuses_what_is_no_number() {
    let index = SpatialIndex::build(&vec![row(&[1, 2])]).ok().unwrap();
    let r = index.query(&vec![Distance::Finite(1), Distance::NonFinite], 1);
    assert_eq!(r, Err(Error::NonFiniteDistance));
}

#[test]
fn query_of_an_empty_index_is_empty() {
    let index = SpatialIndex::build(&vec![]).ok().unwrap();
    assert_eq!(index.query(&vec![], 3), Ok(vec![]));
}

#[test]
fn repeated_queries_give_one_answer() {
    let vectors: Vec<Vec<Distance>> = (0..30).map(|i| row(&[(i * 11) % 7, (i * 5) % 3, i % 2])).collect();
    let index = SpatialIndex::build(&vectors).ok().unwrap();
    let first = index.query(&row(&[3, 1, 1]), 9).unwrap();
    let second = index.query(&row(&[3, 1, 1]), 9).unwrap();
    assert_eq!(first, second);
    assert_eq!(first.len(), 9);
}

#[test]
fn nearest_points_agree_with_a_kd_tree_where_no_distances_tie() {
    let coordinates: Vec<[i64; 2]> =
        vec![[0, 0], [10, 1], [3, 7], [-4, 2], [8, -9], [1, 1], [-6, -6], [5, 5], [12, 0]];
    let vectors: Vec<Vec<Distance>> = coordinates.iter().map(|c| row(c)).collect();
    let index = SpatialIndex::build(&vectors).ok().unwrap();
    let mut tree = kdtree::KdTree::new(2);
    for (i, c) in coordinates.iter().enumerate() {
        tree.add([c[0] as f64, c[1] as f64], i).unwrap();
    }
    let answers = index.query(&row(&[2, 3]), 5).unwrap();
    let expected = tree.nearest(&[2.0, 3.0], 5, &kdtree::distance::squared_euclidean).unwrap();
    assert_eq!(answers.len(), expected.len());
    for (mine, theirs) in answers.iter().zip(expected.iter()) {
        assert_eq!(mine.id, *theirs.1);
        assert_eq!(mine.distance as f64, theirs.0);
    }
}

fn scattered(count: usize, dimension: usize, spread: i64) -> Vec<Vec<i64>> {
    let mut state: u64 = 0x9E37_79B9_7F4A_7C15;
    let mut points = Vec::new();
    for _ in 0..count {
        let mut point = Vec::new();
        for _ in 0..dimension {
            state = state.wrapping_mul(6364136223846793005).wrapping_add(1442695040888963407);
            point.push(((state >> 33) as i64) % spread - spread / 2);
        }
        points.push(point);
    }
    points
}

fn by_full_scan(points: &[Vec<i64>], query: &[i64], k: usize) -> Vec<Neighbor> {
    let mut all: Vec<Neighbor> = points
        .iter()
        .enumerate()
        .map(|(id, p)| Neighbor {
            distance: p
                .iter()
                .zip(query.iter())
                .map(|(a, b)| ((*a as i128 - *b as i128) * (*a as i128 - *b as i128)) as u128)
                .sum(),
            id,
        })
        .collect();
    all.sort_by_key(|n| (n.distance, n.id));
    all.truncate(k);
    all
}

#[test]
fn tree_answers_as_a_full_scan_does() {
    for (count, dimension, spread) in
        [(200usize, 2usize, 1000i64), (500, 3, 50), (300, 8, 7), (100, 1, 5), (64, 20, 3)]
    {
        let points = scattered(count, dimension, spread);
        let vectors: Vec<Vec<Distance>> = points.iter().map(|p| row(p)).collect();
        let index = SpatialIndex::build(&vectors).ok().unwrap();
        assert_eq!(index.len(), count);
        let queries = scattered(25, dimension, spread + 4);
        for query in &queries {
            for k in [0usize, 1, 7, 16, 17, count, count + 3] {
                let answers = index.query(&row(query), k).unwrap();
                assert_eq!(answers, by_full_scan(&points, query, k));
            }
        }
    }
}

#[test]
fn tree_over_many_equal_points() {
    let mut points: Vec<Vec<i64>> = vec![vec![4, 4]; 40];
    points.push(vec![4, 5]);
    points.push(vec![3, 4]);
    let vectors: Vec<Vec<Distance>> = points.iter().map(|p| row(p)).collect();
    let index = SpatialIndex::build(&vectors).ok().unwrap();
    let answers = index.query(&row(&[4, 4]), 42).unwrap();
    assert_eq!(answers, by_full_scan(&points, &[4, 4], 42));
    assert_eq!(ids(&answers)[..40], (0..40).collect::<Vec<usize>>()[..]);
    let few = index.query(&row(&[3, 5]), 3).unwrap();
    assert_eq!(ids(&few), vec![40, 41, 0]);
}

#[test]
fn tree_over_points_at_the_ends_of_the_range() {
    let mut points: Vec<Vec<i64>> = Vec::new();
    for i in 0..20i64 {
        points.push(vec![i64::MIN + i, i64::MAX - i]);
        points.push(vec![i64::MAX - i, i64::MIN + i]);
    }
    let vectors: Vec<Vec<Distance>> = points.iter().map(|p| row(p)).collect();
    let index = SpatialIndex::build(&vectors).ok().unwrap();
    let answers = index.query(&row(&[i64::MIN, i64::MAX]), 5).unwrap();
    assert_eq!(ids(&answers), vec![0, 2, 4, 6, 8]);
    assert_eq!(answers[0].distance, 0);
    assert_eq!(answers[1].distance, 2);
    let far = index.query(&row(&[i64::MAX, i64::MIN]), 40).unwrap();
    assert_eq!(far.len(), 40);
    assert_eq!(far[39].distance, u128::MAX);
}

#[test]
fn tree_over_points_without_coordinates() {
    let vectors: Vec<Vec<Distance>> = vec![vec![]; 30];
    let index = SpatialIndex::build(&vectors).ok().unwrap();
    assert_eq!(index.dims(), 0);
    let answers = index.query(&vec![], 4).unwrap();
    assert_eq!(ids(&answers), vec![0, 1, 2, 3]);
    assert!(answers.iter().all(|a| a.distance == 0));
}

#[test]
fn tree_over_feature_vectors_answers_as_a_full_scan_does() {
    let corpus: Vec<u8> =
        b"it was the best of times, it was the worst of times, it was the age of wisdom".to_vec();
    let table = ncd_predict::context::build_exhaustive(&corpus, 3);
    let matrix = ncd_predict::engine::get_ncds(
        &ncd_predict::oracle::RunLengthOracle,
        (&corpus, &table.contexts),
        (&corpus, &table.contexts),
    );
    let points: Vec<Vec<i64>> = matrix
        .iter()
        .map(|r| {
            r.iter()
                .map(|d| match d {
                    Distance::Finite(v) => *v,
                    Distance::NonFinite => panic!("no number"),
                })
                .collect()
        })
        .collect();
    let index = SpatialIndex::build(&matrix).ok().unwrap();
    assert_eq!(index.len(), table.len());
    assert_eq!(index.dims(), table.len());
    for (i, vector) in matrix.iter().enumerate() {
        let answers = index.query(vector, 7).unwrap();
        assert_eq!(answers, by_full_scan(&points, &points[i], 7));
        assert_eq!(answers[0].distance, 0);
    }
}
