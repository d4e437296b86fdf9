//! The spatial index: feature vectors as points of a space with the squared
//! Euclidean distance, and exact nearest-neighbour queries over them,
//! answered from a k-d tree.

use crate::distance::Distance;
use crate::engine::rows_view;
use crate::error::Error;
use crate::tree::{build_tree, nearest_in_tree, Node};
use vstd::prelude::*;

verus! {

/// One answer of a query: an indexed vector, by its position in the build
/// order, and its distance from the query vector.
#[derive(Clone, Copy, Debug, PartialEq, Eq, Structural)]
pub struct Neighbor {
    pub distance: u128,
    pub id: usize,
}

/// The sum of the squared differences of the first `n` coordinates.
pub open spec fn squared_distance_upto(a: Seq<i64>, b: Seq<i64>, n: nat) -> nat
    decreases n,
{
    if n == 0 {
        0
    } else {
        squared_distance_upto(a, b, (n - 1) as nat) + ((a[n - 1] - b[n - 1]) * (a[n - 1] - b[n
            - 1])) as nat
    }
}

/// The squared Euclidean distance of two points of one dimension, held at
/// the largest `u128` where it is larger.
pub open spec fn metric(a: Seq<i64>, b: Seq<i64>) -> u128 {
    let exact = squared_distance_upto(a, b, a.len());
    if exact > u128::MAX {
        u128::MAX
    } else {
        exact as u128
    }
}

/// The order of answers: by distance, and by id among equal distances.
pub open spec fn comes_before(a: Neighbor, b: Neighbor) -> bool {
    a.distance < b.distance || (a.distance == b.distance && a.id < b.id)
}

/// The answer that the point `id` would be.
pub open spec fn neighbor_of(points: Seq<Seq<i64>>, query: Seq<i64>, id: usize) -> Neighbor {
    Neighbor { distance: metric(points[id as int], query), id }
}

/// `id` is among the answers.
pub open spec fn has_id(answers: Seq<Neighbor>, id: usize) -> bool {
    exists|i: int| 0 <= i < answers.len() && (#[trigger] answers[i]).id == id
}

/// `answers` are the `k` nearest of `points` to `query`: as many as there
/// are, at most `k`; each a point with its distance; in strictly ascending
/// order; and every point left out comes after all of them, which happens
/// only where `k` answers are given.
pub open spec fn is_k_nearest(
    points: Seq<Seq<i64>>,
    query: Seq<i64>,
    k: nat,
    answers: Seq<Neighbor>,
) -> bool {
    &&& answers.len() == if k <= points.len() {
        k
    } else {
        points.len()
    }
    &&& forall|i: int|
        0 <= i < answers.len() ==> (#[trigger] answers[i]).id < points.len() && answers[i]
            == neighbor_of(points, query, answers[i].id)
    &&& forall|i: int, j: int|
        0 <= i < j < answers.len() ==> comes_before(#[trigger] answers[i], #[trigger] answers[j])
    &&& forall|id: usize|
        id < points.len() && !has_id(answers, id) ==> answers.len() == k && forall|i: int|
            0 <= i < answers.len() ==> comes_before(
                #[trigger] answers[i],
                neighbor_of(points, query, id),
            )
}

/// The squared Euclidean distance of `a` and `b`, held at the largest
/// `u128` where it is larger.
pub fn squared_euclidean(a: &Vec<i64>, b: &Vec<i64>) -> (r: u128)
    requires
        a.len() == b.len(),
    ensures
        r == metric(a@, b@),
{
    let mut sum: u128 = 0;
    let mut i: usize = 0;
    while i < a.len()
        invariant
            a.len() == b.len(),
            i <= a.len(),
            sum == if squared_distance_upto(a@, b@, i as nat) > u128::MAX {
                u128::MAX
            } else {
                squared_distance_upto(a@, b@, i as nat) as u128
            },
        decreases a.len() - i,
    {
        let difference: i128 = a[i] as i128 - b[i] as i128;
        let magnitude: u128 = if difference < 0 {
            (-difference) as u128
        } else {
            difference as u128
        };
        assert(magnitude * magnitude <= u128::MAX && magnitude * magnitude == difference
            * difference) by (nonlinear_arith)
            requires
                magnitude <= 0xffff_ffff_ffff_ffff,
                magnitude == difference || magnitude == -difference,
        ;
        sum = sum.saturating_add(magnitude * magnitude);
        i += 1;
    }
    sum
}

/// Every entry of `v` is a number.
pub open spec fn all_finite(v: Seq<Distance>) -> bool {
    forall|j: int| 0 <= j < v.len() ==> #[trigger] v[j] is Finite
}

/// The numbers that `v` holds; zero stands in for an entry that is none.
pub open spec fn finite_values(v: Seq<Distance>) -> Seq<i64> {
    Seq::new(
        v.len(),
        |j: int|
            match v[j] {
                Distance::Finite(x) => x,
                Distance::NonFinite => 0,
            },
    )
}

/// Some vector has another dimension than the first one.
pub open spec fn is_ragged(vectors: Seq<Seq<Distance>>) -> bool {
    exists|i: int| 0 <= i < vectors.len() && (#[trigger] vectors[i]).len() != vectors[0].len()
}

/// Why no index is built over `vectors`, if none is.
pub open spec fn build_failure(vectors: Seq<Seq<Distance>>) -> Option<Error> {
    if is_ragged(vectors) {
        Some(Error::RaggedDimensions)
    } else if exists|i: int| 0 <= i < vectors.len() && !all_finite(#[trigger] vectors[i]) {
        Some(Error::NonFiniteDistance)
    } else {
        None
    }
}

/// The coordinates of a vector, where all of them are numbers.
fn finite_row(v: &Vec<Distance>) -> (r: Option<Vec<i64>>)
    ensures
        r is Some <==> all_finite(v@),
        r matches Some(row) ==> row@ == finite_values(v@),
{
    let mut row: Vec<i64> = Vec::new();
    let mut j: usize = 0;
    while j < v.len()
        invariant
            j <= v.len(),
            row.len() == j,
            forall|k: int| 0 <= k < j ==> #[trigger] v[k] is Finite,
            forall|k: int| 0 <= k < j ==> #[trigger] row[k] == finite_values(v@)[k],
        decreases v.len() - j,
    {
        match v[j] {
            Distance::Finite(x) => {
                row.push(x);
            },
            Distance::NonFinite => {
                assert(!(v@[j as int] is Finite));
                return None;
            },
        }
        j += 1;
    }
    assert(row@ =~= finite_values(v@));
    Some(row)
}

/// Points held as vectors, as sequences of coordinates.
pub open spec fn coordinates(points: Seq<Vec<i64>>) -> Seq<Seq<i64>> {
    Seq::new(points.len(), |i: int| points[i]@)
}

/// A fixed collection of points of one dimension. The id of a point is its
/// position in the order in which the index was built.
#[derive(Debug)]
pub struct SpatialIndex {
    points: Vec<Vec<i64>>,
    dimension: usize,
    root: Node,
}

impl SpatialIndex {
    #[verifier::type_invariant]
    spec fn well_formed(&self) -> bool {
        &&& forall|i: int|
            0 <= i < self.points.len() ==> (#[trigger] self.points[i]).len() == self.dimension
        &&& self.root.covers(coordinates(self.points@), self.dimension as nat)
    }

    /// The indexed points, in build order.
    pub closed spec fn points(&self) -> Seq<Seq<i64>> {
        coordinates(self.points@)
    }

    /// The dimension of every indexed point.
    pub closed spec fn dimension(&self) -> nat {
        self.dimension as nat
    }

    /// The number of indexed points.
    pub fn len(&self) -> (r: usize)
        ensures
            r == self.points().len(),
    {
        self.points.len()
    }

    /// The dimension of every indexed point.
    pub fn dims(&self) -> (r: usize)
        ensures
            r == self.dimension(),
    {
        self.dimension
    }

    /// Builds the index over `vectors`; vector `i` becomes the point with id
    /// `i`. The dimension is that of the first vector, and zero where there
    /// is none. Vectors of different dimensions are refused, and so is a
    /// vector with an entry that is no number.
    pub fn build(vectors: &Vec<Vec<Distance>>) -> (r: Result<SpatialIndex, Error>)
        ensures
            match r {
                Err(e) => build_failure(rows_view(vectors@)) == Some(e),
                Ok(index) => {
                    &&& build_failure(rows_view(vectors@)) is None
                    &&& index.points().len() == vectors.len()
                    &&& index.dimension() == if vectors.len() == 0 {
                        0
                    } else {
                        vectors[0].len()
                    }
                    &&& forall|i: int|
                        0 <= i < vectors.len() ==> #[trigger] index.points()[i] == finite_values(
                            vectors[i]@,
                        )
                },
            },
    {
        let ghost rows = rows_view(vectors@);
        let dimension: usize = if vectors.len() == 0 {
            0
        } else {
            vectors[0].len()
        };
        let mut i: usize = 0;
        while i < vectors.len()
            invariant
                i <= vectors.len(),
                rows == rows_view(vectors@),
                vectors.len() > 0 ==> dimension == vectors[0].len(),
                forall|k: int| 0 <= k < i ==> (#[trigger] rows[k]).len() == dimension,
            decreases vectors.len() - i,
        {
            if vectors[i].len() != dimension {
                assert(rows[i as int].len() != rows[0].len());
                return Err(Error::RaggedDimensions);
            }
            i += 1;
        }
        assert(!is_ragged(rows));
        let mut points: Vec<Vec<i64>> = Vec::new();
        let mut i: usize = 0;
        while i < vectors.len()
            invariant
                i <= vectors.len(),
                rows == rows_view(vectors@),
                !is_ragged(rows),
                vectors.len() > 0 ==> dimension == vectors[0].len(),
                forall|k: int| 0 <= k < vectors.len() ==> (#[trigger] rows[k]).len() == dimension,
                points.len() == i,
                forall|k: int| 0 <= k < i ==> all_finite(#[trigger] rows[k]),
                forall|k: int| 0 <= k < i ==> (#[trigger] points[k])@ == finite_values(vectors[k]@),
            decreases vectors.len() - i,
        {
            match finite_row(&vectors[i]) {
                Some(row) => {
                    assert(rows[i as int] == vectors[i as int]@);
                    points.push(row);
                },
                None => {
                    assert(!all_finite(rows[i as int]));
                    return Err(Error::NonFiniteDistance);
                },
            }
            i += 1;
        }
        proof {
            assert forall|k: int| 0 <= k < points.len() implies (#[trigger] points[k]).len()
                == dimension by {
                assert(rows[k].len() == dimension);
                assert(points[k]@ == finite_values(vectors[k]@));
            }
        }
        let root = build_tree(&points, dimension);
        Ok(SpatialIndex { points, dimension, root })
    }

    /// The `k` nearest indexed points to `vector`, nearest first: as many as
    /// the index holds, at most `k`; no point twice; a point of smaller
    /// distance before one of larger, and of two at one distance the one
    /// with the smaller id first. A vector of another dimension than the
    /// index is refused, and so is one with an entry that is no number.
    pub fn query(&self, vector: &Vec<Distance>, k: usize) -> (r: Result<Vec<Neighbor>, Error>)
        ensures
            match r {
                Err(e) => e == query_failure(self.dimension(), vector@)->0,
                Ok(answers) => is_k_nearest(
                    self.points(),
                    finite_values(vector@),
                    k as nat,
                    answers@,
                ),
            },
            r is Err <==> query_failure(self.dimension(), vector@) is Some,
    {
        if vector.len() != self.dimension {
            return Err(Error::WrongDimension);
        }
        proof {
            use_type_invariant(self);
        }
        match finite_row(vector) {
            Some(point) => Ok(nearest_in_tree(&self.root, &self.points, &point, k)),
            None => Err(Error::NonFiniteDistance),
        }
    }
}

/// Why a query with `vector` is not answered by an index of dimension
/// `dimension`, if it is not.
pub open spec fn query_failure(dimension: nat, vector: Seq<Distance>) -> Option<Error> {
    if vector.len() != dimension {
        Some(Error::WrongDimension)
    } else if !all_finite(vector) {
        Some(Error::NonFiniteDistance)
    } else {
        None
    }
}

/// The answers of a query have non-decreasing distances, hold no point
/// twice, and hold two points at one distance with the smaller id first.
pub proof fn lemma_answers_ordered(
    points: Seq<Seq<i64>>,
    query: Seq<i64>,
    k: nat,
    answers: Seq<Neighbor>,
)
    requires
        is_k_nearest(points, query, k, answers),
    ensures
        answers.len() <= k,
        answers.len() <= points.len(),
        answers.len() == k || answers.len() == points.len(),
        forall|i: int, j: int|
            0 <= i < j < answers.len() ==> (#[trigger] answers[i]).distance <= (
            #[trigger] answers[j]).distance,
        forall|i: int, j: int|
            0 <= i < j < answers.len() ==> (#[trigger] answers[i]).id != (#[trigger] answers[j]).id,
        forall|i: int, j: int|
            0 <= i < j < answers.len() && (#[trigger] answers[i]).distance == (
            #[trigger] answers[j]).distance ==> answers[i].id < answers[j].id,
{
    assert forall|i: int, j: int| 0 <= i < j < answers.len() implies (
    #[trigger] answers[i]).distance <= (#[trigger] answers[j]).distance && answers[i].id
        != answers[j].id && (answers[i].distance == answers[j].distance ==> answers[i].id
        < answers[j].id) by {
        assert(comes_before(answers[i], answers[j]));
        assert(answers[i] == neighbor_of(points, query, answers[i].id));
        assert(answers[j] == neighbor_of(points, query, answers[j].id));
    }
}

/// A query has one answer: two lists that are both the `k` nearest are the
/// same list.
pub proof fn lemma_k_nearest_unique(
    points: Seq<Seq<i64>>,
    query: Seq<i64>,
    k: nat,
    first: Seq<Neighbor>,
    second: Seq<Neighbor>,
)
    requires
        is_k_nearest(points, query, k, first),
        is_k_nearest(points, query, k, second),
    ensures
        first == second,
{
    assert forall|i: int| 0 <= i < first.len() implies first[i] == second[i] by {
        lemma_same_up_to(points, query, k, first, second, i);
    }
    assert(first =~= second);
}

/// Two lists that are both the `k` nearest agree up to position `i`.
proof fn lemma_same_up_to(
    points: Seq<Seq<i64>>,
    query: Seq<i64>,
    k: nat,
    first: Seq<Neighbor>,
    second: Seq<Neighbor>,
    i: int,
)
    requires
        is_k_nearest(points, query, k, first),
        is_k_nearest(points, query, k, second),
        0 <= i < first.len(),
    ensures
        forall|j: int| 0 <= j <= i ==> first[j] == second[j],
    decreases i,
{
    if i > 0 {
        lemma_same_up_to(points, query, k, first, second, i - 1);
    }
    let a = first[i];
    let b = second[i];
    assert(a == neighbor_of(points, query, a.id));
    assert(b == neighbor_of(points, query, b.id));
    if a != b {
        if comes_before(a, b) {
            lemma_not_later(points, query, k, first, second, i);
        } else {
            assert(comes_before(b, a));
            lemma_not_later(points, query, k, second, first, i);
        }
    }
}

/// Where two lists that are both the `k` nearest agree before position `i`,
/// the entry of the one at `i` does not come before that of the other.
proof fn lemma_not_later(
    points: Seq<Seq<i64>>,
    query: Seq<i64>,
    k: nat,
    first: Seq<Neighbor>,
    second: Seq<Neighbor>,
    i: int,
)
    requires
        is_k_nearest(points, query, k, first),
        is_k_nearest(points, query, k, second),
        0 <= i < first.len(),
        forall|j: int| 0 <= j < i ==> first[j] == second[j],
    ensures
        !comes_before(first[i], second[i]),
{
    let a = first[i];
    assert(a == neighbor_of(points, query, a.id));
    if !comes_before(first[i], second[i]) {
    } else if has_id(second, a.id) {
        let w = choose|w: int| 0 <= w < second.len() && (#[trigger] second[w]).id == a.id;
        assert(second[w] == neighbor_of(points, query, second[w].id));
        assert(second[w] == a);
        if w < i {
            assert(first[w] == a);
            assert(comes_before(first[w], first[i]));
        } else if w > i {
            assert(comes_before(second[i], second[w]));
        }
    } else {
        assert(comes_before(second[i], neighbor_of(points, query, a.id)));
    }
}

} // verus!
