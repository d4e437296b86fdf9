//! The tree under the spatial index: a k-d tree that splits a set of points
//! at the middle of its extent along one axis, and a search that leaves out
//! the half that cannot hold a nearer point.

use crate::index::{
    comes_before, coordinates, has_id, is_k_nearest, neighbor_of, squared_distance_upto,
    squared_euclidean, Neighbor,
};
use vstd::prelude::*;
use vstd::set_lib::{lemma_int_range, lemma_len_subset, set_int_range};

verus! {

/// The largest number of points that is not split further.
pub const LEAF_CAPACITY: usize = 16;

/// A node of the tree: a handful of points, or a split of the points along
/// one axis into those at or below a pivot and those above it.
#[derive(Debug)]
pub enum Node {
    Leaf { ids: Vec<usize> },
    Split { axis: usize, pivot: i64, below: Box<Node>, above: Box<Node> },
}

/// `id` is one of `ids`.
pub open spec fn listed(ids: Seq<usize>, id: int) -> bool {
    exists|i: int| 0 <= i < ids.len() && #[trigger] ids[i] == id
}

impl Node {
    /// The point `id` lies in this subtree.
    pub open spec fn holds(self, id: int) -> bool
        decreases self,
    {
        match self {
            Node::Leaf { ids } => listed(ids@, id),
            Node::Split { below, above, .. } => below.holds(id) || above.holds(id),
        }
    }

    /// The subtree holds points of `points` only, and every split parts its
    /// points as it says.
    pub open spec fn wf(self, points: Seq<Seq<i64>>, dimension: nat) -> bool
        decreases self,
    {
        match self {
            Node::Leaf { ids } => forall|i: int| 0 <= i < ids.len() ==> #[trigger] ids[i] < points.len(),
            Node::Split { axis, pivot, below, above } => {
                &&& axis < dimension
                &&& below.wf(points, dimension)
                &&& above.wf(points, dimension)
                &&& forall|id: int| #[trigger] below.holds(id) ==> points[id][axis as int] <= pivot
                &&& forall|id: int| #[trigger] above.holds(id) ==> points[id][axis as int] > pivot
            },
        }
    }

    /// The tree holds exactly the points of `points`.
    pub open spec fn covers(self, points: Seq<Seq<i64>>, dimension: nat) -> bool {
        &&& self.wf(points, dimension)
        &&& forall|id: int| 0 <= id < points.len() ==> self.holds(id)
    }
}

/// A subtree holds ids of points only.
pub proof fn lemma_holds_in_range(node: Node, points: Seq<Seq<i64>>, dimension: nat, id: int)
    requires
        node.wf(points, dimension),
        node.holds(id),
    ensures
        0 <= id < points.len(),
    decreases node,
{
    match node {
        Node::Leaf { ids } => {},
        Node::Split { axis, pivot, below, above } => {
            if below.holds(id) {
                lemma_holds_in_range(*below, points, dimension, id);
            } else {
                lemma_holds_in_range(*above, points, dimension, id);
            }
        },
    }
}

/// The smallest and the largest coordinate of the points `ids` along `axis`.
fn extent(points: &Vec<Vec<i64>>, ids: &Vec<usize>, axis: usize) -> (r: (i64, i64))
    requires
        ids.len() > 0,
        forall|i: int| 0 <= i < ids.len() ==> #[trigger] ids[i] < points.len(),
        forall|n: int| 0 <= n < points.len() ==> axis < (#[trigger] points[n]).len(),
    ensures
        forall|i: int| 0 <= i < ids.len() ==> r.0 <= points[(#[trigger] ids[i]) as int][axis as int] <= r.1,
        exists|i: int| 0 <= i < ids.len() && points[(#[trigger] ids[i]) as int][axis as int] == r.0,
        exists|i: int| 0 <= i < ids.len() && points[(#[trigger] ids[i]) as int][axis as int] == r.1,
{
    let first = points[ids[0]][axis];
    let mut lo: i64 = first;
    let mut hi: i64 = first;
    let ghost mut at_lo: int = 0;
    let ghost mut at_hi: int = 0;
    let mut i: usize = 1;
    while i < ids.len()
        invariant
            forall|i: int| 0 <= i < ids.len() ==> #[trigger] ids[i] < points.len(),
            forall|n: int| 0 <= n < points.len() ==> axis < (#[trigger] points[n]).len(),
            1 <= i <= ids.len(),
            forall|j: int| 0 <= j < i ==> lo <= points[(#[trigger] ids[j]) as int][axis as int] <= hi,
            0 <= at_lo < i,
            0 <= at_hi < i,
            points[ids[at_lo] as int][axis as int] == lo,
            points[ids[at_hi] as int][axis as int] == hi,
        decreases ids.len() - i,
    {
        let c = points[ids[i]][axis];
        if c < lo {
            lo = c;
            proof {
                at_lo = i as int;
            }
        }
        if c > hi {
            hi = c;
            proof {
                at_hi = i as int;
            }
        }
        i += 1;
    }
    (lo, hi)
}

/// Parts the points `ids` into those at or below `pivot` along `axis` and
/// those above it, each part in the order of `ids`.
fn partition(points: &Vec<Vec<i64>>, ids: &Vec<usize>, axis: usize, pivot: i64) -> (r: (
    Vec<usize>,
    Vec<usize>,
))
    requires
        forall|i: int| 0 <= i < ids.len() ==> #[trigger] ids[i] < points.len(),
        forall|n: int| 0 <= n < points.len() ==> axis < (#[trigger] points[n]).len(),
    ensures
        r.0.len() + r.1.len() == ids.len(),
        forall|i: int| 0 <= i < r.0.len() ==> #[trigger] r.0[i] < points.len(),
        forall|i: int| 0 <= i < r.1.len() ==> #[trigger] r.1[i] < points.len(),
        forall|i: int| 0 <= i < r.0.len() ==> points[(#[trigger] r.0[i]) as int][axis as int] <= pivot,
        forall|i: int| 0 <= i < r.1.len() ==> points[(#[trigger] r.1[i]) as int][axis as int] > pivot,
        forall|id: int| listed(ids@, id) <==> listed(r.0@, id) || listed(r.1@, id),
{
    let mut below: Vec<usize> = Vec::new();
    let mut above: Vec<usize> = Vec::new();
    let mut i: usize = 0;
    while i < ids.len()
        invariant
            forall|i: int| 0 <= i < ids.len() ==> #[trigger] ids[i] < points.len(),
            forall|n: int| 0 <= n < points.len() ==> axis < (#[trigger] points[n]).len(),
            i <= ids.len(),
            below.len() + above.len() == i,
            forall|j: int| 0 <= j < below.len() ==> #[trigger] below[j] < points.len(),
            forall|j: int| 0 <= j < above.len() ==> #[trigger] above[j] < points.len(),
            forall|j: int|
                0 <= j < below.len() ==> points[(#[trigger] below[j]) as int][axis as int] <= pivot,
            forall|j: int|
                0 <= j < above.len() ==> points[(#[trigger] above[j]) as int][axis as int] > pivot,
            forall|id: int|
                listed(ids@.take(i as int), id) <==> listed(below@, id) || listed(above@, id),
        decreases ids.len() - i,
    {
        let id = ids[i];
        let ghost old_below = below@;
        let ghost old_above = above@;
        let ghost before = ids@.take(i as int);
        let ghost after = ids@.take(i + 1);
        if points[id][axis] <= pivot {
            below.push(id);
        } else {
            above.push(id);
        }
        proof {
            assert forall|x: int| listed(after, x) <==> listed(below@, x) || listed(above@, x) by {
                if listed(after, x) {
                    let w = choose|w: int| 0 <= w < after.len() && #[trigger] after[w] == x;
                    if w < i {
                        assert(before[w] == x);
                        assert(listed(before, x));
                        if listed(old_below, x) {
                            let v = choose|v: int| 0 <= v < old_below.len() && #[trigger] old_below[v] == x;
                            assert(below@[v] == x);
                        } else {
                            let v = choose|v: int| 0 <= v < old_above.len() && #[trigger] old_above[v] == x;
                            assert(above@[v] == x);
                        }
                    } else {
                        assert(x == id);
                        if below.len() > old_below.len() {
                            assert(below@[below.len() - 1] == x);
                        } else {
                            assert(above@[above.len() - 1] == x);
                        }
                    }
                }
                if listed(below@, x) {
                    let v = choose|v: int| 0 <= v < below.len() && #[trigger] below@[v] == x;
                    if v < old_below.len() {
                        assert(old_below[v] == x);
                        assert(listed(old_below, x));
                        assert(listed(before, x));
                        let w = choose|w: int| 0 <= w < before.len() && #[trigger] before[w] == x;
                        assert(after[w] == x);
                    } else {
                        assert(after[i as int] == x);
                    }
                }
                if listed(above@, x) {
                    let v = choose|v: int| 0 <= v < above.len() && #[trigger] above@[v] == x;
                    if v < old_above.len() {
                        assert(old_above[v] == x);
                        assert(listed(old_above, x));
                        assert(listed(before, x));
                        let w = choose|w: int| 0 <= w < before.len() && #[trigger] before[w] == x;
                        assert(after[w] == x);
                    } else {
                        assert(after[i as int] == x);
                    }
                }
            }
        }
        i += 1;
    }
    assert(ids@.take(i as int) == ids@);
    (below, above)
}

/// Builds the subtree over the points `ids`. A set of more than
/// [`LEAF_CAPACITY`] points is split at the middle of its extent along the
/// first axis, counted from `depth`, along which the points differ.
fn build_node(points: &Vec<Vec<i64>>, dimension: usize, ids: Vec<usize>, depth: usize) -> (node: Node)
    requires
        forall|n: int| 0 <= n < points.len() ==> (#[trigger] points[n]).len() == dimension,
        forall|i: int| 0 <= i < ids.len() ==> #[trigger] ids[i] < points.len(),
    ensures
        node.wf(coordinates(points@), dimension as nat),
        forall|id: int| node.holds(id) <==> listed(ids@, id),
    decreases ids.len(),
{
    if ids.len() <= LEAF_CAPACITY || dimension == 0 {
        return Node::Leaf { ids };
    }
    let first: usize = depth % dimension;
    let mut tried: usize = 0;
    while tried < dimension
        invariant
            forall|n: int| 0 <= n < points.len() ==> (#[trigger] points[n]).len() == dimension,
            forall|i: int| 0 <= i < ids.len() ==> #[trigger] ids[i] < points.len(),
            ids.len() > LEAF_CAPACITY,
            first < dimension,
            tried <= dimension,
        decreases dimension - tried,
    {
        let axis: usize = if tried < dimension - first {
            first + tried
        } else {
            tried - (dimension - first)
        };
        let (lo, hi) = extent(points, &ids, axis);
        if lo < hi {
            let half: i128 = (hi as i128 - lo as i128) / 2;
            let pivot: i64 = (lo as i128 + half) as i64;
            let (below_ids, above_ids) = partition(points, &ids, axis, pivot);
            proof {
                let at_lo = choose|i: int|
                    0 <= i < ids.len() && points[(#[trigger] ids[i]) as int][axis as int] == lo;
                let at_hi = choose|i: int|
                    0 <= i < ids.len() && points[(#[trigger] ids[i]) as int][axis as int] == hi;
                assert(listed(ids@, ids[at_lo] as int));
                assert(listed(ids@, ids[at_hi] as int));
                if listed(above_ids@, ids[at_lo] as int) {
                    let v = choose|v: int|
                        0 <= v < above_ids.len() && #[trigger] above_ids[v] == ids[at_lo] as int;
                    assert(points[above_ids[v] as int][axis as int] > pivot);
                }
                if listed(below_ids@, ids[at_hi] as int) {
                    let v = choose|v: int|
                        0 <= v < below_ids.len() && #[trigger] below_ids[v] == ids[at_hi] as int;
                    assert(points[below_ids[v] as int][axis as int] <= pivot);
                }
                assert(listed(below_ids@, ids[at_lo] as int));
                assert(listed(above_ids@, ids[at_hi] as int));
                assert(below_ids.len() > 0 && above_ids.len() > 0);
            }
            let deeper: usize = if depth < usize::MAX {
                depth + 1
            } else {
                0
            };
            let ghost below_listed = below_ids@;
            let ghost above_listed = above_ids@;
            let below = build_node(points, dimension, below_ids, deeper);
            let above = build_node(points, dimension, above_ids, deeper);
            let node = Node::Split { axis, pivot, below: Box::new(below), above: Box::new(above) };
            proof {
                let space = coordinates(points@);
                assert forall|id: int| #[trigger] below.holds(id) implies space[id][axis as int]
                    <= pivot by {
                    let v = choose|v: int|
                        0 <= v < below_listed.len() && #[trigger] below_listed[v] == id;
                    assert(points[below_listed[v] as int][axis as int] <= pivot);
                }
                assert forall|id: int| #[trigger] above.holds(id) implies space[id][axis as int]
                    > pivot by {
                    let v = choose|v: int|
                        0 <= v < above_listed.len() && #[trigger] above_listed[v] == id;
                    assert(points[above_listed[v] as int][axis as int] > pivot);
                }
                assert forall|id: int| node.holds(id) <==> listed(ids@, id) by {
                    assert(node.holds(id) <==> below.holds(id) || above.holds(id));
                    assert(below.holds(id) <==> listed(below_listed, id));
                    assert(above.holds(id) <==> listed(above_listed, id));
                    assert(listed(ids@, id) <==> listed(below_listed, id) || listed(
                        above_listed,
                        id,
                    ));
                }
            }
            return node;
        }
        tried += 1;
    }
    Node::Leaf { ids }
}

/// Builds the tree over all of `points`.
pub fn build_tree(points: &Vec<Vec<i64>>, dimension: usize) -> (root: Node)
    requires
        forall|n: int| 0 <= n < points.len() ==> (#[trigger] points[n]).len() == dimension,
    ensures
        root.covers(coordinates(points@), dimension as nat),
{
    let mut ids: Vec<usize> = Vec::new();
    let mut i: usize = 0;
    while i < points.len()
        invariant
            i <= points.len(),
            ids.len() == i,
            forall|j: int| 0 <= j < i ==> #[trigger] ids[j] == j,
        decreases points.len() - i,
    {
        ids.push(i);
        i += 1;
    }
    let ghost all = ids@;
    let root = build_node(points, dimension, ids, 0);
    proof {
        assert forall|id: int| 0 <= id < points.len() implies root.holds(id) by {
            assert(all[id] == id);
            assert(listed(all, id));
        }
    }
    root
}

/// `best` are the `k` nearest to `query` among the points `visited`: as
/// many as were visited, at most `k`; in strictly ascending order; and every
/// visited point left out comes after all of them.
pub open spec fn best_of(
    points: Seq<Seq<i64>>,
    query: Seq<i64>,
    k: nat,
    visited: Set<int>,
    best: Seq<Neighbor>,
) -> bool {
    &&& points.len() <= usize::MAX
    &&& visited.finite()
    &&& forall|id: int| #[trigger] visited.contains(id) ==> 0 <= id < points.len()
    &&& best.len() == if k <= visited.len() {
        k
    } else {
        visited.len()
    }
    &&& forall|i: int|
        0 <= i < best.len() ==> visited.contains((#[trigger] best[i]).id as int) && best[i]
            == neighbor_of(points, query, best[i].id)
    &&& forall|i: int, j: int|
        0 <= i < j < best.len() ==> comes_before(#[trigger] best[i], #[trigger] best[j])
    &&& forall|id: int|
        #[trigger] visited.contains(id) && !has_id(best, id as usize) ==> best.len() == k
            && forall|i: int|
            0 <= i < best.len() ==> comes_before(
                #[trigger] best[i],
                neighbor_of(points, query, id as usize),
            )
}

/// Nothing changes where the point on offer is already among the best.
proof fn lemma_offer_known(
    points: Seq<Seq<i64>>,
    query: Seq<i64>,
    k: nat,
    visited: Set<int>,
    seen: Seq<Neighbor>,
    id: usize,
    p: int,
)
    requires
        best_of(points, query, k, visited, seen),
        0 <= p < seen.len(),
        seen[p].id == id,
    ensures
        best_of(points, query, k, visited.insert(id as int), seen),
{
    assert(visited.contains(seen[p].id as int));
    assert(visited.insert(id as int) =~= visited);
}

/// Nothing changes where the point on offer comes after `k` best ones.
proof fn lemma_offer_late(
    points: Seq<Seq<i64>>,
    query: Seq<i64>,
    k: nat,
    visited: Set<int>,
    seen: Seq<Neighbor>,
    id: usize,
)
    requires
        best_of(points, query, k, visited, seen),
        id < points.len(),
        seen.len() >= k,
        forall|j: int|
            0 <= j < seen.len() ==> comes_before(#[trigger] seen[j], neighbor_of(points, query, id)),
    ensures
        best_of(points, query, k, visited.insert(id as int), seen),
{
    let wider = visited.insert(id as int);
    if visited.contains(id as int) {
        assert(wider =~= visited);
    } else {
        assert forall|x: int| #[trigger] wider.contains(x) && !has_id(seen, x as usize) implies seen.len()
            == k && forall|i: int|
            0 <= i < seen.len() ==> comes_before(
                #[trigger] seen[i],
                neighbor_of(points, query, x as usize),
            ) by {
            if x != id {
                assert(visited.contains(x));
            }
        }
        assert forall|i: int| 0 <= i < seen.len() implies wider.contains(
            (#[trigger] seen[i]).id as int,
        ) by {
            assert(visited.contains(seen[i].id as int));
        }
    }
}

/// Putting the point on offer into its place among the best, and dropping
/// the last where that makes one too many, gives the best with that point
/// visited.
proof fn lemma_offer_placed(
    points: Seq<Seq<i64>>,
    query: Seq<i64>,
    k: nat,
    visited: Set<int>,
    seen: Seq<Neighbor>,
    id: usize,
    p: int,
)
    requires
        best_of(points, query, k, visited, seen),
        id < points.len(),
        0 <= p <= seen.len(),
        p < k,
        forall|j: int|
            0 <= j < p ==> comes_before(#[trigger] seen[j], neighbor_of(points, query, id)),
        p < seen.len() ==> !comes_before(seen[p], neighbor_of(points, query, id)) && seen[p].id
            != id,
    ensures
        best_of(
            points,
            query,
            k,
            visited.insert(id as int),
            if seen.len() < k {
                seen.insert(p, neighbor_of(points, query, id))
            } else {
                seen.insert(p, neighbor_of(points, query, id)).drop_last()
            },
        ),
{
    let candidate = neighbor_of(points, query, id);
    let wider = visited.insert(id as int);
    let grown = seen.insert(p, candidate);
    let kept = if seen.len() < k {
        grown
    } else {
        grown.drop_last()
    };
    assert forall|j: int| 0 <= j < seen.len() implies (#[trigger] seen[j]) == neighbor_of(
        points,
        query,
        seen[j].id,
    ) && visited.contains(seen[j].id as int) by {}
    // The point was not visited before.
    assert(!visited.contains(id as int)) by {
        if visited.contains(id as int) {
            if has_id(seen, id) {
                let w = choose|w: int| 0 <= w < seen.len() && (#[trigger] seen[w]).id == id;
                assert(seen[w] == candidate);
                if w < p {
                    assert(comes_before(seen[w], candidate));
                } else if w > p {
                    assert(comes_before(seen[p], seen[w]));
                }
            } else {
                assert(comes_before(seen[p], candidate));
            }
        }
    }
    assert(wider.len() == visited.len() + 1);
    assert forall|j: int| 0 <= j < kept.len() implies #[trigger] kept[j] == (if j < p {
        seen[j]
    } else if j == p {
        candidate
    } else {
        seen[j - 1]
    }) by {}
    assert forall|j: int| 0 <= j < kept.len() implies wider.contains((#[trigger] kept[j]).id as int)
        && kept[j] == neighbor_of(points, query, kept[j].id) by {
        if j < p {
            assert(kept[j] == seen[j]);
        } else if j > p {
            assert(kept[j] == seen[j - 1]);
        }
    }
    assert forall|j: int| p <= j < seen.len() implies comes_before(candidate, #[trigger] seen[j]) by {
        assert(seen[p].id != id);
        assert(comes_before(candidate, seen[p]));
        if j > p {
            assert(comes_before(seen[p], seen[j]));
        }
    }
    assert forall|a: int, b: int| 0 <= a < b < kept.len() implies comes_before(
        #[trigger] kept[a],
        #[trigger] kept[b],
    ) by {
        if b < p {
            assert(comes_before(seen[a], seen[b]));
        } else if b == p {
            assert(comes_before(seen[a], candidate));
        } else if a < p {
            assert(comes_before(seen[a], seen[b - 1]));
        } else if a == p {
            assert(comes_before(candidate, seen[b - 1]));
        } else {
            assert(comes_before(seen[a - 1], seen[b - 1]));
        }
    }
    assert(kept[p].id == id);
    assert forall|x: int| #[trigger] wider.contains(x) && !has_id(kept, x as usize) implies kept.len()
        == k && forall|j: int|
        0 <= j < kept.len() ==> comes_before(
            #[trigger] kept[j],
            neighbor_of(points, query, x as usize),
        ) by {
        assert(x != id);
        assert(visited.contains(x));
        let target = neighbor_of(points, query, x as usize);
        if has_id(seen, x as usize) {
            let w = choose|w: int| 0 <= w < seen.len() && (#[trigger] seen[w]).id == x as usize;
            if w < p {
                assert(kept[w].id == x as usize);
            } else if w + 1 < kept.len() {
                assert(kept[w + 1].id == x as usize);
            }
            assert(seen.len() == k && w == k - 1);
            assert(seen[w] == target);
            assert forall|j: int| 0 <= j < kept.len() implies comes_before(
                #[trigger] kept[j],
                target,
            ) by {
                if j < p {
                    assert(comes_before(seen[j], seen[w]));
                } else if j == p {
                    assert(comes_before(candidate, seen[w]));
                } else {
                    assert(comes_before(seen[j - 1], seen[w]));
                }
            }
        } else {
            assert(seen.len() == k);
            assert(comes_before(candidate, seen[p]));
            assert(comes_before(seen[p], target));
            assert forall|j: int| 0 <= j < kept.len() implies comes_before(
                #[trigger] kept[j],
                target,
            ) by {
                if j < p {
                    assert(comes_before(seen[j], target));
                } else if j > p {
                    assert(comes_before(seen[j - 1], target));
                }
            }
        }
    }
}

/// Offers one point to the best `k` seen so far.
fn offer(
    best: &mut Vec<Neighbor>,
    candidate: Neighbor,
    k: usize,
    Ghost(points): Ghost<Seq<Seq<i64>>>,
    Ghost(query): Ghost<Seq<i64>>,
    Ghost(visited): Ghost<Set<int>>,
)
    requires
        k > 0,
        best_of(points, query, k as nat, visited, old(best)@),
        candidate.id < points.len(),
        candidate == neighbor_of(points, query, candidate.id),
    ensures
        best_of(points, query, k as nat, visited.insert(candidate.id as int), final(best)@),
{
    let mut p: usize = 0;
    while p < best.len() && (best[p].distance < candidate.distance || (best[p].distance
        == candidate.distance && best[p].id < candidate.id))
        invariant
            p <= best.len(),
            forall|j: int| 0 <= j < p ==> comes_before(#[trigger] best[j], candidate),
        decreases best.len() - p,
    {
        p += 1;
    }
    let ghost seen = best@;
    if p < best.len() && best[p].id == candidate.id {
        proof {
            lemma_offer_known(points, query, k as nat, visited, seen, candidate.id, p as int);
        }
    } else if p < k {
        best.insert(p, candidate);
        if best.len() > k {
            best.pop();
        }
        proof {
            lemma_offer_placed(points, query, k as nat, visited, seen, candidate.id, p as int);
        }
    } else {
        proof {
            lemma_offer_late(points, query, k as nat, visited, seen, candidate.id);
        }
    }
}

/// The squared distance of two points is at least the squared difference
/// of any one coordinate.
proof fn lemma_one_axis_bound(a: Seq<i64>, b: Seq<i64>, n: nat, axis: int)
    requires
        0 <= axis < n,
    ensures
        squared_distance_upto(a, b, n) >= (a[axis] - b[axis]) * (a[axis] - b[axis]),
    decreases n,
{
    let last = (a[n - 1] - b[n - 1]) * (a[n - 1] - b[n - 1]);
    assert(last >= 0) by (nonlinear_arith)
        requires
            last == (a[n - 1] - b[n - 1]) * (a[n - 1] - b[n - 1]),
    ;
    if axis < n - 1 {
        lemma_one_axis_bound(a, b, (n - 1) as nat, axis);
    }
}

/// Searches one subtree: every point of it is offered to the best `k`,
/// but for the points on the far side of a split that lies farther from the
/// query than the last of `k` best ones.
fn search(
    node: &Node,
    points: &Vec<Vec<i64>>,
    query: &Vec<i64>,
    k: usize,
    best: &mut Vec<Neighbor>,
    Ghost(visited): Ghost<Set<int>>,
) -> (r: Ghost<Set<int>>)
    requires
        k > 0,
        node.wf(coordinates(points@), query.len() as nat),
        forall|n: int| 0 <= n < points.len() ==> (#[trigger] points[n]).len() == query.len(),
        best_of(coordinates(points@), query@, k as nat, visited, old(best)@),
    ensures
        best_of(coordinates(points@), query@, k as nat, r@, final(best)@),
        forall|id: int| r@.contains(id) <==> visited.contains(id) || node.holds(id),
    decreases node,
{
    let ghost space = coordinates(points@);
    match node {
        Node::Leaf { ids } => {
            let ghost mut current = visited;
            let mut i: usize = 0;
            while i < ids.len()
                invariant
                    k > 0,
                    space == coordinates(points@),
                    forall|n: int|
                        0 <= n < points.len() ==> (#[trigger] points[n]).len() == query.len(),
                    forall|j: int| 0 <= j < ids.len() ==> #[trigger] ids[j] < points.len(),
                    i <= ids.len(),
                    best_of(space, query@, k as nat, current, best@),
                    forall|id: int|
                        current.contains(id) <==> visited.contains(id) || listed(
                            ids@.take(i as int),
                            id,
                        ),
                decreases ids.len() - i,
            {
                let id = ids[i];
                let distance = squared_euclidean(&points[id], query);
                let candidate = Neighbor { distance, id };
                assert(space[id as int] == points[id as int]@);
                offer(best, candidate, k, Ghost(space), Ghost(query@), Ghost(current));
                proof {
                    let before = ids@.take(i as int);
                    let after = ids@.take(i + 1);
                    let next = current.insert(id as int);
                    assert forall|x: int|
                        next.contains(x) <==> visited.contains(x) || listed(after, x) by {
                        if listed(after, x) {
                            let w = choose|w: int| 0 <= w < after.len() && #[trigger] after[w] == x;
                            if w < i {
                                assert(before[w] == x);
                                assert(listed(before, x));
                            }
                        }
                        if listed(before, x) {
                            let w = choose|w: int|
                                0 <= w < before.len() && #[trigger] before[w] == x;
                            assert(after[w] == x);
                        }
                        if x == id {
                            assert(after[i as int] == x);
                        }
                    }
                    current = next;
                }
                i += 1;
            }
            assert(ids@.take(i as int) == ids@);
            Ghost(current)
        },
        Node::Split { axis, pivot, below, above } => {
            let coordinate = query[*axis];
            let below_first = coordinate <= *pivot;
            let (near, far) = if below_first {
                (below, above)
            } else {
                (above, below)
            };
            let Ghost(halfway) = search(near, points, query, k, best, Ghost(visited));
            let difference: i128 = coordinate as i128 - *pivot as i128;
            let gap: u128 = if difference < 0 {
                (-difference) as u128
            } else {
                difference as u128
            };
            assert(gap * gap <= u128::MAX && gap * gap == difference * difference)
                by (nonlinear_arith)
                requires
                    gap <= 0xffff_ffff_ffff_ffff,
                    gap == difference || gap == -difference,
            ;
            let reach: u128 = gap * gap;
            if best.len() < k || reach <= best[best.len() - 1].distance {
                let Ghost(all) = search(far, points, query, k, best, Ghost(halfway));
                Ghost(all)
            } else {
                let ghost beyond = Set::new(|id: int| far.holds(id));
                let ghost all = halfway.union(beyond);
                proof {
                    let range = set_int_range(0, points.len() as int);
                    lemma_int_range(0, points.len() as int);
                    assert forall|id: int| beyond.contains(id) implies range.contains(id) by {
                        lemma_holds_in_range(**far, space, query.len() as nat, id);
                    }
                    lemma_len_subset(beyond, range);
                    lemma_len_subset(halfway, all);
                    let last = best@[best.len() - 1];
                    assert forall|id: int|
                        #[trigger] all.contains(id) && !has_id(best@, id as usize) implies best.len()
                        == k && forall|i: int|
                        0 <= i < best.len() ==> comes_before(
                            #[trigger] best@[i],
                            neighbor_of(space, query@, id as usize),
                        ) by {
                        if !halfway.contains(id) {
                            assert(far.holds(id));
                            lemma_holds_in_range(**far, space, query.len() as nat, id);
                            let point = space[id];
                            assert(point.len() == query.len()) by {
                                assert(point == points[id]@);
                            }
                            lemma_one_axis_bound(point, query@, point.len(), *axis as int);
                            let along = point[*axis as int] - query@[*axis as int];
                            assert(along * along >= difference * difference) by (nonlinear_arith)
                                requires
                                    (difference <= 0 && along >= -difference) || (difference > 0
                                        && -along >= difference),
                            ;
                            let target = neighbor_of(space, query@, id as usize);
                            assert(target.distance > last.distance);
                            assert forall|i: int| 0 <= i < best.len() implies comes_before(
                                #[trigger] best@[i],
                                target,
                            ) by {
                                if i < best.len() - 1 {
                                    assert(comes_before(best@[i], last));
                                }
                            }
                        }
                    }
                    assert forall|id: int| #[trigger] all.contains(id) implies 0 <= id
                        < space.len() by {
                        if !halfway.contains(id) {
                            lemma_holds_in_range(**far, space, query.len() as nat, id);
                        }
                    }
                    assert forall|i: int| 0 <= i < best.len() implies all.contains(
                        (#[trigger] best@[i]).id as int,
                    ) by {
                        assert(halfway.contains(best@[i].id as int));
                    }
                }
                Ghost(all)
            }
        },
    }
}

/// The `k` nearest points to `query` in the tree `root` over `points`.
pub fn nearest_in_tree(root: &Node, points: &Vec<Vec<i64>>, query: &Vec<i64>, k: usize) -> (answers:
    Vec<Neighbor>)
    requires
        root.covers(coordinates(points@), query.len() as nat),
        forall|n: int| 0 <= n < points.len() ==> (#[trigger] points[n]).len() == query.len(),
    ensures
        is_k_nearest(coordinates(points@), query@, k as nat, answers@),
{
    let mut best: Vec<Neighbor> = Vec::new();
    if k == 0 {
        return best;
    }
    let ghost space = coordinates(points@);
    let Ghost(all) = search(root, points, query, k, &mut best, Ghost(Set::<int>::empty()));
    proof {
        lemma_int_range(0, points.len() as int);
        assert forall|id: int| all.contains(id) implies 0 <= id < points.len() by {}
        assert(all =~= set_int_range(0, points.len() as int));
        assert forall|id: usize| id < space.len() && !has_id(best@, id) implies best.len() == k
            && forall|i: int|
            0 <= i < best.len() ==> comes_before(
                #[trigger] best@[i],
                neighbor_of(space, query@, id),
            ) by {
            assert(all.contains(id as int));
        }
    }
    best
}

} // verus!
