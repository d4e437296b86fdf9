//! The predictor: the live window of the running context, the majority vote
//! among the nearest neighbours, and the generation loop.

use crate::context::{window, ContextTable, Descriptor};
use crate::distance::Distance;
use crate::engine::{get_ncds, ncd_matrix, rows_view, windows_inside};
use crate::error::Error;
use crate::index::{
    build_failure, finite_values, is_k_nearest, query_failure, Neighbor, SpatialIndex,
};
use crate::oracle::{context_distance, CompressionOracle};
use vstd::prelude::*;

verus! {

/// The number of neighbours that vote, unless another is chosen.
pub const DEFAULT_NEIGHBORS: usize = 7;

/// The window of the running context that a step goes by: its last `n`
/// bytes, or all of it where it has fewer.
pub open spec fn live_window(current_len: nat, n: nat) -> Descriptor {
    if current_len <= n {
        (current_len as usize, 0usize)
    } else {
        (n as usize, (current_len - n) as usize)
    }
}

/// The descriptor of the live window of a running context of `current_len`
/// bytes, for windows of at most `n` bytes.
pub fn query_descriptor(current_len: usize, n: usize) -> (d: Descriptor)
    ensures
        d == live_window(current_len as nat, n as nat),
        d.0 + d.1 == current_len,
{
    if current_len <= n {
        (current_len, 0)
    } else {
        (n, current_len - n)
    }
}

/// The byte as it is shown: a carriage return is shown as a line feed.
pub fn display_byte(b: u8) -> (r: u8)
    ensures
        r == if b == 13 {
            10u8
        } else {
            b
        },
{
    if b == 13 {
        10
    } else {
        b
    }
}

/// The number of answers whose target is `b`.
pub open spec fn votes_for(answers: Seq<Neighbor>, targets: Seq<u8>, b: u8) -> nat
    decreases answers.len(),
{
    if answers.len() == 0 {
        0
    } else if targets[answers.last().id as int] == b {
        votes_for(answers.drop_last(), targets, b) + 1
    } else {
        votes_for(answers.drop_last(), targets, b)
    }
}

/// The smallest distance among the answers whose target is `b`; the largest
/// `u128` where there is none.
pub open spec fn closest_vote(answers: Seq<Neighbor>, targets: Seq<u8>, b: u8) -> u128
    decreases answers.len(),
{
    if answers.len() == 0 {
        u128::MAX
    } else {
        let rest = closest_vote(answers.drop_last(), targets, b);
        if targets[answers.last().id as int] == b && answers.last().distance < rest {
            answers.last().distance
        } else {
            rest
        }
    }
}

/// The byte `a` is preferred to the byte `b`: it has more votes; or as many,
/// and a nearer neighbour; or as many and one as near, and the smaller value.
pub open spec fn preferred(answers: Seq<Neighbor>, targets: Seq<u8>, a: u8, b: u8) -> bool {
    let votes_a = votes_for(answers, targets, a);
    let votes_b = votes_for(answers, targets, b);
    let near_a = closest_vote(answers, targets, a);
    let near_b = closest_vote(answers, targets, b);
    votes_a > votes_b || (votes_a == votes_b && (near_a < near_b || (near_a == near_b && a < b)))
}

/// The byte `w` wins the vote: it has a vote and is preferred to every other
/// byte.
pub open spec fn is_winner(answers: Seq<Neighbor>, targets: Seq<u8>, w: u8) -> bool {
    &&& votes_for(answers, targets, w) > 0
    &&& forall|b: u8| b != w ==> preferred(answers, targets, w, b)
}

/// A vote has one winner: identical neighbours and targets give identical
/// outcomes.
pub proof fn lemma_winner_unique(answers: Seq<Neighbor>, targets: Seq<u8>, first: u8, second: u8)
    requires
        is_winner(answers, targets, first),
        is_winner(answers, targets, second),
    ensures
        first == second,
{
    if first != second {
        assert(preferred(answers, targets, first, second));
        assert(preferred(answers, targets, second, first));
    }
}

/// There are no votes without answers.
proof fn lemma_votes_bound(answers: Seq<Neighbor>, targets: Seq<u8>, b: u8)
    ensures
        votes_for(answers, targets, b) <= answers.len(),
    decreases answers.len(),
{
    if answers.len() > 0 {
        lemma_votes_bound(answers.drop_last(), targets, b);
    }
}

/// The majority vote: every answer votes for the target of its point, and
/// the byte with the most votes wins. Among bytes with equally many votes
/// the one with the nearest neighbour wins, and among those the smallest.
/// There is no winner without answers.
pub fn majority_vote(answers: &Vec<Neighbor>, targets: &Vec<u8>) -> (r: Option<u8>)
    requires
        forall|i: int| 0 <= i < answers.len() ==> (#[trigger] answers[i]).id < targets.len(),
    ensures
        r is None <==> answers.len() == 0,
        r matches Some(w) ==> is_winner(answers@, targets@, w),
{
    if answers.len() == 0 {
        return None;
    }
    let mut counts: Vec<usize> = Vec::new();
    let mut nearest: Vec<u128> = Vec::new();
    let mut b: usize = 0;
    assert(answers@.take(0) =~= Seq::<Neighbor>::empty());
    while b < 256
        invariant
            b <= 256,
            counts.len() == b,
            nearest.len() == b,
            forall|c: int| 0 <= c < b ==> #[trigger] counts[c] == 0,
            forall|c: int| 0 <= c < b ==> #[trigger] nearest[c] == u128::MAX,
        decreases 256 - b,
    {
        counts.push(0);
        nearest.push(u128::MAX);
        b += 1;
    }
    let mut i: usize = 0;
    while i < answers.len()
        invariant
            forall|i: int| 0 <= i < answers.len() ==> (#[trigger] answers[i]).id < targets.len(),
            i <= answers.len(),
            counts.len() == 256,
            nearest.len() == 256,
            forall|c: u8| #[trigger]
                counts[c as int] == votes_for(answers@.take(i as int), targets@, c),
            forall|c: u8| #[trigger]
                nearest[c as int] == closest_vote(answers@.take(i as int), targets@, c),
        decreases answers.len() - i,
    {
        let answer = answers[i];
        let target = targets[answer.id];
        proof {
            let next = answers@.take(i + 1);
            assert(next.drop_last() == answers@.take(i as int));
            assert(next.last() == answers@[i as int]);
            lemma_votes_bound(next, targets@, target);
        }
        let slot: usize = target as usize;
        let count = counts[slot];
        counts.set(slot, count + 1);
        if answer.distance < nearest[slot] {
            nearest.set(slot, answer.distance);
        }
        i += 1;
    }
    assert(answers@.take(i as int) == answers@);
    let first = targets[answers[0].id];
    proof {
        lemma_first_has_vote(answers@, targets@);
    }
    let mut winner: u8 = first;
    let mut c: usize = 0;
    while c < 256
        invariant
            c <= 256,
            counts.len() == 256,
            nearest.len() == 256,
            forall|c: u8| #[trigger] counts[c as int] == votes_for(answers@, targets@, c),
            forall|c: u8| #[trigger] nearest[c as int] == closest_vote(answers@, targets@, c),
            votes_for(answers@, targets@, winner) > 0,
            forall|other: u8|
                other < c && other != winner ==> preferred(answers@, targets@, winner, other),
        decreases 256 - c,
    {
        let byte: u8 = c as u8;
        let w: usize = winner as usize;
        let ghost previous = winner;
        if byte != winner && (counts[c] > counts[w] || (counts[c] == counts[w] && (nearest[c]
            < nearest[w] || (nearest[c] == nearest[w] && byte < winner)))) {
            assert(counts[byte as int] == votes_for(answers@, targets@, byte));
            assert(counts[previous as int] == votes_for(answers@, targets@, previous));
            assert(nearest[byte as int] == closest_vote(answers@, targets@, byte));
            assert(nearest[previous as int] == closest_vote(answers@, targets@, previous));
            assert(preferred(answers@, targets@, byte, previous));
            winner = byte;
            assert forall|other: u8| other < c + 1 && other != winner implies preferred(
                answers@,
                targets@,
                winner,
                other,
            ) by {
                if other != previous {
                    assert(preferred(answers@, targets@, previous, other));
                }
            }
        } else {
            assert(counts[byte as int] == votes_for(answers@, targets@, byte));
            assert(counts[previous as int] == votes_for(answers@, targets@, previous));
            assert(nearest[byte as int] == closest_vote(answers@, targets@, byte));
            assert(nearest[previous as int] == closest_vote(answers@, targets@, previous));
            assert(byte != winner ==> preferred(answers@, targets@, winner, byte));
        }
        c += 1;
    }
    Some(winner)
}

/// The target of the first answer has a vote.
proof fn lemma_first_has_vote(answers: Seq<Neighbor>, targets: Seq<u8>)
    requires
        answers.len() > 0,
    ensures
        votes_for(answers, targets, targets[answers[0].id as int]) > 0,
    decreases answers.len(),
{
    if answers.len() > 1 {
        lemma_first_has_vote(answers.drop_last(), targets);
    }
}

/// The distances of `context` to every reference context, in their order.
pub open spec fn feature_vector<C: CompressionOracle>(
    oracle: &C,
    context: Seq<u8>,
    corpus: Seq<u8>,
    contexts: Seq<Descriptor>,
) -> Seq<Distance> {
    Seq::new(
        contexts.len(),
        |j: int| context_distance(oracle, context, window(corpus, contexts[j])),
    )
}

/// The bytes of the running context that a step goes by.
pub open spec fn live_context(state: Seq<u8>, n: nat) -> Seq<u8> {
    window(state, live_window(state.len(), n))
}

/// The byte `w` is what the `k` nearest points to `vector` vote for.
pub open spec fn is_prediction(
    points: Seq<Seq<i64>>,
    targets: Seq<u8>,
    k: nat,
    vector: Seq<Distance>,
    w: u8,
) -> bool {
    exists|answers: Seq<Neighbor>| #[trigger]
        is_k_nearest(points, finite_values(vector), k, answers) && is_winner(answers, targets, w)
}

/// Why a step with the feature vector `vector` predicts nothing, if it does
/// not: the index does not take the vector, or nobody votes.
pub open spec fn advance_failure(dimension: nat, size: nat, k: nat, vector: Seq<Distance>) -> Option<
    Error,
> {
    if query_failure(dimension, vector) is Some {
        query_failure(dimension, vector)
    } else if k == 0 || size == 0 {
        Some(Error::NoNeighbors)
    } else {
        None
    }
}

/// A prediction is unique: the nearest neighbours of a vector are one list,
/// and their vote has one winner.
pub proof fn lemma_prediction_unique(
    points: Seq<Seq<i64>>,
    targets: Seq<u8>,
    k: nat,
    vector: Seq<Distance>,
    first: u8,
    second: u8,
)
    requires
        is_prediction(points, targets, k, vector, first),
        is_prediction(points, targets, k, vector, second),
    ensures
        first == second,
{
    let a = choose|answers: Seq<Neighbor>| #[trigger]
        is_k_nearest(points, finite_values(vector), k, answers) && is_winner(
            answers,
            targets,
            first,
        );
    let b = choose|answers: Seq<Neighbor>| #[trigger]
        is_k_nearest(points, finite_values(vector), k, answers) && is_winner(
            answers,
            targets,
            second,
        );
    crate::index::lemma_k_nearest_unique(points, finite_values(vector), k, a, b);
    lemma_winner_unique(a, targets, first, second);
}

/// The predictor: a reference table over a corpus, the index over the
/// feature vectors of its contexts, and the running context, which only
/// grows.
#[derive(Debug)]
pub struct Predictor {
    /// The corpus that the reference contexts point into.
    pub corpus: Vec<u8>,
    /// The reference contexts and their targets.
    pub table: ContextTable,
    /// The index; the point with id `i` belongs to context `i` of the table.
    pub index: SpatialIndex,
    /// The largest number of bytes of the running context that a step uses.
    pub max_context: usize,
    /// The number of neighbours that vote.
    pub neighbors: usize,
    /// The running context.
    pub state: Vec<u8>,
}

impl Predictor {
    /// The table fits the corpus, and the index holds one point for each
    /// context, with one coordinate for each context.
    pub open spec fn wf(&self) -> bool {
        &&& self.table.wf(self.corpus@)
        &&& self.index.points().len() == self.table.contexts.len()
        &&& self.index.dimension() == self.table.contexts.len()
    }

    /// Everything but the running context is as in `other`.
    pub open spec fn same_setup(&self, other: &Predictor) -> bool {
        &&& self.corpus@ == other.corpus@
        &&& self.table.contexts@ == other.table.contexts@
        &&& self.table.targets@ == other.table.targets@
        &&& self.index.points() == other.index.points()
        &&& self.index.dimension() == other.index.dimension()
        &&& self.max_context == other.max_context
        &&& self.neighbors == other.neighbors
    }

    /// The feature vector of the live window of the running context `state`.
    pub open spec fn step_vector<C: CompressionOracle>(&self, oracle: &C, state: Seq<u8>) -> Seq<
        Distance,
    > {
        feature_vector(
            oracle,
            live_context(state, self.max_context as nat),
            self.corpus@,
            self.table.contexts@,
        )
    }

    /// Why a step from the running context `state` predicts nothing, if it
    /// does not.
    pub open spec fn step_failure<C: CompressionOracle>(&self, oracle: &C, state: Seq<u8>) -> Option<
        Error,
    > {
        advance_failure(
            self.index.dimension(),
            self.index.points().len(),
            self.neighbors as nat,
            self.step_vector(oracle, state),
        )
    }

    /// The byte `w` is what a step from the running context `state` predicts.
    pub open spec fn is_step_prediction<C: CompressionOracle>(
        &self,
        oracle: &C,
        state: Seq<u8>,
        w: u8,
    ) -> bool {
        is_prediction(
            self.index.points(),
            self.table.targets@,
            self.neighbors as nat,
            self.step_vector(oracle, state),
            w,
        )
    }

    /// Whether the parts fit together: see [`Predictor::wf`].
    pub fn is_well_formed(&self) -> (r: bool)
        ensures
            r == self.wf(),
    {
        self.table.is_valid_for(&self.corpus) && self.index.len() == self.table.contexts.len()
            && self.index.dims() == self.table.contexts.len()
    }

    /// Puts a predictor together from a table, an index that was built over
    /// the feature vectors of its contexts, and a seed for the running
    /// context.
    pub fn assemble(
        corpus: Vec<u8>,
        table: ContextTable,
        index: SpatialIndex,
        max_context: usize,
        neighbors: usize,
        seed: Vec<u8>,
    ) -> (p: Predictor)
        requires
            table.wf(corpus@),
            index.points().len() == table.contexts.len(),
            index.dimension() == table.contexts.len(),
        ensures
            p.wf(),
            p.corpus == corpus,
            p.table == table,
            p.index == index,
            p.max_context == max_context,
            p.neighbors == neighbors,
            p.state == seed,
    {
        Predictor { corpus, table, index, max_context, neighbors, state: seed }
    }

    /// Computes the distance matrix of the reference contexts against
    /// themselves under `oracle`, indexes its rows, and starts the running
    /// context at `seed`. There is no predictor where a distance between two
    /// reference contexts is no number.
    pub fn train<C: CompressionOracle>(
        oracle: &C,
        corpus: Vec<u8>,
        table: ContextTable,
        max_context: usize,
        neighbors: usize,
        seed: Vec<u8>,
    ) -> (r: Result<Predictor, Error>)
        requires
            table.wf(corpus@),
        ensures
            match r {
                Err(e) => build_failure(
                    ncd_matrix(oracle, corpus@, table.contexts@, corpus@, table.contexts@),
                ) == Some(e),
                Ok(p) => {
                    &&& build_failure(
                        ncd_matrix(oracle, corpus@, table.contexts@, corpus@, table.contexts@),
                    ) is None
                    &&& p.wf()
                    &&& p.corpus == corpus
                    &&& p.table == table
                    &&& p.max_context == max_context
                    &&& p.neighbors == neighbors
                    &&& p.state == seed
                    &&& forall|i: int|
                        0 <= i < table.contexts.len() ==> #[trigger] p.index.points()[i]
                            == finite_values(
                            ncd_matrix(oracle, corpus@, table.contexts@, corpus@, table.contexts@)[i],
                        )
                },
            },
    {
        proof {
            lemma_table_windows(corpus@, &table);
        }
        let matrix = get_ncds(oracle, (&corpus, &table.contexts), (&corpus, &table.contexts));
        let index = match SpatialIndex::build(&matrix) {
            Ok(index) => index,
            Err(e) => {
                return Err(e);
            },
        };
        proof {
            let want = ncd_matrix(oracle, corpus@, table.contexts@, corpus@, table.contexts@);
            assert forall|i: int| 0 <= i < table.contexts.len() implies #[trigger] index.points()[i]
                == finite_values(want[i]) by {
                assert(rows_view(matrix@)[i] == matrix[i]@);
            }
        }
        Ok(Predictor { corpus, table, index, max_context, neighbors, state: seed })
    }

    /// The descriptor of the live window of the running context.
    pub fn next_query(&self) -> (d: Descriptor)
        ensures
            d == live_window(self.state.len() as nat, self.max_context as nat),
            d.0 + d.1 == self.state.len(),
    {
        query_descriptor(self.state.len(), self.max_context)
    }

    /// One step, from the feature vector of the live window: asks the index
    /// for the nearest neighbours, lets them vote, and appends the winner to
    /// the running context. Where there is no prediction, nothing changes.
    pub fn advance(&mut self, vector: &Vec<Distance>) -> (r: Result<u8, Error>)
        requires
            old(self).wf(),
        ensures
            final(self).wf(),
            final(self).same_setup(old(self)),
            match r {
                Err(e) => {
                    &&& advance_failure(
                        old(self).index.dimension(),
                        old(self).index.points().len(),
                        old(self).neighbors as nat,
                        vector@,
                    ) == Some(e)
                    &&& final(self).state@ == old(self).state@
                },
                Ok(w) => {
                    &&& advance_failure(
                        old(self).index.dimension(),
                        old(self).index.points().len(),
                        old(self).neighbors as nat,
                        vector@,
                    ) is None
                    &&& is_prediction(
                        old(self).index.points(),
                        old(self).table.targets@,
                        old(self).neighbors as nat,
                        vector@,
                        w,
                    )
                    &&& final(self).state@ == old(self).state@.push(w)
                },
            },
    {
        let answers = match self.index.query(vector, self.neighbors) {
            Ok(answers) => answers,
            Err(e) => {
                return Err(e);
            },
        };
        match majority_vote(&answers, &self.table.targets) {
            Some(w) => {
                self.state.push(w);
                Ok(w)
            },
            None => Err(Error::NoNeighbors),
        }
    }

    /// One step on the host: computes the feature vector of the live window
    /// under `oracle` and proceeds as [`Predictor::advance`] does.
    pub fn step<C: CompressionOracle>(&mut self, oracle: &C) -> (r: Result<u8, Error>)
        requires
            old(self).wf(),
        ensures
            final(self).wf(),
            final(self).same_setup(old(self)),
            match r {
                Err(e) => {
                    &&& old(self).step_failure(oracle, old(self).state@) == Some(e)
                    &&& final(self).state@ == old(self).state@
                },
                Ok(w) => {
                    &&& old(self).step_failure(oracle, old(self).state@) is None
                    &&& old(self).is_step_prediction(oracle, old(self).state@, w)
                    &&& final(self).state@ == old(self).state@.push(w)
                },
            },
    {
        let d = self.next_query();
        let mut queries: Vec<Descriptor> = Vec::new();
        queries.push(d);
        proof {
            lemma_table_windows(self.corpus@, &self.table);
        }
        let mut matrix = get_ncds(
            oracle,
            (&self.state, &queries),
            (&self.corpus, &self.table.contexts),
        );
        let ghost want = ncd_matrix(
            oracle,
            self.state@,
            queries@,
            self.corpus@,
            self.table.contexts@,
        );
        assert(rows_view(matrix@)[0] == want[0]);
        assert(want[0] =~= self.step_vector(oracle, self.state@));
        match matrix.pop() {
            Some(vector) => self.advance(&vector),
            None => Err(Error::NoNeighbors),
        }
    }

    /// Runs steps on the host until `budget` bytes are produced or a step
    /// predicts nothing, and returns the bytes or what stopped it. The
    /// running context grows by the bytes that were produced, each of them
    /// the prediction from the running context before it.
    pub fn generate<C: CompressionOracle>(&mut self, oracle: &C, budget: usize) -> (r: Result<
        Vec<u8>,
        Error,
    >)
        requires
            old(self).wf(),
        ensures
            final(self).wf(),
            final(self).same_setup(old(self)),
            old(self).state@.len() <= final(self).state@.len() <= old(self).state@.len() + budget,
            final(self).state@.take(old(self).state@.len() as int) == old(self).state@,
            forall|t: int|
                old(self).state@.len() <= t < final(self).state@.len() ==> old(
                    self,
                ).is_step_prediction(oracle, final(self).state@.take(t), #[trigger] final(self).state@[t]),
            match r {
                Ok(out) => final(self).state@ == old(self).state@ + out@ && out.len() == budget,
                Err(e) => final(self).state@.len() < old(self).state@.len() + budget && old(
                    self,
                ).step_failure(oracle, final(self).state@) == Some(e),
            },
    {
        let mut out: Vec<u8> = Vec::new();
        let ghost start = self.state@;
        let ghost setup = *self;
        while out.len() < budget
            invariant
                self.wf(),
                self.same_setup(&setup),
                setup.same_setup(old(self)),
                start == old(self).state@,
                out.len() <= budget,
                self.state@ == start + out@,
                forall|t: int|
                    start.len() <= t < self.state@.len() ==> setup.is_step_prediction(
                        oracle,
                        self.state@.take(t),
                        #[trigger] self.state@[t],
                    ),
            decreases budget - out.len(),
        {
            let ghost before = self.state@;
            match self.step(oracle) {
                Ok(w) => {
                    out.push(w);
                    proof {
                        assert(self.state@ =~= start + out@);
                        assert(self.state@.take(before.len() as int) =~= before);
                        assert forall|t: int|
                            start.len() <= t < self.state@.len() implies setup.is_step_prediction(
                            oracle,
                            self.state@.take(t),
                            #[trigger] self.state@[t],
                        ) by {
                            if t < before.len() {
                                assert(self.state@.take(t) =~= before.take(t));
                                assert(self.state@[t] == before[t]);
                            }
                        }
                    }
                },
                Err(e) => {
                    proof {
                        assert(self.state@.take(start.len() as int) =~= start);
                    }
                    return Err(e);
                },
            }
        }
        proof {
            assert(self.state@.take(start.len() as int) =~= start);
        }
        Ok(out)
    }
}

/// The windows of a table that fits a corpus lie inside the corpus.
proof fn lemma_table_windows(corpus: Seq<u8>, table: &ContextTable)
    requires
        table.wf(corpus),
    ensures
        windows_inside(corpus, table.contexts@),
{
    assert forall|i: int| 0 <= i < table.contexts.len() implies crate::context::window_inside(
        corpus.len(),
        #[trigger] table.contexts@[i],
    ) by {
        assert(crate::context::target_follows(corpus, table.contexts[i], table.targets[i]));
    }
}

} // verus!
