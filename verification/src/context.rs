//! The corpus and the table of contexts cut from it.

use vstd::arithmetic::div_mod::lemma_fundamental_div_mod_converse;
use vstd::prelude::*;
use vstd::slice::slice_subrange;

verus! {

/// A window into a corpus, written `(length, offset)`.
pub type Descriptor = (usize, usize);

/// The window of `d` lies inside a corpus of `corpus_len` bytes.
pub open spec fn window_inside(corpus_len: nat, d: Descriptor) -> bool {
    d.1 + d.0 <= corpus_len
}

/// The bytes that `d` denotes in `corpus`.
pub open spec fn window(corpus: Seq<u8>, d: Descriptor) -> Seq<u8> {
    corpus.subrange(d.1 as int, d.1 + d.0)
}

/// Every full-length window that still has `n_ctx` bytes after its first one,
/// with those following bytes: entry `i` is the descriptor `(n_ctx, i)` and
/// the slice `data[i + 1 .. i + n_ctx + 1]`.
pub fn get_data<'a>(data: &'a Vec<u8>, n_ctx: i64) -> (r: (Vec<Descriptor>, Vec<&'a [u8]>))
    requires
        0 <= n_ctx <= data.len(),
    ensures
        r.0.len() == data.len() - n_ctx,
        r.1.len() == data.len() - n_ctx,
        forall|i: int| 0 <= i < r.0.len() ==> r.0[i] == (n_ctx as usize, i as usize),
        forall|i: int| 0 <= i < r.1.len() ==> (#[trigger] r.1[i])@ == data@.subrange(i + 1, i + n_ctx + 1),
{
    let n: usize = n_ctx as usize;
    let count: usize = data.len() - n;
    let mut x: Vec<Descriptor> = Vec::new();
    let mut y: Vec<&'a [u8]> = Vec::new();
    let mut i: usize = 0;
    while i < count
        invariant
            n == n_ctx,
            count == data.len() - n,
            i <= count,
            x.len() == i,
            y.len() == i,
            forall|j: int| 0 <= j < i ==> x[j] == (n, j as usize),
            forall|j: int| 0 <= j < i ==> (#[trigger] y[j])@ == data@.subrange(j + 1, j + n + 1),
        decreases count - i,
    {
        x.push((n, i));
        y.push(slice_subrange(data.as_slice(), i + 1, i + n + 1));
        i += 1;
    }
    (x, y)
}

/// The byte `t` is the one that follows the window of `d` in `corpus`.
pub open spec fn target_follows(corpus: Seq<u8>, d: Descriptor, t: u8) -> bool {
    d.1 + d.0 < corpus.len() && corpus[d.1 + d.0] == t
}

/// Context `k` of the exhaustive table for windows of at most `n` bytes:
/// position `k / n` of the corpus, prefix length `k % n + 1`.
pub open spec fn exhaustive_context(n: int, k: int) -> Descriptor {
    ((k % n + 1) as usize, (k / n) as usize)
}

/// Contexts and the byte that follows each of them, index by index.
#[derive(Debug)]
pub struct ContextTable {
    pub contexts: Vec<Descriptor>,
    pub targets: Vec<u8>,
}

impl ContextTable {
    /// The two columns have one length, and every target is the byte that
    /// follows its context in `corpus`; so every window lies inside it.
    pub open spec fn wf(&self, corpus: Seq<u8>) -> bool {
        &&& self.contexts.len() == self.targets.len()
        &&& forall|k: int|
            0 <= k < self.contexts.len() ==> target_follows(
                corpus,
                #[trigger] self.contexts[k],
                self.targets[k],
            )
    }

    /// Number of contexts.
    pub fn len(&self) -> (r: usize)
        ensures
            r == self.contexts.len(),
    {
        self.contexts.len()
    }

    /// Whether the table fits `corpus`: see [`ContextTable::wf`].
    pub fn is_valid_for(&self, corpus: &Vec<u8>) -> (r: bool)
        ensures
            r == self.wf(corpus@),
    {
        if self.contexts.len() != self.targets.len() {
            return false;
        }
        let mut k: usize = 0;
        while k < self.contexts.len()
            invariant
                self.contexts.len() == self.targets.len(),
                k <= self.contexts.len(),
                forall|j: int|
                    0 <= j < k ==> target_follows(
                        corpus@,
                        #[trigger] self.contexts[j],
                        self.targets[j],
                    ),
            decreases self.contexts.len() - k,
        {
            let d = self.contexts[k];
            if d.1 >= corpus.len() || d.0 >= corpus.len() - d.1 || corpus[d.1 + d.0]
                != self.targets[k] {
                assert(!target_follows(corpus@, self.contexts[k as int], self.targets[k as int]));
                return false;
            }
            k += 1;
        }
        true
    }
}

/// The exhaustive table: for every position `i` that has `n_ctx` bytes after
/// it, and every prefix length `p` from 1 to `n_ctx`, the context `(p, i)`
/// with target `data[i + p]`, positions in order and lengths in order within
/// a position.
pub fn build_exhaustive(data: &Vec<u8>, n_ctx: i64) -> (r: ContextTable)
    requires
        0 <= n_ctx <= data.len(),
        (data.len() - n_ctx) * n_ctx <= usize::MAX,
    ensures
        r.wf(data@),
        r.contexts.len() == (data.len() - n_ctx) * n_ctx,
        forall|k: int|
            0 <= k < r.contexts.len() ==> #[trigger] r.contexts[k] == exhaustive_context(
                n_ctx as int,
                k,
            ),
        forall|k: int|
            0 <= k < r.targets.len() ==> #[trigger] r.targets[k] == data[k / (n_ctx as int) + k % (
            n_ctx as int) + 1],
{
    let d = get_data(data, n_ctx);
    let n: usize = n_ctx as usize;
    let positions: usize = d.0.len();
    let mut contexts: Vec<Descriptor> = Vec::new();
    let mut targets: Vec<u8> = Vec::new();
    let mut i: usize = 0;
    while i < positions
        invariant
            n == n_ctx,
            n <= data.len(),
            positions == data.len() - n,
            positions * n <= usize::MAX,
            d.0.len() == positions,
            d.1.len() == positions,
            forall|j: int| 0 <= j < positions ==> d.0[j] == (n, j as usize),
            forall|j: int| 0 <= j < positions ==> (#[trigger] d.1[j])@ == data@.subrange(j + 1, j + n + 1),
            i <= positions,
            contexts.len() == i * n,
            targets.len() == i * n,
            forall|k: int|
                0 <= k < contexts.len() ==> #[trigger] contexts[k] == exhaustive_context(
                    n as int,
                    k,
                ),
            forall|k: int|
                0 <= k < targets.len() ==> #[trigger] targets[k] == data[k / (n as int) + k % (
                n as int) + 1],
        decreases positions - i,
    {
        let x = d.0[i];
        let y = d.1[i];
        let mut token_idx: usize = 0;
        while token_idx < n
            invariant
                n <= data.len(),
                positions == data.len() - n,
                positions * n <= usize::MAX,
                i < positions,
                x == (n, i),
                y@ == data@.subrange(i + 1, i + n + 1),
                token_idx <= n,
                contexts.len() == i * n + token_idx,
                targets.len() == i * n + token_idx,
                forall|k: int|
                    0 <= k < contexts.len() ==> #[trigger] contexts[k] == exhaustive_context(
                        n as int,
                        k,
                    ),
                forall|k: int|
                    0 <= k < targets.len() ==> #[trigger] targets[k] == data[k / (n as int) + k % (
                    n as int) + 1],
            decreases n - token_idx,
        {
            proof {
                lemma_fundamental_div_mod_converse(
                    i * n + token_idx,
                    n as int,
                    i as int,
                    token_idx as int,
                );
                assert(i * n + n <= positions * n) by (nonlinear_arith)
                    requires
                        i < positions,
                ;
            }
            let length: usize = if x.0 < token_idx + 1 {
                x.0
            } else {
                token_idx + 1
            };
            contexts.push((length, x.1));
            targets.push(y[token_idx]);
            token_idx += 1;
        }
        proof {
            assert((i + 1) * n == i * n + n) by (nonlinear_arith);
        }
        i += 1;
    }
    let r = ContextTable { contexts, targets };
    proof {
        let nn = n as int;
        assert forall|k: int| 0 <= k < r.contexts.len() implies target_follows(
            data@,
            #[trigger] r.contexts[k],
            r.targets[k],
        ) by {
            lemma_exhaustive_index(positions as int, nn, k);
        }
    }
    r
}

/// The table of a random batch, from the offsets that were drawn: entry `k`
/// is the full-length context `(n, offsets[k])` with target
/// `data[offsets[k] + n]`. An offset is valid when that target exists; with
/// an invalid offset there is no table.
pub fn build_sampled(data: &Vec<u8>, n: usize, offsets: &Vec<usize>) -> (r: Option<ContextTable>)
    ensures
        r is Some <==> forall|k: int| 0 <= k < offsets.len() ==> offsets[k] + n < data.len(),
        r matches Some(t) ==> {
            &&& t.wf(data@)
            &&& t.contexts.len() == offsets.len()
            &&& forall|k: int| 0 <= k < offsets.len() ==> #[trigger] t.contexts[k] == (n, offsets[k])
        },
{
    let mut contexts: Vec<Descriptor> = Vec::new();
    let mut targets: Vec<u8> = Vec::new();
    let mut k: usize = 0;
    while k < offsets.len()
        invariant
            k <= offsets.len(),
            contexts.len() == k,
            targets.len() == k,
            forall|j: int| 0 <= j < k ==> offsets[j] + n < data.len(),
            forall|j: int| 0 <= j < k ==> #[trigger] contexts[j] == (n, offsets[j]),
            forall|j: int| 0 <= j < k ==> #[trigger] targets[j] == data[offsets[j] + n],
        decreases offsets.len() - k,
    {
        let offset = offsets[k];
        if n >= data.len() || offset >= data.len() - n {
            return None;
        }
        contexts.push((n, offset));
        targets.push(data[offset + n]);
        k += 1;
    }
    Some(ContextTable { contexts, targets })
}

/// A flat index below `positions * n` splits into a position below `positions`
/// and a remainder below `n`.
proof fn lemma_exhaustive_index(positions: int, n: int, k: int)
    requires
        0 <= k < positions * n,
        0 <= n,
        0 <= positions,
    ensures
        n > 0,
        0 <= k / n < positions,
        0 <= k % n < n,
{
    assert(n > 0) by (nonlinear_arith)
        requires
            0 <= k < positions * n,
            0 <= n,
    ;
    vstd::arithmetic::div_mod::lemma_fundamental_div_mod(k, n);
    vstd::arithmetic::div_mod::lemma_mod_bound(k, n);
    assert(k / n < positions) by (nonlinear_arith)
        requires
            k == n * (k / n) + k % n,
            0 <= k % n < n,
            k < positions * n,
            n > 0,
    ;
    assert(0 <= k / n) by (nonlinear_arith)
        requires
            k == n * (k / n) + k % n,
            0 <= k % n < n,
            0 <= k,
            n > 0,
    ;
}

} // verus!
