//! The distance engine on the host: the matrix of distances between a query
//! set and a reference set of contexts, under a compressed-length oracle.

use crate::context::{target_follows, window, window_inside, ContextTable, Descriptor};
use crate::dispatch::{chunk_bounds, chunk_rows, rows_per_chunk};
use crate::distance::{longer, ncd_from_lengths, ncd_scaled, shorter, Distance, ONE};
use crate::error::Error;
use crate::oracle::{context_distance, CompressionOracle};
use vstd::prelude::*;
use vstd::slice::slice_subrange;

verus! {

/// A set of contexts: a corpus and the descriptors that point into it.
pub type Operand<'a> = (&'a Vec<u8>, &'a Vec<Descriptor>);

/// Every window of `descriptors` lies inside `corpus`.
pub open spec fn windows_inside(corpus: Seq<u8>, descriptors: Seq<Descriptor>) -> bool {
    forall|i: int|
        0 <= i < descriptors.len() ==> window_inside(corpus.len(), #[trigger] descriptors[i])
}

/// The matrix of distances: row `i`, column `j` holds the distance of query
/// `i` and reference `j`.
pub open spec fn ncd_matrix<C: CompressionOracle>(
    oracle: &C,
    query_corpus: Seq<u8>,
    queries: Seq<Descriptor>,
    reference_corpus: Seq<u8>,
    references: Seq<Descriptor>,
) -> Seq<Seq<Distance>> {
    Seq::new(
        queries.len(),
        |i: int|
            Seq::new(
                references.len(),
                |j: int|
                    context_distance(
                        oracle,
                        window(query_corpus, queries[i]),
                        window(reference_corpus, references[j]),
                    ),
            ),
    )
}

/// A matrix held as a vector of rows, as a sequence of sequences.
pub open spec fn rows_view(m: Seq<Vec<Distance>>) -> Seq<Seq<Distance>> {
    Seq::new(m.len(), |i: int| m[i]@)
}

/// Whether every window of an operand lies inside its corpus.
pub fn has_windows_inside(v: &Operand) -> (r: bool)
    ensures
        r == windows_inside(v.0@, v.1@),
{
    let mut i: usize = 0;
    while i < v.1.len()
        invariant
            i <= v.1.len(),
            forall|k: int| 0 <= k < i ==> window_inside(v.0.len() as nat, #[trigger] v.1[k]),
        decreases v.1.len() - i,
    {
        let d = v.1[i];
        if d.1 > v.0.len() || d.0 > v.0.len() - d.1 {
            assert(!window_inside(v.0.len() as nat, v.1[i as int]));
            return false;
        }
        i += 1;
    }
    true
}

/// The context compresses to nothing, so that its distance from another
/// such context is no number.
pub open spec fn is_degenerate<C: CompressionOracle>(oracle: &C, corpus: Seq<u8>, d: Descriptor) -> bool {
    oracle.spec_compressed_length(window(corpus, d)) == 0
}

/// The first `n` entries of a table without the degenerate ones, in order.
pub open spec fn sound_entries<C: CompressionOracle>(
    oracle: &C,
    corpus: Seq<u8>,
    contexts: Seq<Descriptor>,
    targets: Seq<u8>,
    n: nat,
) -> Seq<(Descriptor, u8)>
    decreases n,
{
    if n == 0 {
        Seq::empty()
    } else {
        let rest = sound_entries(oracle, corpus, contexts, targets, (n - 1) as nat);
        if is_degenerate(oracle, corpus, contexts[n - 1]) {
            rest
        } else {
            rest.push((contexts[n - 1], targets[n - 1]))
        }
    }
}

/// The entries of a table, context and target side by side.
pub open spec fn entries(table: &ContextTable) -> Seq<(Descriptor, u8)> {
    Seq::new(table.contexts.len() as nat, |k: int| (table.contexts[k], table.targets[k]))
}

/// The table without its degenerate contexts: what is left, in the order it
/// had, can be indexed without a division by zero.
pub fn drop_degenerate<C: CompressionOracle>(oracle: &C, corpus: &Vec<u8>, table: &ContextTable) -> (r:
    ContextTable)
    requires
        table.wf(corpus@),
    ensures
        r.wf(corpus@),
        entries(&r) == sound_entries(
            oracle,
            corpus@,
            table.contexts@,
            table.targets@,
            table.contexts.len() as nat,
        ),
        forall|k: int|
            0 <= k < r.contexts.len() ==> !is_degenerate(oracle, corpus@, #[trigger] r.contexts[k]),
{
    let mut contexts: Vec<Descriptor> = Vec::new();
    let mut targets: Vec<u8> = Vec::new();
    let mut k: usize = 0;
    while k < table.contexts.len()
        invariant
            table.wf(corpus@),
            k <= table.contexts.len(),
            contexts.len() == targets.len(),
            Seq::new(contexts.len() as nat, |j: int| (contexts[j], targets[j])) == sound_entries(
                oracle,
                corpus@,
                table.contexts@,
                table.targets@,
                k as nat,
            ),
            forall|j: int|
                0 <= j < contexts.len() ==> target_follows(
                    corpus@,
                    #[trigger] contexts[j],
                    targets[j],
                ),
            forall|j: int|
                0 <= j < contexts.len() ==> !is_degenerate(oracle, corpus@, #[trigger] contexts[j]),
        decreases table.contexts.len() - k,
    {
        let d = table.contexts[k];
        assert(target_follows(corpus@, table.contexts[k as int], table.targets[k as int]));
        let ghost kept = Seq::new(contexts.len() as nat, |j: int| (contexts[j], targets[j]));
        assert(d.1 + d.0 < corpus.len());
        let bytes = slice_subrange(corpus.as_slice(), d.1, d.1 + d.0);
        if oracle.compressed_length(bytes) != 0 {
            contexts.push(d);
            targets.push(table.targets[k]);
            assert(Seq::new(contexts.len() as nat, |j: int| (contexts[j], targets[j]))
                =~= kept.push((d, table.targets[k as int])));
        }
        k += 1;
    }
    ContextTable { contexts, targets }
}

/// The distance of two strings is a number, where one of them compresses to
/// something and the two together have fewer than 2^39 bytes.
pub proof fn lemma_sound_distance<C: CompressionOracle>(oracle: &C, x: Seq<u8>, y: Seq<u8>)
    requires
        oracle.spec_compressed_length(x) > 0 || oracle.spec_compressed_length(y) > 0,
        (x.len() + y.len()) * ONE <= i64::MAX,
    ensures
        context_distance(oracle, x, y) is Finite,
{
    let cx = oracle.spec_compressed_length(x);
    let cy = oracle.spec_compressed_length(y);
    let cxy = oracle.spec_compressed_length(x + y);
    oracle.lemma_never_longer(x + y);
    let lo = shorter(cx, cy) as int;
    let hi = longer(cx, cy) as int;
    let num = (cxy - lo) * ONE;
    let total = (x.len() + y.len()) as int;
    vstd::arithmetic::div_mod::lemma_fundamental_div_mod(num, hi);
    vstd::arithmetic::div_mod::lemma_mod_bound(num, hi);
    let q = num / hi;
    assert(num <= total * ONE) by (nonlinear_arith)
        requires
            num == (cxy - lo) * ONE,
            cxy <= total,
            lo >= 0,
    ;
    assert(q <= total * ONE) by (nonlinear_arith)
        requires
            num == hi * q + num % hi,
            0 <= num % hi < hi,
            num <= total * ONE,
            total >= 0,
            hi > 0,
    ;
    assert(ncd_scaled(cx, cy, cxy) == q);
}

/// Whether two operands are the same set: byte for byte the same corpus and
/// descriptor for descriptor the same windows.
pub fn same_operands(x: &Operand, y: &Operand) -> (r: bool)
    ensures
        r == (x.0@ == y.0@ && x.1@ == y.1@),
{
    if x.0.len() != y.0.len() || x.1.len() != y.1.len() {
        return false;
    }
    let mut i: usize = 0;
    while i < x.0.len()
        invariant
            x.0.len() == y.0.len(),
            i <= x.0.len(),
            forall|k: int| 0 <= k < i ==> x.0[k] == y.0[k],
        decreases x.0.len() - i,
    {
        if x.0[i] != y.0[i] {
            return false;
        }
        i += 1;
    }
    let mut j: usize = 0;
    while j < x.1.len()
        invariant
            x.1.len() == y.1.len(),
            j <= x.1.len(),
            x.0@ =~= y.0@,
            forall|k: int| 0 <= k < j ==> x.1[k] == y.1[k],
        decreases x.1.len() - j,
    {
        let a = x.1[j];
        let b = y.1[j];
        if a.0 != b.0 || a.1 != b.1 {
            return false;
        }
        j += 1;
    }
    assert(x.1@ =~= y.1@);
    true
}

/// The compressed length of every context of an operand.
fn single_lengths<C: CompressionOracle>(oracle: &C, corpus: &Vec<u8>, descriptors: &Vec<Descriptor>) -> (r:
    Vec<usize>)
    requires
        windows_inside(corpus@, descriptors@),
    ensures
        r.len() == descriptors.len(),
        forall|i: int|
            0 <= i < r.len() ==> #[trigger] r[i] == oracle.spec_compressed_length(
                window(corpus@, descriptors[i]),
            ),
{
    let mut r: Vec<usize> = Vec::new();
    let mut i: usize = 0;
    while i < descriptors.len()
        invariant
            windows_inside(corpus@, descriptors@),
            i <= descriptors.len(),
            r.len() == i,
            forall|k: int|
                0 <= k < i ==> #[trigger] r[k] == oracle.spec_compressed_length(
                    window(corpus@, descriptors[k]),
                ),
        decreases descriptors.len() - i,
    {
        let d = descriptors[i];
        assert(window_inside(corpus.len() as nat, descriptors@[i as int]));
        let bytes = slice_subrange(corpus.as_slice(), d.1, d.1 + d.0);
        r.push(oracle.compressed_length(bytes));
        i += 1;
    }
    r
}

/// Appends the bytes of one window to `out`.
fn append_window(corpus: &Vec<u8>, d: Descriptor, out: &mut Vec<u8>)
    requires
        window_inside(corpus.len() as nat, d),
    ensures
        final(out)@ == old(out)@ + window(corpus@, d),
{
    let mut k: usize = 0;
    while k < d.0
        invariant
            window_inside(corpus.len() as nat, d),
            k <= d.0,
            out@ == old(out)@ + corpus@.subrange(d.1 as int, d.1 + k),
        decreases d.0 - k,
    {
        out.push(corpus[d.1 + k]);
        k += 1;
        assert(corpus@.subrange(d.1 as int, d.1 + k) == corpus@.subrange(
            d.1 as int,
            d.1 + k - 1,
        ).push(corpus@[d.1 + k - 1]));
    }
}

/// The distances of every query to every reference, from the compressed
/// lengths of the single contexts and one call of the oracle per pair.
fn pair_matrix<C: CompressionOracle>(
    oracle: &C,
    x: &Operand,
    lengths_x: &Vec<usize>,
    y: &Operand,
    lengths_y: &Vec<usize>,
) -> (r: Vec<Vec<Distance>>)
    requires
        windows_inside(x.0@, x.1@),
        windows_inside(y.0@, y.1@),
        lengths_x.len() == x.1.len(),
        lengths_y.len() == y.1.len(),
        forall|i: int|
            0 <= i < lengths_x.len() ==> #[trigger] lengths_x[i] == oracle.spec_compressed_length(
                window(x.0@, x.1[i]),
            ),
        forall|j: int|
            0 <= j < lengths_y.len() ==> #[trigger] lengths_y[j] == oracle.spec_compressed_length(
                window(y.0@, y.1[j]),
            ),
    ensures
        rows_view(r@) == ncd_matrix(oracle, x.0@, x.1@, y.0@, y.1@),
{
    let rows = x.1.len();
    let cols = y.1.len();
    let ghost want = ncd_matrix(oracle, x.0@, x.1@, y.0@, y.1@);
    let mut r: Vec<Vec<Distance>> = Vec::new();
    let mut i: usize = 0;
    while i < rows
        invariant
            windows_inside(x.0@, x.1@),
            windows_inside(y.0@, y.1@),
            rows == x.1.len(),
            cols == y.1.len(),
            lengths_x.len() == rows,
            lengths_y.len() == cols,
            forall|i: int|
                0 <= i < lengths_x.len() ==> #[trigger] lengths_x[i]
                    == oracle.spec_compressed_length(window(x.0@, x.1[i])),
            forall|j: int|
                0 <= j < lengths_y.len() ==> #[trigger] lengths_y[j]
                    == oracle.spec_compressed_length(window(y.0@, y.1[j])),
            want == ncd_matrix(oracle, x.0@, x.1@, y.0@, y.1@),
            i <= rows,
            r.len() == i,
            forall|k: int| 0 <= k < i ==> (#[trigger] r[k])@ == want[k],
        decreases rows - i,
    {
        let mut row: Vec<Distance> = Vec::new();
        let mut j: usize = 0;
        while j < cols
            invariant
                windows_inside(x.0@, x.1@),
                windows_inside(y.0@, y.1@),
                rows == x.1.len(),
                cols == y.1.len(),
                lengths_x.len() == rows,
                lengths_y.len() == cols,
                forall|i: int|
                    0 <= i < lengths_x.len() ==> #[trigger] lengths_x[i]
                        == oracle.spec_compressed_length(window(x.0@, x.1[i])),
                forall|j: int|
                    0 <= j < lengths_y.len() ==> #[trigger] lengths_y[j]
                        == oracle.spec_compressed_length(window(y.0@, y.1[j])),
                want == ncd_matrix(oracle, x.0@, x.1@, y.0@, y.1@),
                i < rows,
                j <= cols,
                row.len() == j,
                forall|k: int| 0 <= k < j ==> #[trigger] row[k] == want[i as int][k],
            decreases cols - j,
        {
            let mut joined: Vec<u8> = Vec::new();
            append_window(x.0, x.1[i], &mut joined);
            append_window(y.0, y.1[j], &mut joined);
            assert(joined@ == window(x.0@, x.1[i as int]) + window(y.0@, y.1[j as int]));
            let both = oracle.compressed_length(joined.as_slice());
            row.push(ncd_from_lengths(lengths_x[i], lengths_y[j], both));
            j += 1;
        }
        assert(row@ == want[i as int]);
        r.push(row);
        i += 1;
    }
    assert(rows_view(r@) == want);
    r
}

/// The distance matrix of the queries `x` against the references `y`, always
/// of `x.1.len()` rows and `y.1.len()` columns. Where the two operands are
/// the same set, the lengths of the single contexts are computed once and
/// serve both sides.
pub fn get_ncds<C: CompressionOracle>(oracle: &C, x: Operand, y: Operand) -> (r: Vec<Vec<Distance>>)
    requires
        windows_inside(x.0@, x.1@),
        windows_inside(y.0@, y.1@),
    ensures
        rows_view(r@) == ncd_matrix(oracle, x.0@, x.1@, y.0@, y.1@),
        r.len() == x.1.len(),
        forall|i: int| 0 <= i < r.len() ==> (#[trigger] r[i]).len() == y.1.len(),
{
    let same_vec = same_operands(&x, &y);
    let lengths_x = single_lengths(oracle, x.0, x.1);
    let r = if same_vec {
        pair_matrix(oracle, &x, &lengths_x, &x, &lengths_x)
    } else {
        let lengths_y = single_lengths(oracle, y.0, y.1);
        pair_matrix(oracle, &x, &lengths_x, &y, &lengths_y)
    };
    proof {
        lemma_matrix_shape(oracle, r@, x.0@, x.1@, y.0@, y.1@);
    }
    r
}

/// The same matrix as [`get_ncds`] gives, computed without regard to
/// whether the two operands are the same set.
pub fn get_ncds_two_sets<C: CompressionOracle>(oracle: &C, x: Operand, y: Operand) -> (r: Vec<
    Vec<Distance>,
>)
    requires
        windows_inside(x.0@, x.1@),
        windows_inside(y.0@, y.1@),
    ensures
        rows_view(r@) == ncd_matrix(oracle, x.0@, x.1@, y.0@, y.1@),
        r.len() == x.1.len(),
        forall|i: int| 0 <= i < r.len() ==> (#[trigger] r[i]).len() == y.1.len(),
{
    let lengths_x = single_lengths(oracle, x.0, x.1);
    let lengths_y = single_lengths(oracle, y.0, y.1);
    let r = pair_matrix(oracle, &x, &lengths_x, &y, &lengths_y);
    proof {
        lemma_matrix_shape(oracle, r@, x.0@, x.1@, y.0@, y.1@);
    }
    r
}

/// Where the references are the same set as the queries, the matrix that
/// is computed with the queries in both places is the matrix that is
/// computed from the two sets apart.
pub proof fn lemma_same_set_paths_agree<C: CompressionOracle>(
    oracle: &C,
    query_corpus: Seq<u8>,
    queries: Seq<Descriptor>,
    reference_corpus: Seq<u8>,
    references: Seq<Descriptor>,
    shared: Seq<Vec<Distance>>,
    apart: Seq<Vec<Distance>>,
)
    requires
        query_corpus == reference_corpus,
        queries == references,
        rows_view(shared) == ncd_matrix(oracle, query_corpus, queries, query_corpus, queries),
        rows_view(apart) == ncd_matrix(
            oracle,
            query_corpus,
            queries,
            reference_corpus,
            references,
        ),
    ensures
        rows_view(shared) == rows_view(apart),
{
}

/// The descriptors `start..end` of a set: the queries of one chunk of rows.
pub fn descriptor_range(descriptors: &Vec<Descriptor>, start: usize, end: usize) -> (part: Vec<
    Descriptor,
>)
    requires
        start <= end <= descriptors.len(),
    ensures
        part@ == descriptors@.subrange(start as int, end as int),
{
    let mut part: Vec<Descriptor> = Vec::new();
    let mut i: usize = start;
    while i < end
        invariant
            start <= i <= end <= descriptors.len(),
            part@ == descriptors@.subrange(start as int, i as int),
        decreases end - i,
    {
        part.push(descriptors[i]);
        i += 1;
        assert(descriptors@.subrange(start as int, i as int) == descriptors@.subrange(
            start as int,
            i - 1,
        ).push(descriptors@[i - 1]));
    }
    part
}

/// Splitting the queries into two consecutive ranges and putting the two
/// matrices one after the other gives the matrix of the whole range.
pub proof fn lemma_chunks_concatenate<C: CompressionOracle>(
    oracle: &C,
    query_corpus: Seq<u8>,
    queries: Seq<Descriptor>,
    reference_corpus: Seq<u8>,
    references: Seq<Descriptor>,
    a: int,
    b: int,
    c: int,
)
    requires
        0 <= a <= b <= c <= queries.len(),
    ensures
        ncd_matrix(oracle, query_corpus, queries.subrange(a, b), reference_corpus, references)
            + ncd_matrix(oracle, query_corpus, queries.subrange(b, c), reference_corpus, references)
            == ncd_matrix(
            oracle,
            query_corpus,
            queries.subrange(a, c),
            reference_corpus,
            references,
        ),
{
    let first = ncd_matrix(oracle, query_corpus, queries.subrange(a, b), reference_corpus, references);
    let second = ncd_matrix(
        oracle,
        query_corpus,
        queries.subrange(b, c),
        reference_corpus,
        references,
    );
    let whole = ncd_matrix(oracle, query_corpus, queries.subrange(a, c), reference_corpus, references);
    assert forall|i: int| 0 <= i < whole.len() implies (first + second)[i] == whole[i] by {
        if i < b - a {
            assert(queries.subrange(a, b)[i] == queries.subrange(a, c)[i]);
        } else {
            assert(queries.subrange(b, c)[i - (b - a)] == queries.subrange(a, c)[i]);
        }
    }
    assert(first + second =~= whole);
}

/// The matrix of [`get_ncds`], computed chunk of rows by chunk of rows so
/// that no single run produces more than `capacity` entries. The split does
/// not show in the result. There is no matrix where not even one row fits.
pub fn get_ncds_chunked<C: CompressionOracle>(oracle: &C, x: Operand, y: Operand, capacity: usize) -> (r:
    Result<Vec<Vec<Distance>>, Error>)
    requires
        windows_inside(x.0@, x.1@),
        windows_inside(y.0@, y.1@),
    ensures
        r is Err <==> x.1.len() > 0 && y.1.len() > capacity,
        r matches Err(e) ==> e == Error::BufferAllocationFailure,
        r matches Ok(m) ==> rows_view(m@) == ncd_matrix(oracle, x.0@, x.1@, y.0@, y.1@),
{
    let rows = x.1.len();
    let chunks = match chunk_rows(rows, y.1.len(), capacity) {
        Some(chunks) => chunks,
        None => {
            return Err(Error::BufferAllocationFailure);
        },
    };
    let ghost per = rows_per_chunk(rows as nat, y.1.len() as nat, capacity as nat);
    let ghost whole = ncd_matrix(oracle, x.0@, x.1@, y.0@, y.1@);
    let mut result: Vec<Vec<Distance>> = Vec::new();
    let mut k: usize = 0;
    while k < chunks.len()
        invariant
            windows_inside(x.0@, x.1@),
            windows_inside(y.0@, y.1@),
            rows == x.1.len(),
            whole == ncd_matrix(oracle, x.0@, x.1@, y.0@, y.1@),
            forall|j: int|
                0 <= j < chunks.len() ==> #[trigger] chunks[j] == chunk_bounds(
                    rows as nat,
                    per,
                    j as nat,
                ),
            rows == 0 ==> chunks.len() == 0,
            rows > 0 ==> per > 0 && (chunks.len() - 1) * per < rows <= chunks.len() * per,
            k <= chunks.len(),
            k < chunks.len() ==> result.len() == k * per,
            k == chunks.len() ==> result.len() == rows,
            forall|i: int| 0 <= i < result.len() ==> (#[trigger] result[i])@ == whole[i],
        decreases chunks.len() - k,
    {
        let (start, end) = chunks[k];
        proof {
            assert(chunks[k as int] == chunk_bounds(rows as nat, per, k as nat));
            assert((k + 1) * per == k * per + per) by (nonlinear_arith);
            if k + 1 < chunks.len() {
                assert((k + 1) * per <= (chunks.len() - 1) * per) by (nonlinear_arith)
                    requires
                        k + 1 <= chunks.len() - 1,
                        per >= 0,
                ;
            } else {
                assert(k * per == (chunks.len() - 1) * per);
            }
            assert(start == k * per);
            assert(start <= end <= rows);
        }
        let part = descriptor_range(x.1, start, end);
        proof {
            assert forall|j: int| 0 <= j < part.len() implies window_inside(
                x.0@.len(),
                #[trigger] part@[j],
            ) by {
                assert(part@[j] == x.1@[start + j]);
            }
        }
        let mut rows_of_chunk = get_ncds(oracle, (x.0, &part), y);
        proof {
            let sub = ncd_matrix(oracle, x.0@, part@, y.0@, y.1@);
            assert forall|i: int| 0 <= i < rows_of_chunk.len() implies (
            #[trigger] rows_of_chunk[i])@ == whole[start + i] by {
                assert(rows_view(rows_of_chunk@)[i] == sub[i]);
                assert(part@[i] == x.1@[start + i]);
                assert(sub[i] =~= whole[start + i]);
            }
        }
        result.append(&mut rows_of_chunk);
        k += 1;
    }
    assert(rows_view(result@) =~= whole);
    Ok(result)
}

/// A matrix that equals the distance matrix has its shape.
proof fn lemma_matrix_shape<C: CompressionOracle>(
    oracle: &C,
    m: Seq<Vec<Distance>>,
    query_corpus: Seq<u8>,
    queries: Seq<Descriptor>,
    reference_corpus: Seq<u8>,
    references: Seq<Descriptor>,
)
    requires
        rows_view(m) == ncd_matrix(oracle, query_corpus, queries, reference_corpus, references),
    ensures
        m.len() == queries.len(),
        forall|i: int| 0 <= i < m.len() ==> (#[trigger] m[i]).len() == references.len(),
{
    let want = ncd_matrix(oracle, query_corpus, queries, reference_corpus, references);
    assert(rows_view(m).len() == want.len());
    assert forall|i: int| 0 <= i < m.len() implies (#[trigger] m[i]).len() == references.len() by {
        assert(rows_view(m)[i] == want[i]);
    }
}

} // verus!
