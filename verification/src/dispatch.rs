//! What the host decides around one run of the distance kernel on a compute
//! device: the buffers to transfer, whether one copy can serve both operand
//! slots, the size of the output, the split of an oversized run into chunks
//! of rows, and the reading of the result buffer.

use crate::context::{window_inside, Descriptor};
use crate::distance::{decode_half, half_value, Distance};
use crate::engine::{
    descriptor_range, has_windows_inside, rows_view, same_operands, windows_inside, Operand,
};
use crate::error::Error;
use vstd::prelude::*;

verus! {

/// The largest index the device can hold.
pub const DEVICE_INDEX_MAX: usize = 2_147_483_647;

/// The bytes of a corpus and the windows into it, as the kernel reads them:
/// signed bytes, and 32-bit lengths and offsets.
/// Returns `(chars, lens, offsets)`; a value that does not fit is truncated.
pub fn to_cl(v: &Operand) -> (r: (Vec<i8>, Vec<i32>, Vec<i32>))
    ensures
        r.0.len() == v.0.len(),
        r.1.len() == v.1.len(),
        r.2.len() == v.1.len(),
        forall|i: int| 0 <= i < r.0.len() ==> #[trigger] r.0[i] == v.0[i] as i8,
        forall|i: int| 0 <= i < r.1.len() ==> #[trigger] r.1[i] == v.1[i].0 as i32,
        forall|i: int| 0 <= i < r.2.len() ==> #[trigger] r.2[i] == v.1[i].1 as i32,
{
    let mut strings: Vec<i8> = Vec::new();
    let mut i: usize = 0;
    while i < v.0.len()
        invariant
            i <= v.0.len(),
            strings.len() == i,
            forall|k: int| 0 <= k < i ==> #[trigger] strings[k] == v.0[k] as i8,
        decreases v.0.len() - i,
    {
        strings.push(v.0[i] as i8);
        i += 1;
    }
    let mut lens: Vec<i32> = Vec::new();
    let mut offsets: Vec<i32> = Vec::new();
    let mut j: usize = 0;
    while j < v.1.len()
        invariant
            j <= v.1.len(),
            lens.len() == j,
            offsets.len() == j,
            forall|k: int| 0 <= k < j ==> #[trigger] lens[k] == v.1[k].0 as i32,
            forall|k: int| 0 <= k < j ==> #[trigger] offsets[k] == v.1[k].1 as i32,
        decreases v.1.len() - j,
    {
        let d = v.1[j];
        lens.push(d.0 as i32);
        offsets.push(d.1 as i32);
        j += 1;
    }
    (strings, lens, offsets)
}

/// One operand as it lies in device buffers.
#[derive(Debug)]
pub struct DeviceOperand {
    pub chars: Vec<i8>,
    pub lens: Vec<i32>,
    pub offsets: Vec<i32>,
}

/// The operand can be handed to the device without loss: the corpus is no
/// longer than the largest device index, and every window lies inside it.
pub open spec fn fits_device(corpus: Seq<u8>, descriptors: Seq<Descriptor>) -> bool {
    corpus.len() <= DEVICE_INDEX_MAX && windows_inside(corpus, descriptors)
}

/// `device` holds the operand value for value: every byte with its bits
/// kept, every length and offset as the same number.
pub open spec fn marshaled(corpus: Seq<u8>, descriptors: Seq<Descriptor>, device: DeviceOperand) -> bool {
    &&& device.chars.len() == corpus.len()
    &&& device.lens.len() == descriptors.len()
    &&& device.offsets.len() == descriptors.len()
    &&& forall|i: int| 0 <= i < corpus.len() ==> #[trigger] device.chars[i] == corpus[i] as i8
    &&& forall|i: int| 0 <= i < descriptors.len() ==> #[trigger] device.lens[i] == descriptors[i].0
    &&& forall|i: int|
        0 <= i < descriptors.len() ==> #[trigger] device.offsets[i] == descriptors[i].1
}

/// Whether the operand can be handed to the device without loss.
pub fn operand_fits_device(v: &Operand) -> (r: bool)
    ensures
        r == fits_device(v.0@, v.1@),
{
    v.0.len() <= DEVICE_INDEX_MAX && has_windows_inside(v)
}

/// What one run of the kernel needs from the host.
#[derive(Debug)]
pub struct DispatchPlan {
    /// The buffers of the query set.
    pub queries: DeviceOperand,
    /// The buffers of the reference set; `None` where the query buffers are
    /// bound to both operand slots.
    pub references: Option<DeviceOperand>,
    /// The first global work size: one row for each query.
    pub rows: usize,
    /// The second global work size: one column for each reference.
    pub cols: usize,
    /// The number of entries of the output buffer.
    pub output_len: usize,
}

impl DispatchPlan {
    /// The buffers that the kernel reads its references from.
    pub open spec fn bound_references(&self) -> DeviceOperand {
        match self.references {
            Some(r) => r,
            None => self.queries,
        }
    }
}

/// Why there is no plan for `x` against `y` on a backend that holds at most
/// `capacity` output entries, if there is none.
pub open spec fn plan_failure(
    x_corpus: Seq<u8>,
    x: Seq<Descriptor>,
    y_corpus: Seq<u8>,
    y: Seq<Descriptor>,
    capacity: nat,
) -> Option<Error> {
    if !fits_device(x_corpus, x) || !fits_device(y_corpus, y) {
        Some(Error::InvalidDescriptor)
    } else if x.len() * y.len() > capacity {
        Some(Error::BufferAllocationFailure)
    } else {
        None
    }
}

/// Plans one run of the kernel. Where the operands are the same set, only
/// the query buffers are made, to be bound to both operand slots; the kernel
/// reads the same values from its reference slots either way.
pub fn plan_dispatch(x: &Operand, y: &Operand, capacity: usize) -> (r: Result<DispatchPlan, Error>)
    ensures
        match r {
            Err(e) => plan_failure(x.0@, x.1@, y.0@, y.1@, capacity as nat) == Some(e),
            Ok(plan) => {
                &&& plan_failure(x.0@, x.1@, y.0@, y.1@, capacity as nat) is None
                &&& plan.rows == x.1.len()
                &&& plan.cols == y.1.len()
                &&& plan.output_len == x.1.len() * y.1.len()
                &&& marshaled(x.0@, x.1@, plan.queries)
                &&& marshaled(y.0@, y.1@, plan.bound_references())
                &&& plan.references is None <==> (x.0@ == y.0@ && x.1@ == y.1@)
            },
        },
{
    if !operand_fits_device(x) || !operand_fits_device(y) {
        return Err(Error::InvalidDescriptor);
    }
    let rows = x.1.len();
    let cols = y.1.len();
    let output_len = match rows.checked_mul(cols) {
        Some(n) => n,
        None => {
            return Err(Error::BufferAllocationFailure);
        },
    };
    if output_len > capacity {
        return Err(Error::BufferAllocationFailure);
    }
    let same_vec = same_operands(x, y);
    let (chars, lens, offsets) = to_cl(x);
    let queries = DeviceOperand { chars, lens, offsets };
    proof {
        lemma_marshaled(x.0@, x.1@, queries);
    }
    let references = if same_vec {
        None
    } else {
        let (chars, lens, offsets) = to_cl(y);
        let device = DeviceOperand { chars, lens, offsets };
        proof {
            lemma_marshaled(y.0@, y.1@, device);
        }
        Some(device)
    };
    Ok(DispatchPlan { queries, references, rows, cols, output_len })
}

/// Truncation loses nothing of an operand that fits the device.
proof fn lemma_marshaled(corpus: Seq<u8>, descriptors: Seq<Descriptor>, device: DeviceOperand)
    requires
        fits_device(corpus, descriptors),
        device.chars.len() == corpus.len(),
        device.lens.len() == descriptors.len(),
        device.offsets.len() == descriptors.len(),
        forall|i: int| 0 <= i < corpus.len() ==> #[trigger] device.chars[i] == corpus[i] as i8,
        forall|i: int|
            0 <= i < descriptors.len() ==> #[trigger] device.lens[i] == descriptors[i].0 as i32,
        forall|i: int|
            0 <= i < descriptors.len() ==> #[trigger] device.offsets[i] == descriptors[i].1 as i32,
    ensures
        marshaled(corpus, descriptors, device),
{
    assert forall|i: int| 0 <= i < descriptors.len() implies #[trigger] device.lens[i]
        == descriptors[i].0 by {
        assert(window_inside(corpus.len(), descriptors[i]));
    }
    assert forall|i: int| 0 <= i < descriptors.len() implies #[trigger] device.offsets[i]
        == descriptors[i].1 by {
        assert(window_inside(corpus.len(), descriptors[i]));
    }
}

/// The number of rows of one chunk, where a run of `cols` columns is split
/// for a backend that holds at most `capacity` output entries.
pub open spec fn rows_per_chunk(rows: nat, cols: nat, capacity: nat) -> nat {
    if cols == 0 {
        rows
    } else {
        capacity / cols
    }
}

/// Computes [`rows_per_chunk`]. It is zero where not even one row fits, and
/// where there are no rows and no columns at all.
pub fn rows_in_chunk(rows: usize, cols: usize, capacity: usize) -> (per: usize)
    ensures
        per == rows_per_chunk(rows as nat, cols as nat, capacity as nat),
        per == 0 <==> cols > capacity || (cols == 0 && rows == 0),
        per * cols <= capacity,
{
    if cols == 0 {
        assert(rows * cols == 0) by (nonlinear_arith)
            requires
                cols == 0,
        ;
        rows
    } else {
        let per = capacity / cols;
        assert(per * cols <= capacity && (per == 0 <==> cols > capacity)) by (nonlinear_arith)
            requires
                cols > 0,
                per == capacity / cols,
                capacity >= 0,
        ;
        per
    }
}

/// The rows `[start, end)` of chunk `k`, with `per` rows to a chunk.
pub open spec fn chunk_bounds(rows: nat, per: nat, k: nat) -> (usize, usize) {
    (
        (k * per) as usize,
        (if (k + 1) * per <= rows {
            (k + 1) * per
        } else {
            rows
        }) as usize,
    )
}

/// Splits `rows` rows into consecutive chunks, each as large as the backend
/// can hold and the last one possibly smaller. There is no split where not
/// even one row fits.
pub fn chunk_rows(rows: usize, cols: usize, capacity: usize) -> (r: Option<Vec<(usize, usize)>>)
    ensures
        r is None <==> rows > 0 && cols > capacity,
        r matches Some(chunks) ==> {
            let per = rows_per_chunk(rows as nat, cols as nat, capacity as nat);
            &&& forall|k: int|
                0 <= k < chunks.len() ==> #[trigger] chunks[k] == chunk_bounds(
                    rows as nat,
                    per,
                    k as nat,
                )
            &&& rows == 0 ==> chunks.len() == 0
            &&& rows > 0 ==> per > 0 && (chunks.len() - 1) * per < rows <= chunks.len() * per
            &&& forall|k: int|
                0 <= k < chunks.len() ==> (#[trigger] chunks[k]).0 < chunks[k].1 <= rows && (
                chunks[k].1 - chunks[k].0) * cols <= capacity
        },
{
    let mut chunks: Vec<(usize, usize)> = Vec::new();
    if rows == 0 {
        return Some(chunks);
    }
    let per = rows_in_chunk(rows, cols, capacity);
    if per == 0 {
        return None;
    }
    let mut start: usize = 0;
    assert(chunks.len() * per == 0) by (nonlinear_arith)
        requires
            chunks.len() == 0,
    ;
    while start < rows
        invariant
            per > 0,
            rows > 0,
            per == rows_per_chunk(rows as nat, cols as nat, capacity as nat),
            per * cols <= capacity,
            start <= rows,
            start < rows ==> start == chunks.len() * per,
            start == rows ==> chunks.len() > 0 && (chunks.len() - 1) * per < rows <= chunks.len()
                * per,
            forall|k: int|
                0 <= k < chunks.len() ==> #[trigger] chunks[k] == chunk_bounds(
                    rows as nat,
                    per as nat,
                    k as nat,
                ),
            forall|k: int|
                0 <= k < chunks.len() ==> (#[trigger] chunks[k]).0 < chunks[k].1 <= rows && (
                chunks[k].1 - chunks[k].0) * cols <= capacity,
        decreases rows - start,
    {
        let ghost k = chunks.len() as int;
        let end: usize = if rows - start > per {
            start + per
        } else {
            rows
        };
        proof {
            assert((k + 1) * per == k * per + per) by (nonlinear_arith);
            assert((end - start) * cols <= capacity) by (nonlinear_arith)
                requires
                    0 <= end - start <= per,
                    per * cols <= capacity,
                    cols >= 0,
            ;
        }
        chunks.push((start, end));
        start = end;
    }
    Some(chunks)
}

/// Where the chunk that starts at row `done` ends: after as many rows as the
/// backend can hold, or at the last row.
pub open spec fn chunk_end(rows: nat, cols: nat, capacity: nat, done: nat) -> nat {
    let per = rows_per_chunk(rows, cols, capacity);
    if done + per <= rows {
        done + per
    } else {
        rows
    }
}

/// Why the run that goes on at row `done` has no plan, if it has none.
pub open spec fn next_failure(
    x_corpus: Seq<u8>,
    x: Seq<Descriptor>,
    y_corpus: Seq<u8>,
    y: Seq<Descriptor>,
    capacity: nat,
    done: nat,
) -> Option<Error> {
    if !fits_device(x_corpus, x) || !fits_device(y_corpus, y) {
        Some(Error::InvalidDescriptor)
    } else if done < x.len() && y.len() > capacity {
        Some(Error::BufferAllocationFailure)
    } else {
        None
    }
}

/// Plans the next run of the kernel for `x` against `y`, where the rows
/// before `done` are computed: the rows from `done` on, as many as the
/// backend holds. There is nothing left to run where `done` has reached the
/// number of queries. Plans that follow one another, each from where the
/// last one ended, go through the queries in order, without gap or overlap.
pub fn next_dispatch(x: &Operand, y: &Operand, capacity: usize, done: usize) -> (r: Result<
    Option<DispatchPlan>,
    Error,
>)
    ensures
        match r {
            Err(e) => next_failure(x.0@, x.1@, y.0@, y.1@, capacity as nat, done as nat) == Some(e),
            Ok(None) => {
                &&& next_failure(x.0@, x.1@, y.0@, y.1@, capacity as nat, done as nat) is None
                &&& done >= x.1.len()
            },
            Ok(Some(plan)) => {
                let end = chunk_end(
                    x.1.len() as nat,
                    y.1.len() as nat,
                    capacity as nat,
                    done as nat,
                ) as int;
                &&& next_failure(x.0@, x.1@, y.0@, y.1@, capacity as nat, done as nat) is None
                &&& done < end <= x.1.len()
                &&& plan.rows == end - done
                &&& plan.cols == y.1.len()
                &&& plan.output_len == plan.rows * plan.cols
                &&& plan.output_len <= capacity
                &&& marshaled(x.0@, x.1@.subrange(done as int, end), plan.queries)
                &&& marshaled(y.0@, y.1@, plan.bound_references())
                &&& plan.references is None <==> (x.0@ == y.0@ && x.1@.subrange(done as int, end)
                    == y.1@)
            },
        },
{
    if !operand_fits_device(x) || !operand_fits_device(y) {
        return Err(Error::InvalidDescriptor);
    }
    let rows = x.1.len();
    let cols = y.1.len();
    if done >= rows {
        return Ok(None);
    }
    let per = rows_in_chunk(rows, cols, capacity);
    if per == 0 {
        return Err(Error::BufferAllocationFailure);
    }
    let end: usize = if rows - done > per {
        done + per
    } else {
        rows
    };
    let part = descriptor_range(x.1, done, end);
    proof {
        assert forall|i: int| 0 <= i < part.len() implies window_inside(
            x.0@.len(),
            #[trigger] part@[i],
        ) by {
            assert(part@[i] == x.1@[done + i]);
        }
        assert((end - done) * cols <= capacity) by (nonlinear_arith)
            requires
                0 <= end - done <= per,
                per * cols <= capacity,
                cols >= 0,
        ;
    }
    match plan_dispatch(&(x.0, &part), y, capacity) {
        Ok(plan) => Ok(Some(plan)),
        Err(e) => Err(e),
    }
}

/// The result buffer of a run of `rows` by `cols`, read as a matrix: entry
/// `(i, j)` is the exact value of the half-precision number at `i * cols + j`.
pub open spec fn unpacked(results: Seq<u16>, rows: nat, cols: nat) -> Seq<Seq<Distance>> {
    Seq::new(rows, |i: int| Seq::new(cols, |j: int| half_value(results[i * cols + j])))
}

/// Reads row `i` of a result buffer of `cols` columns.
pub fn unpack_row(results: &Vec<u16>, cols: usize, i: usize) -> (r: Vec<Distance>)
    requires
        (i + 1) * cols <= results.len(),
    ensures
        r.len() == cols,
        forall|j: int| 0 <= j < cols ==> #[trigger] r[j] == half_value(results[i * cols + j]),
{
    assert((i + 1) * cols == i * cols + cols) by (nonlinear_arith);
    let base: usize = i * cols;
    let mut row: Vec<Distance> = Vec::new();
    let mut j: usize = 0;
    while j < cols
        invariant
            base == i * cols,
            base + cols <= results.len(),
            j <= cols,
            row.len() == j,
            forall|k: int| 0 <= k < j ==> #[trigger] row[k] == half_value(results[base + k]),
        decreases cols - j,
    {
        row.push(decode_half(results[base + j]));
        j += 1;
    }
    row
}

/// Reads the result buffer of a run of `rows` by `cols` as a matrix of
/// exactly `rows` rows and `cols` columns.
pub fn unpack_results(results: &Vec<u16>, rows: usize, cols: usize) -> (r: Vec<Vec<Distance>>)
    requires
        results.len() == rows * cols,
    ensures
        r.len() == rows,
        forall|i: int| 0 <= i < rows ==> (#[trigger] r[i]).len() == cols,
        rows_view(r@) == unpacked(results@, rows as nat, cols as nat),
{
    let mut r: Vec<Vec<Distance>> = Vec::new();
    let mut i: usize = 0;
    while i < rows
        invariant
            results.len() == rows * cols,
            i <= rows,
            r.len() == i,
            forall|k: int| 0 <= k < i ==> (#[trigger] r[k])@ == unpacked(
                results@,
                rows as nat,
                cols as nat,
            )[k],
        decreases rows - i,
    {
        assert((i + 1) * cols <= rows * cols) by (nonlinear_arith)
            requires
                i < rows,
        ;
        let row = unpack_row(results, cols, i);
        assert(row@ == unpacked(results@, rows as nat, cols as nat)[i as int]);
        r.push(row);
        i += 1;
    }
    assert(rows_view(r@) == unpacked(results@, rows as nat, cols as nat));
    assert forall|i: int| 0 <= i < rows implies (#[trigger] r[i]).len() == cols by {
        assert(r[i]@ == unpacked(results@, rows as nat, cols as nat)[i]);
    }
    r
}

} // verus!
