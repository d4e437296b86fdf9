//! The compressed-length oracle that the distance is built on, the distance
//! of two byte strings under an oracle, and what holds of that distance.

use crate::distance::{lemma_ncd_scaled_lower, longer, ncd, ncd_scaled, shorter, Distance, ONE};
use vstd::prelude::*;

verus! {

/// A compressor, seen only through the length of what it produces. The length
/// is a function of the bytes alone and never exceeds their number.
pub trait CompressionOracle {
    /// The compressed length of `bytes`.
    spec fn spec_compressed_length(&self, bytes: Seq<u8>) -> nat;

    /// Compression never makes a string longer.
    proof fn lemma_never_longer(&self, bytes: Seq<u8>)
        ensures
            self.spec_compressed_length(bytes) <= bytes.len(),
    ;

    /// Computes the compressed length of `bytes`.
    fn compressed_length(&self, bytes: &[u8]) -> (r: usize)
        ensures
            r == self.spec_compressed_length(bytes@),
    ;
}

/// The distance of `x` and `y` under `oracle`:
/// `(C(x·y) - min(C(x), C(y))) / max(C(x), C(y))`.
pub open spec fn context_distance<C: CompressionOracle>(oracle: &C, x: Seq<u8>, y: Seq<u8>) -> Distance {
    ncd(
        oracle.spec_compressed_length(x),
        oracle.spec_compressed_length(y),
        oracle.spec_compressed_length(x + y),
    )
}

/// A string is at distance zero from itself, where the oracle gives the
/// string and its doubling one length and that length is not zero.
pub proof fn lemma_distance_reflexive<C: CompressionOracle>(oracle: &C, x: Seq<u8>)
    requires
        x.len() > 0,
        oracle.spec_compressed_length(x) > 0,
        oracle.spec_compressed_length(x + x) == oracle.spec_compressed_length(x),
    ensures
        context_distance(oracle, x, x) == Distance::Finite(0),
{
    let c = oracle.spec_compressed_length(x);
    assert(ncd_scaled(c, c, c) == 0) by {
        assert((c - c) * ONE == 0);
        assert(0int / (c as int) == 0) by (nonlinear_arith)
            requires
                c > 0,
        ;
    }
}

/// The distance does not depend on the order of its two strings, where the
/// oracle gives both concatenations one length.
pub proof fn lemma_distance_symmetric<C: CompressionOracle>(oracle: &C, x: Seq<u8>, y: Seq<u8>)
    requires
        oracle.spec_compressed_length(x + y) == oracle.spec_compressed_length(y + x),
    ensures
        context_distance(oracle, x, y) == context_distance(oracle, y, x),
{
}

/// The distance lies between zero and one, where the concatenation
/// compresses no better than the better of its parts and no worse than both
/// parts apart.
pub proof fn lemma_distance_bounded<C: CompressionOracle>(oracle: &C, x: Seq<u8>, y: Seq<u8>)
    requires
        longer(oracle.spec_compressed_length(x), oracle.spec_compressed_length(y)) > 0,
        shorter(oracle.spec_compressed_length(x), oracle.spec_compressed_length(y))
            <= oracle.spec_compressed_length(x + y),
        oracle.spec_compressed_length(x + y) <= oracle.spec_compressed_length(x)
            + oracle.spec_compressed_length(y),
    ensures
        context_distance(oracle, x, y) matches Distance::Finite(v) && 0 <= v <= ONE,
{
    let cx = oracle.spec_compressed_length(x);
    let cy = oracle.spec_compressed_length(y);
    let cxy = oracle.spec_compressed_length(x + y);
    lemma_ncd_scaled_lower(cx, cy, cxy);
    let lo = shorter(cx, cy) as int;
    let hi = longer(cx, cy) as int;
    let num = (cxy - lo) * ONE;
    vstd::arithmetic::div_mod::lemma_fundamental_div_mod(num, hi);
    vstd::arithmetic::div_mod::lemma_mod_bound(num, hi);
    let q = num / hi;
    assert(q <= ONE) by (nonlinear_arith)
        requires
            num == hi * q + num % hi,
            0 <= num % hi < hi,
            num <= hi * ONE,
            hi > 0,
    ;
}

/// Under any oracle a finite distance lies between minus one and the number
/// of bytes of the two strings together.
pub proof fn lemma_distance_range<C: CompressionOracle>(oracle: &C, x: Seq<u8>, y: Seq<u8>)
    ensures
        context_distance(oracle, x, y) matches Distance::Finite(v) ==> -ONE <= v <= (x.len()
            + y.len()) * ONE,
{
    let cx = oracle.spec_compressed_length(x);
    let cy = oracle.spec_compressed_length(y);
    let cxy = oracle.spec_compressed_length(x + y);
    oracle.lemma_never_longer(x + y);
    if longer(cx, cy) > 0 {
        lemma_ncd_scaled_lower(cx, cy, cxy);
        let lo = shorter(cx, cy) as int;
        let hi = longer(cx, cy) as int;
        let num = (cxy - lo) * ONE;
        let total = (x.len() + y.len()) as int;
        vstd::arithmetic::div_mod::lemma_fundamental_div_mod(num, hi);
        vstd::arithmetic::div_mod::lemma_mod_bound(num, hi);
        let q = num / hi;
        assert(num <= total * ONE) by (nonlinear_arith)
            requires
                num == (cxy - lo) * ONE,
                cxy <= total,
                lo >= 0,
        ;
        assert(q <= total * ONE) by (nonlinear_arith)
            requires
                num == hi * q + num % hi,
                0 <= num % hi < hi,
                num <= total * ONE,
                total >= 0,
                hi > 0,
        ;
    }
}

/// The number of maximal runs of equal bytes in `s`.
pub open spec fn run_count(s: Seq<u8>) -> nat
    decreases s.len(),
{
    if s.len() == 0 {
        0
    } else if s.len() == 1 || s[s.len() - 1] != s[s.len() - 2] {
        run_count(s.drop_last()) + 1
    } else {
        run_count(s.drop_last())
    }
}

/// There are no more runs than bytes.
pub proof fn lemma_run_count_bound(s: Seq<u8>)
    ensures
        run_count(s) <= s.len(),
    decreases s.len(),
{
    if s.len() > 0 {
        lemma_run_count_bound(s.drop_last());
    }
}

/// A string that is not empty has a run.
pub proof fn lemma_run_count_positive(s: Seq<u8>)
    requires
        s.len() > 0,
    ensures
        run_count(s) > 0,
    decreases s.len(),
{
    if s.len() > 1 {
        lemma_run_count_positive(s.drop_last());
    }
}

/// The runs of a concatenation are the runs of its parts, less one where the
/// last run of the first part goes on in the second.
pub proof fn lemma_run_count_concat(x: Seq<u8>, y: Seq<u8>)
    ensures
        run_count(x + y) == run_count(x) + run_count(y) - (if x.len() > 0 && y.len() > 0 && x.last()
            == y[0] {
            1int
        } else {
            0int
        }),
    decreases y.len(),
{
    if y.len() == 0 {
        assert(x + y =~= x);
    } else {
        let shorter_y = y.drop_last();
        lemma_run_count_concat(x, shorter_y);
        assert((x + y).drop_last() =~= x + shorter_y);
        if y.len() == 1 {
            assert(x + shorter_y =~= x);
            assert(run_count(shorter_y) == 0);
        } else {
            assert(shorter_y[0] == y[0]);
        }
    }
}

/// Under the run-length oracle the distance of two strings, not both empty,
/// lies between zero and one.
pub proof fn lemma_run_length_distance_bounded(oracle: &RunLengthOracle, x: Seq<u8>, y: Seq<u8>)
    requires
        x.len() + y.len() > 0,
    ensures
        context_distance(oracle, x, y) matches Distance::Finite(v) && 0 <= v <= ONE,
{
    lemma_run_count_concat(x, y);
    if x.len() > 0 {
        lemma_run_count_positive(x);
    }
    if y.len() > 0 {
        lemma_run_count_positive(y);
    }
    lemma_distance_bounded(oracle, x, y);
}

/// The host oracle: a run-length coder, whose output is measured in runs.
#[derive(Clone, Copy, Debug)]
pub struct RunLengthOracle;

impl CompressionOracle for RunLengthOracle {
    open spec fn spec_compressed_length(&self, bytes: Seq<u8>) -> nat {
        run_count(bytes)
    }

    proof fn lemma_never_longer(&self, bytes: Seq<u8>) {
        lemma_run_count_bound(bytes);
    }

    fn compressed_length(&self, bytes: &[u8]) -> (r: usize) {
        let mut runs: usize = 0;
        let mut i: usize = 0;
        while i < bytes.len()
            invariant
                i <= bytes.len(),
                runs == run_count(bytes@.take(i as int)),
                runs <= i,
            decreases bytes.len() - i,
        {
            proof {
                let next = bytes@.take(i + 1);
                assert(next.drop_last() == bytes@.take(i as int));
                lemma_run_count_bound(next);
            }
            if i == 0 || bytes[i] != bytes[i - 1] {
                runs += 1;
            }
            i += 1;
        }
        proof {
            assert(bytes@.take(i as int) == bytes@);
        }
        runs
    }
}

} // verus!
