//! The search for the first chunk of an interrupted upload that is missing.
//!
//! The uploaded chunks form a contiguous prefix, so a few probes per round narrow the
//! range by about their number, instead of one chunk at a time.
use vstd::prelude::*;

verus! {

/// How many probes per round there are.
pub const PROBE_COUNT: u64 = 8;

/// How many probes the range from `lo` to `hi` gets.
pub open spec fn batch_size(lo: int, hi: int) -> int {
    if hi - lo < PROBE_COUNT {
        hi - lo
    } else {
        PROBE_COUNT as int
    }
}

/// Where probe `i` of the range from `lo` to `hi` is.
pub open spec fn probe_at(lo: int, hi: int, i: int) -> int {
    lo + i * (hi - lo) / batch_size(lo, hi)
}

/// What a round of probes leads to.
#[derive(Debug, Clone, Copy, PartialEq, Eq, Structural)]
pub enum SearchStep {
    /// The index of the first absent chunk.
    Found(u64),
    /// It is in this range: the start, the end, and which probe is at the start.
    Between(u64, u64, usize),
}

/// The chunks to look up when the first absent one is between `lo` and `hi`.
pub fn probes(lo: u64, hi: u64) -> (r: Vec<u64>)
    requires
        lo < hi,
        (hi - lo) * PROBE_COUNT <= u64::MAX,
    ensures
        r.len() == batch_size(lo as int, hi as int),
        forall|i: int| 0 <= i < r.len() ==> #[trigger] r[i] == probe_at(lo as int, hi as int, i),
{
    let range: u64 = hi - lo;
    let batch: u64 = if range < PROBE_COUNT { range } else { PROBE_COUNT };
    let mut out: Vec<u64> = Vec::new();
    let mut i: u64 = 0;
    while i < batch
        invariant
            lo < hi,
            range == hi - lo,
            range * PROBE_COUNT <= u64::MAX,
            batch == batch_size(lo as int, hi as int),
            1 <= batch <= PROBE_COUNT,
            i <= batch,
            out.len() == i,
            forall|k: int| 0 <= k < i ==> #[trigger] out[k] == probe_at(lo as int, hi as int, k),
        decreases batch - i,
    {
        proof {
            assert(i * range <= range * PROBE_COUNT) by (nonlinear_arith)
                requires
                    i < PROBE_COUNT,
                    range >= 0,
            ;
            lemma_probe_bounds(lo as int, hi as int, i as int);
        }
        out.push(lo + i * range / batch);
        i += 1;
    }
    out
}

proof fn lemma_probe_bounds(lo: int, hi: int, i: int)
    requires
        lo < hi,
        0 <= i < batch_size(lo, hi),
    ensures
        lo <= probe_at(lo, hi, i) < hi,
        i == 0 ==> probe_at(lo, hi, i) == lo,
        i > 0 ==> probe_at(lo, hi, i - 1) < probe_at(lo, hi, i),
        i > 0 ==> probe_at(lo, hi, i) - probe_at(lo, hi, i - 1) <= (hi - lo) / batch_size(lo, hi) + 1,
        i > 0 ==> probe_at(lo, hi, i) > lo,
{
    let r = hi - lo;
    let b = batch_size(lo, hi);
    let q = r / b;
    // one step of the numerator is `r`, which is between `b * q` and `b * (q + 1)`
    assert(i * r / b >= 0 && i * r / b < r) by (nonlinear_arith)
        requires
            0 <= i < b,
            r >= b,
            b >= 1,
    ;
    if i > 0 {
        assert((i - 1) * r + r == i * r) by (nonlinear_arith);
        let a = (i - 1) * r;
        assert((i - 1) * r / b == a / b);
        assert(i * r / b == (a + r) / b);
        assert((a + r) / b >= a / b + 1) by (nonlinear_arith)
            requires
                r >= b,
                b >= 1,
        ;
        assert((a + r) / b - a / b <= r / b + 1) by (nonlinear_arith)
            requires
                b >= 1,
                r >= 0,
        ;
        assert(a >= 0) by (nonlinear_arith)
            requires
                a == (i - 1) * r,
                i >= 1,
                r >= 0,
        ;
        assert(a / b >= 0) by (nonlinear_arith)
            requires
                a >= 0,
                b >= 1,
        ;
    } else {
        assert(0 * r / b == 0) by (nonlinear_arith)
            requires
                b >= 1,
        ;
    }
}

/// What follows from a round of probes: the first one that is absent, and the last one
/// that is present before it, bound the range.
pub open spec fn narrowed(lo: int, hi: int, flags: Seq<bool>, step: SearchStep) -> bool {
    let b = batch_size(lo, hi);
    if exists|i: int| 0 <= i < b && !(#[trigger] flags[i]) {
        exists|i: int|
            0 <= i < b && !(#[trigger] flags[i]) && (forall|k: int| 0 <= k < i ==> #[trigger] flags[k]) && (if i == 0 {
                step == SearchStep::Found(lo as u64)
            } else {
                step == SearchStep::Between(
                    probe_at(lo, hi, i - 1) as u64,
                    probe_at(lo, hi, i) as u64,
                    (i - 1) as usize,
                )
            })
    } else if probe_at(lo, hi, b - 1) + 1 >= hi {
        step == SearchStep::Found(hi as u64)
    } else {
        step == SearchStep::Between(probe_at(lo, hi, b - 1) as u64, hi as u64, (b - 1) as usize)
    }
}

/// Draws the conclusion from a round of probes: `flags` says of each whether its chunk
/// is present.
pub fn narrow(lo: u64, hi: u64, flags: &[bool]) -> (r: SearchStep)
    requires
        lo < hi,
        (hi - lo) * PROBE_COUNT <= u64::MAX,
        flags.len() == batch_size(lo as int, hi as int),
    ensures
        narrowed(lo as int, hi as int, flags@, r),
{
    let at = probes(lo, hi);
    for i in 0..flags.len()
        invariant
            lo < hi,
            flags.len() == batch_size(lo as int, hi as int),
            at.len() == flags.len(),
            forall|k: int| 0 <= k < at.len() ==> #[trigger] at[k] == probe_at(lo as int, hi as int, k),
            forall|k: int| 0 <= k < i ==> #[trigger] flags[k],
    {
        if !flags[i] {
            proof {
                assert(!flags@[i as int]);
            }
            if i == 0 {
                return SearchStep::Found(lo);
            }
            return SearchStep::Between(at[i - 1], at[i], i - 1);
        }
    }
    let last: u64 = at[at.len() - 1];
    proof {
        lemma_probe_bounds(lo as int, hi as int, flags.len() - 1);
    }
    if last + 1 >= hi {
        return SearchStep::Found(hi);
    }
    SearchStep::Between(last, hi, at.len() - 1)
}

/// When exactly the first `answer` chunks are present, a round of probes either finds
/// it or gives a smaller range that holds it, at most an eighth and one chunk long.
pub proof fn law_search_converges(lo: int, hi: int, answer: int, flags: Seq<bool>, step: SearchStep)
    requires
        0 <= lo <= answer <= hi,
        lo < hi <= u64::MAX,
        flags.len() == batch_size(lo, hi),
        forall|i: int| 0 <= i < flags.len() ==> #[trigger] flags[i] == (probe_at(lo, hi, i) < answer),
        narrowed(lo, hi, flags, step),
    ensures
        match step {
            SearchStep::Found(x) => x == answer,
            SearchStep::Between(a, b, k) => {
                &&& lo <= a <= answer <= b <= hi
                &&& a < b
                &&& b - a < hi - lo
                &&& hi - lo >= PROBE_COUNT ==> b - a <= (hi - lo) / (PROBE_COUNT as int) + 1
                &&& 0 <= k < flags.len()
                &&& a == probe_at(lo, hi, k as int)
            },
        },
{
    let b = batch_size(lo, hi);
    if exists|i: int| 0 <= i < b && !(#[trigger] flags[i]) {
        let i = choose|i: int|
            0 <= i < b && !(#[trigger] flags[i]) && (forall|k: int| 0 <= k < i ==> #[trigger] flags[k]) && (if i == 0 {
                step == SearchStep::Found(lo as u64)
            } else {
                step == SearchStep::Between(
                    probe_at(lo, hi, i - 1) as u64,
                    probe_at(lo, hi, i) as u64,
                    (i - 1) as usize,
                )
            });
        lemma_probe_bounds(lo, hi, i);
        if i > 0 {
            lemma_probe_bounds(lo, hi, i - 1);
            assert(flags[i - 1]);
        }
    } else {
        lemma_probe_bounds(lo, hi, b - 1);
        assert(flags[b - 1]);
        if step is Between {
            assert(b > 1) by {
                if b == 1 {
                    assert(probe_at(lo, hi, 0) == lo);
                }
            }
            lemma_last_probe(lo, hi);
        }
    }
}

proof fn lemma_last_probe(lo: int, hi: int)
    requires
        lo < hi,
    ensures
        hi - probe_at(lo, hi, batch_size(lo, hi) - 1) <= (hi - lo) / batch_size(lo, hi) + 1,
{
    let r = hi - lo;
    let b = batch_size(lo, hi);
    assert((b - 1) * r + r == b * r) by (nonlinear_arith);
    assert(b * r / b == r) by (nonlinear_arith)
        requires
            b >= 1,
    ;
    let a = (b - 1) * r;
    assert((a + r) / b - a / b <= r / b + 1) by (nonlinear_arith)
        requires
            b >= 1,
            r >= 0,
    ;
}

} // verus!
