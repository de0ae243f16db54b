use vstd::prelude::*;

verus! {

use vstd::arithmetic::div_mod::{
    lemma_div_is_ordered, lemma_div_multiples_vanish, lemma_multiply_divide_le,
};

/// Largest difference, on each channel, between a column and the first
/// column of its run for the column to join the run.
pub const COMPRESSION_DIFF: u8 = 16;

/// A run of `n` terminal cells drawn in one colour pair: `d.0` for the upper
/// half of each cell, `d.1` for the lower half.
#[derive(Clone, Copy, Debug, PartialEq, Eq)]
pub struct RleChunk {
    pub n: usize,
    pub d: (u8, u8),
}

/// The two-channel samples of a row pair: the top row's value and the bottom
/// row's value in each column, the bottom one 0 where there is no bottom row.
pub open spec fn samples(top: Seq<u8>, bottom: Option<Seq<u8>>) -> Seq<(u8, u8)> {
    Seq::new(
        top.len(),
        |i: int|
            (
                top[i],
                match bottom {
                    Some(b) => b[i],
                    None => 0u8,
                },
            ),
    )
}

pub open spec fn abs_diff(a: u8, b: u8) -> int {
    if a < b { b - a } else { a - b }
}

/// Sample `a` may join a run whose first sample is `base`.
pub open spec fn close(a: (u8, u8), base: (u8, u8)) -> bool {
    abs_diff(a.0, base.0) <= COMPRESSION_DIFF && abs_diff(a.1, base.1) <= COMPRESSION_DIFF
}

/// Column at which chunk `k` starts: the sum of the lengths before it.
pub open spec fn run_start(c: Seq<RleChunk>, k: int) -> int
    decreases k,
{
    if k <= 0 { 0 } else { run_start(c, k - 1) + c[k - 1].n }
}

/// Sum of the top channel over columns `lo .. hi`.
pub open spec fn sum_top(s: Seq<(u8, u8)>, lo: int, hi: int) -> int
    decreases hi - lo,
{
    if hi <= lo { 0 } else { sum_top(s, lo, hi - 1) + s[hi - 1].0 }
}

/// Sum of the bottom channel over columns `lo .. hi`.
pub open spec fn sum_bottom(s: Seq<(u8, u8)>, lo: int, hi: int) -> int
    decreases hi - lo,
{
    if hi <= lo { 0 } else { sum_bottom(s, lo, hi - 1) + s[hi - 1].1 }
}

/// Chunk `k` of `c` is a run of the samples `s`: it is not empty, every
/// sample in it is close to the run's first sample, and its colour is the
/// truncated average of its samples.
pub open spec fn chunk_fits(c: Seq<RleChunk>, s: Seq<(u8, u8)>, k: int) -> bool {
    let st = run_start(c, k);
    &&& c[k].n >= 1
    &&& forall|j: int| st <= j < st + c[k].n ==> close(#[trigger] s[j], s[st])
    &&& c[k].d.0 == sum_top(s, st, st + c[k].n) / (c[k].n as int)
    &&& c[k].d.1 == sum_bottom(s, st, st + c[k].n) / (c[k].n as int)
}

/// The sample that opens run `k` is not close to the one that opened run
/// `k - 1`.
pub open spec fn run_breaks(c: Seq<RleChunk>, s: Seq<(u8, u8)>, k: int) -> bool {
    !close(s[run_start(c, k)], s[run_start(c, k - 1)])
}

/// `c` is the run-length encoding of `s`: its runs cover `s` from left to
/// right, each run ends exactly where a sample is no longer close to the run's
/// first sample, and each run carries its average colour.
pub open spec fn is_rle_of(c: Seq<RleChunk>, s: Seq<(u8, u8)>) -> bool {
    &&& run_start(c, c.len() as int) == s.len()
    &&& forall|k: int| 0 <= k < c.len() ==> #[trigger] chunk_fits(c, s, k)
    &&& forall|k: int| 1 <= k < c.len() ==> #[trigger] run_breaks(c, s, k)
}

proof fn lemma_run_start_push(c: Seq<RleChunk>, x: RleChunk, k: int)
    requires
        0 <= k <= c.len(),
    ensures
        run_start(c.push(x), k) == run_start(c, k),
    decreases k,
{
    if k > 0 {
        lemma_run_start_push(c, x, k - 1);
    }
}

proof fn lemma_sum_bound(s: Seq<(u8, u8)>, lo: int, hi: int)
    requires
        lo <= hi,
    ensures
        0 <= sum_top(s, lo, hi) <= 255 * (hi - lo),
        0 <= sum_bottom(s, lo, hi) <= 255 * (hi - lo),
    decreases hi - lo,
{
    if lo < hi {
        lemma_sum_bound(s, lo, hi - 1);
    }
}

fn close_to(a: (u8, u8), base: (u8, u8)) -> (r: bool)
    ensures
        r == close(a, base),
{
    let d0 = if a.0 < base.0 { base.0 - a.0 } else { a.0 - base.0 };
    let d1 = if a.1 < base.1 { base.1 - a.1 } else { a.1 - base.1 };
    d0 <= COMPRESSION_DIFF && d1 <= COMPRESSION_DIFF
}

fn average(acc: u128, n: usize) -> (r: u8)
    requires
        n >= 1,
        acc <= 255 * n,
    ensures
        r == (acc as int) / (n as int),
{
    proof {
        lemma_multiply_divide_le(acc as int, n as int, 255);
    }
    (acc / (n as u128)) as u8
}

pub open spec fn bottom_view(bottom: Option<&Vec<u8>>) -> Option<Seq<u8>> {
    match bottom {
        Some(b) => Some(b@),
        None => None,
    }
}

fn sample_at(top: &Vec<u8>, bottom: Option<&Vec<u8>>, i: usize) -> (r: (u8, u8))
    requires
        i < top@.len(),
        match bottom {
            Some(b) => b@.len() == top@.len(),
            None => true,
        },
    ensures
        r == samples(top@, bottom_view(bottom))[i as int],
{
    match bottom {
        Some(b) => (top[i], b[i]),
        None => (top[i], 0),
    }
}

/// Compresses one pair of rows into runs of near-equal colour pairs. A
/// column joins the open run while both of its channels are within
/// `COMPRESSION_DIFF` of the run's first column; otherwise the run is closed
/// with its average colour and the column opens the next one. An empty row
/// gives no runs.
pub fn rle_row(top: &Vec<u8>, bottom: Option<&Vec<u8>>) -> (r: Vec<RleChunk>)
    requires
        match bottom {
            Some(b) => b@.len() == top@.len(),
            None => true,
        },
    ensures
        is_rle_of(r@, samples(top@, bottom_view(bottom))),
{
    let ghost s = samples(top@, bottom_view(bottom));
    let w = top.len();
    let mut out: Vec<RleChunk> = Vec::new();
    if w == 0 {
        return out;
    }
    let first = sample_at(top, bottom, 0);
    let mut base = first;
    let mut n: usize = 1;
    let mut acc0: u128 = first.0 as u128;
    let mut acc1: u128 = first.1 as u128;
    let mut st: usize = 0;
    let mut i: usize = 1;
    proof {
        assert(sum_top(s, 0, 0) == 0);
        assert(sum_bottom(s, 0, 0) == 0);
    }
    while i < w
        invariant
            w == top@.len(),
            s == samples(top@, bottom_view(bottom)),
            match bottom {
                Some(b) => b@.len() == top@.len(),
                None => true,
            },
            1 <= i <= w,
            st < i,
            n == i - st,
            base == s[st as int],
            acc0 == sum_top(s, st as int, i as int),
            acc1 == sum_bottom(s, st as int, i as int),
            run_start(out@, out@.len() as int) == st,
            forall|k: int| 0 <= k < out@.len() ==> #[trigger] chunk_fits(out@, s, k),
            forall|k: int| 1 <= k < out@.len() ==> #[trigger] run_breaks(out@, s, k),
            out@.len() > 0 ==> !close(s[st as int], s[run_start(out@, out@.len() - 1)]),
            forall|j: int| st <= j < i ==> close(#[trigger] s[j], s[st as int]),
        decreases w - i,
    {
        let this = sample_at(top, bottom, i);
        proof {
            lemma_sum_bound(s, st as int, i as int);
        }
        if close_to(this, base) {
            n = n + 1;
            acc0 = acc0 + this.0 as u128;
            acc1 = acc1 + this.1 as u128;
        } else {
            let chunk = RleChunk { n, d: (average(acc0, n), average(acc1, n)) };
            let ghost old_out = out@;
            out.push(chunk);
            proof {
                let m = old_out.len() as int;
                assert forall|k: int| 0 <= k <= m implies run_start(out@, k) == run_start(
                    old_out,
                    k,
                ) by {
                    lemma_run_start_push(old_out, chunk, k);
                }
                assert forall|k: int| 0 <= k < out@.len() implies #[trigger] chunk_fits(
                    out@,
                    s,
                    k,
                ) by {
                    if k < m {
                        assert(chunk_fits(old_out, s, k));
                        assert(run_start(out@, k) == run_start(old_out, k));
                    }
                }
                assert(run_start(out@, m + 1) == run_start(out@, m) + out@[m].n);
                assert forall|k: int| 1 <= k < out@.len() implies #[trigger] run_breaks(out@, s, k) by {
                    assert(run_start(out@, k) == run_start(old_out, k));
                    assert(run_start(out@, k - 1) == run_start(old_out, k - 1));
                    if k < m {
                        assert(run_breaks(old_out, s, k));
                    }
                }
            }
            n = 1;
            base = this;
            acc0 = this.0 as u128;
            acc1 = this.1 as u128;
            st = i;
        }
        proof {
            assert(sum_top(s, st as int, st as int) == 0);
            assert(sum_bottom(s, st as int, st as int) == 0);
            assert(sum_top(s, st as int, i + 1) == sum_top(s, st as int, i as int) + s[i as int].0);
            assert(sum_bottom(s, st as int, i + 1) == sum_bottom(s, st as int, i as int) + s[
                i as int
            ].1);
        }
        i = i + 1;
    }
    proof {
        lemma_sum_bound(s, st as int, i as int);
    }
    let chunk = RleChunk { n, d: (average(acc0, n), average(acc1, n)) };
    let ghost old_out = out@;
    out.push(chunk);
    proof {
        let m = old_out.len() as int;
        assert forall|k: int| 0 <= k <= m implies run_start(out@, k) == run_start(old_out, k) by {
            lemma_run_start_push(old_out, chunk, k);
        }
        assert forall|k: int| 0 <= k < out@.len() implies #[trigger] chunk_fits(out@, s, k) by {
            if k < m {
                assert(chunk_fits(old_out, s, k));
                assert(run_start(out@, k) == run_start(old_out, k));
            }
        }
        assert(run_start(out@, m + 1) == run_start(out@, m) + out@[m].n);
        assert forall|k: int| 1 <= k < out@.len() implies #[trigger] run_breaks(out@, s, k) by {
            assert(run_start(out@, k) == run_start(old_out, k));
            assert(run_start(out@, k - 1) == run_start(old_out, k - 1));
            if k < m {
                assert(run_breaks(old_out, s, k));
            }
        }
    }
    out
}

/// All rows of `image` are as long as the first.
pub open spec fn rows_even(image: Seq<Vec<u8>>) -> bool {
    forall|r: int| 0 <= r < image.len() ==> (#[trigger] image[r])@.len() == image[0]@.len()
}

/// The samples of row pair `k` of `image`: rows `2k` and `2k + 1`, the
/// second missing for the last pair of an image of odd height.
pub open spec fn pair_samples(image: Seq<Vec<u8>>, k: int) -> Seq<(u8, u8)> {
    samples(
        image[2 * k]@,
        if 2 * k + 1 < image.len() {
            Some(image[2 * k + 1]@)
        } else {
            None
        },
    )
}

/// Compresses a whole frame for half-block display: one list of runs for
/// each pair of rows, top to bottom.
pub fn compress_frame(image: &Vec<Vec<u8>>) -> (r: Vec<Vec<RleChunk>>)
    requires
        rows_even(image@),
    ensures
        r@.len() == (image@.len() + 1) / 2,
        forall|k: int| 0 <= k < r@.len() ==> is_rle_of(#[trigger] r@[k]@, pair_samples(image@, k)),
{
    let h = image.len();
    let pairs = h / 2 + h % 2;
    let mut out: Vec<Vec<RleChunk>> = Vec::new();
    let mut k: usize = 0;
    while k < pairs
        invariant
            h == image@.len(),
            pairs == (h + 1) / 2,
            rows_even(image@),
            k <= pairs,
            out@.len() == k,
            forall|j: int| 0 <= j < out@.len() ==> is_rle_of(#[trigger] out@[j]@, pair_samples(image@, j)),
        decreases pairs - k,
    {
        let y = 2 * k;
        let row = if h - y > 1 {
            rle_row(&image[y], Some(&image[y + 1]))
        } else {
            rle_row(&image[y], None)
        };
        out.push(row);
        k = k + 1;
    }
    out
}

proof fn lemma_sum_near(s: Seq<(u8, u8)>, lo: int, hi: int, base: (u8, u8))
    requires
        lo <= hi,
        forall|j: int| lo <= j < hi ==> close(#[trigger] s[j], base),
    ensures
        (hi - lo) * (base.0 - COMPRESSION_DIFF) <= sum_top(s, lo, hi) <= (hi - lo) * (base.0
            + COMPRESSION_DIFF),
        (hi - lo) * (base.1 - COMPRESSION_DIFF) <= sum_bottom(s, lo, hi) <= (hi - lo) * (base.1
            + COMPRESSION_DIFF),
    decreases hi - lo,
{
    if lo < hi {
        lemma_sum_near(s, lo, hi - 1, base);
        assert(close(s[hi - 1], base));
        assert(base.0 - COMPRESSION_DIFF <= s[hi - 1].0 <= base.0 + COMPRESSION_DIFF);
        assert(base.1 - COMPRESSION_DIFF <= s[hi - 1].1 <= base.1 + COMPRESSION_DIFF);
        assert(sum_top(s, lo, hi) == sum_top(s, lo, hi - 1) + s[hi - 1].0);
        assert(sum_bottom(s, lo, hi) == sum_bottom(s, lo, hi - 1) + s[hi - 1].1);
        assert((hi - lo) * (base.0 - COMPRESSION_DIFF) == (hi - 1 - lo) * (base.0 - COMPRESSION_DIFF)
            + (base.0 - COMPRESSION_DIFF)) by (nonlinear_arith);
        assert((hi - lo) * (base.0 + COMPRESSION_DIFF) == (hi - 1 - lo) * (base.0 + COMPRESSION_DIFF)
            + (base.0 + COMPRESSION_DIFF)) by (nonlinear_arith);
        assert((hi - lo) * (base.1 - COMPRESSION_DIFF) == (hi - 1 - lo) * (base.1 - COMPRESSION_DIFF)
            + (base.1 - COMPRESSION_DIFF)) by (nonlinear_arith);
        assert((hi - lo) * (base.1 + COMPRESSION_DIFF) == (hi - 1 - lo) * (base.1 + COMPRESSION_DIFF)
            + (base.1 + COMPRESSION_DIFF)) by (nonlinear_arith);
    } else {
        assert(forall|a: int| #[trigger] ((hi - lo) * a) == 0) by (nonlinear_arith)
            requires
                hi == lo,
        ;
    }
}

proof fn lemma_average_near(sum: int, n: int, b: int)
    requires
        n >= 1,
        n * (b - COMPRESSION_DIFF) <= sum <= n * (b + COMPRESSION_DIFF),
    ensures
        b - COMPRESSION_DIFF <= sum / n <= b + COMPRESSION_DIFF,
{
    lemma_multiply_divide_le(sum, n, b + COMPRESSION_DIFF);
    lemma_div_is_ordered(n * (b - COMPRESSION_DIFF), sum, n);
    lemma_div_multiples_vanish(b - COMPRESSION_DIFF, n);
}

/// Each run's colour is within `COMPRESSION_DIFF` of the run's first sample
/// on both channels, and the runs' lengths add up to the row's width.
pub proof fn lemma_runs_near_first(c: Seq<RleChunk>, s: Seq<(u8, u8)>, k: int)
    requires
        is_rle_of(c, s),
        0 <= k < c.len(),
    ensures
        abs_diff(c[k].d.0, s[run_start(c, k)].0) <= COMPRESSION_DIFF,
        abs_diff(c[k].d.1, s[run_start(c, k)].1) <= COMPRESSION_DIFF,
        run_start(c, c.len() as int) == s.len(),
{
    let st = run_start(c, k);
    assert(chunk_fits(c, s, k));
    lemma_sum_near(s, st, st + c[k].n, s[st]);
    lemma_average_near(sum_top(s, st, st + c[k].n), c[k].n as int, s[st].0 as int);
    lemma_average_near(sum_bottom(s, st, st + c[k].n), c[k].n as int, s[st].1 as int);
}

proof fn lemma_sum_uniform(s: Seq<(u8, u8)>, lo: int, hi: int, v: (u8, u8))
    requires
        lo <= hi,
        forall|j: int| lo <= j < hi ==> #[trigger] s[j] == v,
    ensures
        sum_top(s, lo, hi) == (hi - lo) * v.0,
        sum_bottom(s, lo, hi) == (hi - lo) * v.1,
    decreases hi - lo,
{
    if lo < hi {
        lemma_sum_uniform(s, lo, hi - 1, v);
        assert((hi - lo) * v.0 == (hi - 1 - lo) * v.0 + v.0) by (nonlinear_arith);
        assert((hi - lo) * v.1 == (hi - 1 - lo) * v.1 + v.1) by (nonlinear_arith);
    } else {
        assert(forall|a: int| #[trigger] ((hi - lo) * a) == 0) by (nonlinear_arith)
            requires
                hi == lo,
        ;
    }
}

/// A row whose samples are all equal, such as an empty background row,
/// compresses to a single run across the whole width in that colour.
pub proof fn lemma_uniform_row_one_run(c: Seq<RleChunk>, s: Seq<(u8, u8)>)
    requires
        is_rle_of(c, s),
        s.len() > 0,
        forall|j: int| 0 <= j < s.len() ==> #[trigger] s[j] == s[0],
    ensures
        c.len() == 1,
        c[0].n == s.len(),
        c[0].d == s[0],
{
    assert(c.len() != 0);
    if c.len() > 1 {
        assert(run_breaks(c, s, 1));
        assert(chunk_fits(c, s, 0));
        assert(run_start(c, 1) == c[0].n);
        assert(chunk_fits(c, s, 1));
        assert(run_start(c, 2) == run_start(c, 1) + c[1].n);
        lemma_run_start_le(c, 2, c.len() as int);
        assert(s[run_start(c, 1)] == s[0]);
        assert(false);
    }
    assert(run_start(c, 1) == c[0].n);
    assert(chunk_fits(c, s, 0));
    lemma_sum_uniform(s, 0, c[0].n as int, s[0]);
    lemma_div_multiples_vanish(s[0].0 as int, c[0].n as int);
    lemma_div_multiples_vanish(s[0].1 as int, c[0].n as int);
    assert(c[0].n * s[0].0 == s[0].0 * c[0].n) by (nonlinear_arith);
    assert(c[0].n * s[0].1 == s[0].1 * c[0].n) by (nonlinear_arith);
}

proof fn lemma_run_start_le(c: Seq<RleChunk>, j: int, k: int)
    requires
        0 <= j <= k <= c.len(),
    ensures
        run_start(c, j) <= run_start(c, k),
    decreases k - j,
{
    if j < k {
        lemma_run_start_le(c, j, k - 1);
    }
}

/// Tells whether all rows of `image` are as long as the first, as
/// `compress_frame` needs.
pub fn has_even_rows(image: &Vec<Vec<u8>>) -> (r: bool)
    ensures
        r == rows_even(image@),
{
    if image.len() == 0 {
        return true;
    }
    let w = image[0].len();
    let mut y: usize = 0;
    while y < image.len()
        invariant
            y <= image@.len(),
            image@.len() > 0,
            w == image@[0]@.len(),
            forall|r: int| 0 <= r < y ==> (#[trigger] image@[r])@.len() == w,
        decreases image@.len() - y,
    {
        if image[y].len() != w {
            return false;
        }
        y = y + 1;
    }
    true
}

proof fn lemma_rle_prefix(c1: Seq<RleChunk>, c2: Seq<RleChunk>, s: Seq<(u8, u8)>, k: int)
    requires
        is_rle_of(c1, s),
        is_rle_of(c2, s),
        0 <= k <= c1.len(),
        k <= c2.len(),
    ensures
        run_start(c1, k) == run_start(c2, k),
        forall|j: int| 0 <= j < k ==> c1[j] == c2[j],
    decreases k,
{
    if k > 0 {
        lemma_rle_prefix(c1, c2, s, k - 1);
        let st = run_start(c1, k - 1);
        assert(chunk_fits(c1, s, k - 1));
        assert(chunk_fits(c2, s, k - 1));
        lemma_run_start_le(c1, k, c1.len() as int);
        lemma_run_start_le(c2, k, c2.len() as int);
        if c1[k - 1].n < c2[k - 1].n {
            assert(run_breaks(c1, s, k));
            assert(close(s[st + c1[k - 1].n], s[st]));
        }
        if c2[k - 1].n < c1[k - 1].n {
            assert(run_breaks(c2, s, k));
            assert(close(s[st + c2[k - 1].n], s[st]));
        }
    }
}

/// The encoding is determined by the samples: two run lists that both
/// encode `s` are equal, so `rle_row`'s contract fixes its result.
pub proof fn lemma_rle_unique(c1: Seq<RleChunk>, c2: Seq<RleChunk>, s: Seq<(u8, u8)>)
    requires
        is_rle_of(c1, s),
        is_rle_of(c2, s),
    ensures
        c1 == c2,
{
    if c1.len() < c2.len() {
        lemma_rle_prefix(c1, c2, s, c1.len() as int);
        assert(chunk_fits(c2, s, c1.len() as int));
        lemma_run_start_le(c2, c1.len() + 1int, c2.len() as int);
    } else if c2.len() < c1.len() {
        lemma_rle_prefix(c1, c2, s, c2.len() as int);
        assert(chunk_fits(c1, s, c2.len() as int));
        lemma_run_start_le(c1, c2.len() + 1int, c1.len() as int);
    } else {
        lemma_rle_prefix(c1, c2, s, c1.len() as int);
        assert(c1 =~= c2);
    }
}

} // verus!
