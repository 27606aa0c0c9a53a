//! Speed ranges: segmenting a classification, rescaling ranges into another
//! index space, and finding the range that holds an index.
use vstd::prelude::*;
use crate::analysis::AnalysisError;
use vstd::arithmetic::div_mod::{
    lemma_div_is_ordered, lemma_div_multiples_vanish, lemma_fundamental_div_mod,
};

verus! {

/// Smallest accepted playback rate, in thousandths (one half).
pub const MIN_RATE: u64 = 500;

/// Rate, in thousandths, from which a range is left out of a rendered video.
pub const DROP_RATE: u64 = 100_000;

/// A half-open span `[frame_from, frame_to)` of indices played at one rate.
/// `speedup_rate` is in thousandths: 1500 plays at one and a half times speed.
#[derive(Debug, Clone, Copy, PartialEq, Eq, Structural)]
pub struct SpeedupRange {
    pub frame_from: usize,
    pub frame_to: usize,
    pub speedup_rate: u64,
}

impl SpeedupRange {
    pub fn new(frame_from: usize, frame_to: usize, speedup_rate: u64) -> (r: SpeedupRange)
        ensures
            r.frame_from == frame_from,
            r.frame_to == frame_to,
            r.speedup_rate == speedup_rate,
    {
        SpeedupRange { frame_from, frame_to, speedup_rate }
    }

    /// Whether a rendered video keeps this range: it is not empty and its rate
    /// is below the dropping rate.
    pub fn is_rendered(&self) -> (r: bool)
        ensures
            r == (self.frame_from < self.frame_to && self.speedup_rate < DROP_RATE),
    {
        self.frame_from < self.frame_to && self.speedup_rate < DROP_RATE
    }
}

/// The rate that a span of the given label is played at.
pub open spec fn rate_for(silent: bool, rate_loud: u64, rate_silent: u64) -> u64 {
    if silent {
        rate_silent
    } else {
        rate_loud
    }
}

/// Consecutive ranges touch: each ends where the next begins, and none runs
/// backwards.
pub open spec fn contiguous(r: Seq<SpeedupRange>) -> bool {
    &&& forall|i: int| 0 <= i < r.len() ==> (#[trigger] r[i]).frame_from <= r[i].frame_to
    &&& forall|i: int| 0 <= i < r.len() - 1 ==> (#[trigger] r[i]).frame_to == r[i + 1].frame_from
}

/// Ranges that start at 0, touch, and end at `total`.
pub open spec fn covers(r: Seq<SpeedupRange>, total: nat) -> bool {
    &&& r.len() > 0
    &&& r[0].frame_from == 0
    &&& r.last().frame_to == total
    &&& contiguous(r)
}

/// `r` is the partition of `c` into maximal runs of one label, each with the
/// rate of its label.
pub open spec fn is_segmentation(
    c: Seq<bool>,
    rate_loud: u64,
    rate_silent: u64,
    r: Seq<SpeedupRange>,
) -> bool {
    &&& covers(r, c.len())
    &&& forall|i: int| 0 <= i < r.len() ==> (#[trigger] r[i]).frame_from < r[i].frame_to
    &&& forall|i: int, j: int|
        0 <= i < r.len() && r[i].frame_from <= j < r[i].frame_to ==> #[trigger] c[j] == c[(
        #[trigger] r[i]).frame_from as int]
    &&& forall|i: int|
        0 <= i < r.len() - 1 ==> c[(#[trigger] r[i]).frame_from as int] != c[r[i
            + 1].frame_from as int]
    &&& forall|i: int|
        0 <= i < r.len() ==> (#[trigger] r[i]).speedup_rate == rate_for(
            c[r[i].frame_from as int],
            rate_loud,
            rate_silent,
        )
}

/// Cuts a classification (`true` = silent) into its maximal runs of one label,
/// each played at the rate of its label. Fails with `InvalidRate` when a rate
/// is below one half, else with `InsufficientAudioData` when fewer than two
/// labels are given.
pub fn segment(classification: &Vec<bool>, rate_loud: u64, rate_silent: u64) -> (r: Result<
    Vec<SpeedupRange>,
    AnalysisError,
>)
    ensures
        (rate_loud < MIN_RATE || rate_silent < MIN_RATE) <==> r == Err::<
            Vec<SpeedupRange>,
            AnalysisError,
        >(AnalysisError::InvalidRate),
        (rate_loud >= MIN_RATE && rate_silent >= MIN_RATE && classification@.len() < 2) <==> r
            == Err::<Vec<SpeedupRange>, AnalysisError>(AnalysisError::InsufficientAudioData),
        r is Ok ==> is_segmentation(classification@, rate_loud, rate_silent, r->Ok_0@),
        (rate_loud >= MIN_RATE && rate_silent >= MIN_RATE && classification@.len() >= 2) ==> r is Ok,
{
    if rate_loud < MIN_RATE || rate_silent < MIN_RATE {
        return Err(AnalysisError::InvalidRate);
    }
    let n = classification.len();
    if n < 2 {
        return Err(AnalysisError::InsufficientAudioData);
    }
    let ghost c = classification@;
    let mut out: Vec<SpeedupRange> = Vec::new();
    let mut cur: usize = 0;
    let mut i: usize = 1;
    while i < n
        invariant
            n == c.len(),
            c == classification@,
            0 <= cur < i <= n,
            forall|j: int| cur <= j < i ==> #[trigger] c[j] == c[cur as int],
            out@.len() == 0 ==> cur == 0,
            out@.len() > 0 ==> out@[0].frame_from == 0,
            out@.len() > 0 ==> out@.last().frame_to == cur,
            out@.len() > 0 ==> c[out@.last().frame_from as int] != c[cur as int],
            forall|k: int| 0 <= k < out@.len() ==> (#[trigger] out@[k]).frame_from < out@[k].frame_to,
            forall|k: int| 0 <= k < out@.len() - 1 ==> (#[trigger] out@[k]).frame_to == out@[k
                + 1].frame_from,
            forall|k: int, j: int|
                0 <= k < out@.len() && out@[k].frame_from <= j < out@[k].frame_to ==> #[trigger] c[j]
                    == c[(#[trigger] out@[k]).frame_from as int],
            forall|k: int|
                0 <= k < out@.len() - 1 ==> c[(#[trigger] out@[k]).frame_from as int] != c[out@[k
                    + 1].frame_from as int],
            forall|k: int|
                0 <= k < out@.len() ==> (#[trigger] out@[k]).speedup_rate == rate_for(
                    c[out@[k].frame_from as int],
                    rate_loud,
                    rate_silent,
                ),
        decreases n - i,
    {
        if classification[i] != classification[cur] {
            let rate = if classification[cur] { rate_silent } else { rate_loud };
            let ghost old_out = out@;
            out.push(SpeedupRange::new(cur, i, rate));
            assert(out@.drop_last() == old_out);
            cur = i;
        }
        i = i + 1;
    }
    let rate = if classification[cur] { rate_silent } else { rate_loud };
    let ghost old_out = out@;
    out.push(SpeedupRange::new(cur, n, rate));
    assert(out@.drop_last() == old_out);
    Ok(out)
}

/// Index `j` lies in range `i`.
pub open spec fn range_holds(r: Seq<SpeedupRange>, i: int, j: int) -> bool {
    0 <= i < r.len() && r[i].frame_from <= j < r[i].frame_to
}

/// Some range holds index `j`.
pub open spec fn is_held(r: Seq<SpeedupRange>, j: int) -> bool {
    exists|i: int| range_holds(r, i, j)
}

/// In touching ranges an earlier range ends no later than a later one begins.
pub proof fn lemma_contiguous_ordered(r: Seq<SpeedupRange>, a: int, b: int)
    requires
        contiguous(r),
        0 <= a < b < r.len(),
    ensures
        r[a].frame_to <= r[b].frame_from,
        r[a].frame_from <= r[b].frame_from,
        r[a].frame_to <= r[b].frame_to,
    decreases b - a,
{
    assert(r[b - 1].frame_to == r[b].frame_from);
    if b > a + 1 {
        lemma_contiguous_ordered(r, a, b - 1);
        assert(r[b - 1].frame_from <= r[b - 1].frame_to);
    }
    assert(r[a].frame_from <= r[a].frame_to);
    assert(r[b].frame_from <= r[b].frame_to);
}

proof fn lemma_prefix_holds(r: Seq<SpeedupRange>, k: int, j: int) -> (i: int)
    requires
        contiguous(r),
        r.len() > 0,
        r[0].frame_from == 0,
        0 <= k < r.len(),
        0 <= j < r[k].frame_to,
    ensures
        0 <= i <= k,
        range_holds(r, i, j),
    decreases k,
{
    if j >= r[k].frame_from {
        k
    } else {
        assert(r[k - 1].frame_to == r[k].frame_from);
        lemma_prefix_holds(r, k - 1, j)
    }
}

/// Ranges that cover `[0, total)` hold every index below `total` in exactly
/// one range, and an earlier range ends no later than a later one begins.
pub proof fn lemma_covers_partition(r: Seq<SpeedupRange>, total: nat)
    requires
        covers(r, total),
    ensures
        forall|a: int, b: int|
            0 <= a < b < r.len() ==> (#[trigger] r[a]).frame_to <= (#[trigger] r[b]).frame_from,
        forall|j: int| 0 <= j < total ==> #[trigger] is_held(r, j),
        forall|i: int, k: int, j: int|
            #[trigger] range_holds(r, i, j) && #[trigger] range_holds(r, k, j) ==> i == k,
{
    assert forall|a: int, b: int| 0 <= a < b < r.len() implies (#[trigger] r[a]).frame_to
        <= (#[trigger] r[b]).frame_from by {
        lemma_contiguous_ordered(r, a, b);
    }
    assert forall|j: int| 0 <= j < total implies #[trigger] is_held(r, j) by {
        let i = lemma_prefix_holds(r, r.len() - 1, j);
    }
    assert forall|i: int, k: int, j: int| #[trigger]
        range_holds(r, i, j) && #[trigger] range_holds(r, k, j) implies i == k by {
        if i < k {
            lemma_contiguous_ordered(r, i, k);
        } else if k < i {
            lemma_contiguous_ordered(r, k, i);
        }
    }
}

/// The segmenter's ranges of a classification of length `n >= 2` start at 0,
/// end at `n`, touch one another in order, and hold every index below `n` in
/// exactly one range: no gaps and no overlaps.
pub proof fn lemma_segmentation_partition(
    c: Seq<bool>,
    rate_loud: u64,
    rate_silent: u64,
    r: Seq<SpeedupRange>,
)
    requires
        c.len() >= 2,
        is_segmentation(c, rate_loud, rate_silent, r),
    ensures
        r[0].frame_from == 0,
        r.last().frame_to == c.len(),
        forall|i: int| 0 <= i < r.len() - 1 ==> (#[trigger] r[i]).frame_to == r[i + 1].frame_from,
        forall|a: int, b: int|
            0 <= a < b < r.len() ==> (#[trigger] r[a]).frame_to <= (#[trigger] r[b]).frame_from,
        forall|j: int| 0 <= j < c.len() ==> #[trigger] is_held(r, j),
        forall|i: int, k: int, j: int|
            #[trigger] range_holds(r, i, j) && #[trigger] range_holds(r, k, j) ==> i == k,
{
    lemma_covers_partition(r, c.len());
}

/// When the two rates differ, no two neighbouring ranges of a segmentation
/// share a rate: every run is maximal.
pub proof fn lemma_segmentation_neighbours_differ(
    c: Seq<bool>,
    rate_loud: u64,
    rate_silent: u64,
    r: Seq<SpeedupRange>,
)
    requires
        is_segmentation(c, rate_loud, rate_silent, r),
        rate_loud != rate_silent,
    ensures
        forall|i: int|
            0 <= i < r.len() - 1 ==> (#[trigger] r[i]).speedup_rate != r[i + 1].speedup_rate,
{
    assert forall|i: int| 0 <= i < r.len() - 1 implies (#[trigger] r[i]).speedup_rate != r[i
        + 1].speedup_rate by {
        assert(r[i + 1].speedup_rate == rate_for(
            c[r[i + 1].frame_from as int],
            rate_loud,
            rate_silent,
        ));
    }
}

/// `x` rescaled from `[0, source_total]` to `[0, target_total]`, rounded down.
pub open spec fn scale_index(x: nat, source_total: nat, target_total: nat) -> nat {
    x * target_total / source_total
}

/// `m` is `r` rescaled: every bound is scaled and rounded down, except that the
/// last range ends at `target_total`; rates are kept.
pub open spec fn is_mapping(
    r: Seq<SpeedupRange>,
    m: Seq<SpeedupRange>,
    source_total: nat,
    target_total: nat,
) -> bool {
    &&& m.len() == r.len()
    &&& forall|i: int|
        0 <= i < r.len() ==> (#[trigger] m[i]).frame_from == scale_index(
            r[i].frame_from as nat,
            source_total,
            target_total,
        ) && m[i].speedup_rate == r[i].speedup_rate
    &&& forall|i: int|
        0 <= i < r.len() - 1 ==> (#[trigger] m[i]).frame_to == scale_index(
            r[i].frame_to as nat,
            source_total,
            target_total,
        )
    &&& r.len() > 0 ==> m.last().frame_to == target_total
}

proof fn lemma_scale_monotone(x: nat, y: nat, n: nat, t: nat)
    requires
        x <= y,
        n > 0,
    ensures
        scale_index(x, n, t) <= scale_index(y, n, t),
{
    assert(x * t <= y * t) by (nonlinear_arith)
        requires x <= y;
    lemma_div_is_ordered((x * t) as int, (y * t) as int, n as int);
}

proof fn lemma_scale_bounded(x: nat, n: nat, t: nat)
    requires
        x <= n,
        n > 0,
    ensures
        scale_index(x, n, t) <= t,
        scale_index(n, n, t) == t,
{
    lemma_scale_monotone(x, n, n, t);
    assert(n * t == t * n) by (nonlinear_arith);
    lemma_div_multiples_vanish(t as int, n as int);
}

proof fn lemma_scale_strict(x: nat, y: nat, n: nat, t: nat)
    requires
        x < y,
        0 < n <= t,
    ensures
        scale_index(x, n, t) < scale_index(y, n, t),
{
    let q = x * t / n;
    lemma_fundamental_div_mod((x * t) as int, n as int);
    assert((q + 1) * n <= y * t) by (nonlinear_arith)
        requires
            x * t == n * q + (x * t) % n,
            (x * t) % n >= 0,
            x + 1 <= y,
            n <= t,
            n > 0,
    ;
    lemma_div_is_ordered(((q + 1) * n) as int, (y * t) as int, n as int);
    assert((q + 1) * n == n * (q + 1)) by (nonlinear_arith);
    lemma_div_multiples_vanish((q + 1) as int, n as int);
}

/// Rescaling never reorders range starts; when the target space is at least
/// as large as the source, distinct starts stay strictly ordered.
pub proof fn lemma_mapping_monotone(
    r: Seq<SpeedupRange>,
    m: Seq<SpeedupRange>,
    source_total: nat,
    target_total: nat,
    a: int,
    b: int,
)
    requires
        source_total > 0,
        is_mapping(r, m, source_total, target_total),
        0 <= a < r.len(),
        0 <= b < r.len(),
        r[a].frame_from < r[b].frame_from,
    ensures
        m[a].frame_from <= m[b].frame_from,
        target_total >= source_total ==> m[a].frame_from < m[b].frame_from,
{
    lemma_scale_monotone(r[a].frame_from as nat, r[b].frame_from as nat, source_total, target_total);
    if target_total >= source_total {
        lemma_scale_strict(
            r[a].frame_from as nat,
            r[b].frame_from as nat,
            source_total,
            target_total,
        );
    }
}

/// Rescaling ranges that cover `[0, source_total)` gives ranges that cover
/// `[0, target_total)`.
pub proof fn lemma_mapping_covers(
    r: Seq<SpeedupRange>,
    m: Seq<SpeedupRange>,
    source_total: nat,
    target_total: nat,
)
    requires
        source_total > 0,
        covers(r, source_total),
        is_mapping(r, m, source_total, target_total),
    ensures
        covers(m, target_total),
{
    lemma_scale_monotone(0, 0, source_total, target_total);
    assert(m[0].frame_from == 0) by {
        assert(0 * target_total == 0);
    }
    lemma_covers_partition(r, source_total);
    assert forall|i: int| 0 <= i < m.len() implies (#[trigger] m[i]).frame_from
        <= m[i].frame_to by {
        assert(r[i].frame_from <= r[i].frame_to);
        if i < r.len() - 1 {
            lemma_contiguous_ordered(r, i, r.len() - 1);
            lemma_scale_monotone(
                r[i].frame_from as nat,
                r[i].frame_to as nat,
                source_total,
                target_total,
            );
        } else {
            lemma_scale_bounded(r[i].frame_from as nat, source_total, target_total);
        }
    }
    assert forall|i: int| 0 <= i < m.len() - 1 implies (#[trigger] m[i]).frame_to == m[i
        + 1].frame_from by {
        assert(r[i].frame_to == r[i + 1].frame_from);
    }
}

/// Rescales ranges from a space of `source_total` indices into one of
/// `target_total` indices with the single factor `target_total / source_total`,
/// rounding down; the last range is stretched to end at `target_total`.
pub fn map_ranges(ranges: &Vec<SpeedupRange>, source_total: usize, target_total: usize) -> (r: Vec<
    SpeedupRange,
>)
    requires
        source_total > 0,
        forall|i: int|
            0 <= i < ranges@.len() ==> (#[trigger] ranges@[i]).frame_from <= source_total
                && ranges@[i].frame_to <= source_total,
    ensures
        is_mapping(ranges@, r@, source_total as nat, target_total as nat),
{
    let mut out: Vec<SpeedupRange> = Vec::new();
    let n = ranges.len();
    let mut i: usize = 0;
    while i < n
        invariant
            n == ranges@.len(),
            source_total > 0,
            forall|k: int|
                0 <= k < ranges@.len() ==> (#[trigger] ranges@[k]).frame_from <= source_total
                    && ranges@[k].frame_to <= source_total,
            i <= n,
            out@.len() == i,
            forall|k: int|
                0 <= k < i ==> (#[trigger] out@[k]).frame_from == scale_index(
                    ranges@[k].frame_from as nat,
                    source_total as nat,
                    target_total as nat,
                ) && out@[k].speedup_rate == ranges@[k].speedup_rate,
            forall|k: int|
                0 <= k < i && k < n - 1 ==> (#[trigger] out@[k]).frame_to == scale_index(
                    ranges@[k].frame_to as nat,
                    source_total as nat,
                    target_total as nat,
                ),
            i == n && n > 0 ==> out@.last().frame_to == target_total,
        decreases n - i,
    {
        let g = ranges[i];
        proof {
            lemma_scale_bounded(g.frame_from as nat, source_total as nat, target_total as nat);
            lemma_scale_bounded(g.frame_to as nat, source_total as nat, target_total as nat);
            assert((g.frame_from as nat) * (target_total as nat) <= (usize::MAX as nat) * (
            usize::MAX as nat)) by (nonlinear_arith)
                requires g.frame_from <= usize::MAX, target_total <= usize::MAX;
            assert((g.frame_to as nat) * (target_total as nat) <= (usize::MAX as nat) * (
            usize::MAX as nat)) by (nonlinear_arith)
                requires g.frame_to <= usize::MAX, target_total <= usize::MAX;
            assert((usize::MAX as nat) * (usize::MAX as nat) <= u128::MAX) by (nonlinear_arith);
        }
        let from = ((g.frame_from as u128) * (target_total as u128) / (source_total as u128)) as usize;
        let to = if i + 1 == n {
            target_total
        } else {
            ((g.frame_to as u128) * (target_total as u128) / (source_total as u128)) as usize
        };
        out.push(SpeedupRange::new(from, to, g.speedup_rate));
        i = i + 1;
    }
    out
}

/// Finds the range that holds `position`, by binary search over touching
/// ranges.
pub fn find_range(ranges: &Vec<SpeedupRange>, position: usize) -> (r: Option<usize>)
    requires
        contiguous(ranges@),
    ensures
        r is Some ==> range_holds(ranges@, r->Some_0 as int, position as int),
        r is None ==> forall|i: int| !#[trigger] range_holds(ranges@, i, position as int),
{
    let mut lo: usize = 0;
    let mut hi: usize = ranges.len();
    while lo < hi
        invariant
            contiguous(ranges@),
            0 <= lo <= hi <= ranges@.len(),
            forall|i: int| 0 <= i < lo ==> !#[trigger] range_holds(ranges@, i, position as int),
            forall|i: int|
                hi <= i < ranges@.len() ==> !#[trigger] range_holds(ranges@, i, position as int),
        decreases hi - lo,
    {
        let mid = lo + (hi - lo) / 2;
        let g = ranges[mid];
        if position < g.frame_from {
            proof {
                assert forall|i: int| mid <= i < ranges@.len() implies !#[trigger] range_holds(
                    ranges@,
                    i,
                    position as int,
                ) by {
                    if i > mid {
                        lemma_contiguous_ordered(ranges@, mid as int, i);
                    }
                }
            }
            hi = mid;
        } else if position >= g.frame_to {
            proof {
                assert forall|i: int| 0 <= i <= mid implies !#[trigger] range_holds(
                    ranges@,
                    i,
                    position as int,
                ) by {
                    if i < mid {
                        lemma_contiguous_ordered(ranges@, i, mid as int);
                    }
                }
            }
            lo = mid + 1;
        } else {
            return Some(mid);
        }
    }
    None
}

} // verus!
