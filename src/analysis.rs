//! Energy extraction and silence classification of decoded audio blocks.
use vstd::prelude::*;

verus! {

/// Largest absolute value of an `i16` sample.
pub const MAX_ABS_SAMPLE: u64 = 32768;

/// Errors of the analysis stages, each an invalid input of the current run.
#[derive(Debug, Clone, Copy, PartialEq, Eq, Structural)]
pub enum AnalysisError {
    /// A decoded block held no samples, so it has no mean loudness.
    EmptyBlock,
    /// Fewer than two loudness values: nothing to smooth or segment.
    InsufficientAudioData,
    /// A configured playback rate is below one half.
    InvalidRate,
}

/// Absolute value of one sample.
pub open spec fn abs_sample(x: i16) -> nat {
    if x < 0 {
        (-(x as int)) as nat
    } else {
        x as nat
    }
}

/// Sum of the absolute values of a block's samples.
pub open spec fn abs_sum(b: Seq<i16>) -> nat
    decreases b.len(),
{
    if b.len() == 0 {
        0
    } else {
        abs_sum(b.drop_last()) + abs_sample(b.last())
    }
}

/// Loudness of a non-empty block: the mean of its absolute sample values,
/// rounded down.
pub open spec fn block_loudness(b: Seq<i16>) -> nat {
    abs_sum(b) / b.len()
}

proof fn lemma_abs_sum_bound(b: Seq<i16>)
    ensures
        abs_sum(b) <= MAX_ABS_SAMPLE * b.len(),
    decreases b.len(),
{
    if b.len() > 0 {
        lemma_abs_sum_bound(b.drop_last());
    }
}

fn mean_abs(block: &Vec<i16>) -> (r: u64)
    requires
        block@.len() > 0,
    ensures
        r == block_loudness(block@),
        r <= MAX_ABS_SAMPLE,
{
    let mut sum: u128 = 0;
    let mut i: usize = 0;
    while i < block.len()
        invariant
            i <= block@.len(),
            sum == abs_sum(block@.take(i as int)),
            sum <= MAX_ABS_SAMPLE * i,
        decreases block@.len() - i,
    {
        let x = block[i];
        let a: u128 = if x < 0 { (0i32 - x as i32) as u128 } else { x as u128 };
        assert(block@.take(i + 1).drop_last() =~= block@.take(i as int));
        sum = sum + a;
        i = i + 1;
    }
    assert(block@.take(i as int) =~= block@);
    let n = block.len() as u128;
    proof {
        lemma_abs_sum_bound(block@);
        assert((sum as int) / (n as int) <= MAX_ABS_SAMPLE) by (nonlinear_arith)
            requires sum <= MAX_ABS_SAMPLE * n, n > 0;
    }
    (sum / n) as u64
}

/// Whether any block is empty.
pub open spec fn has_empty_block(blocks: Seq<Vec<i16>>) -> bool {
    exists|i: int| 0 <= i < blocks.len() && #[trigger] blocks[i]@.len() == 0
}

/// The loudness of each block, in order.
pub open spec fn loudness_seq(blocks: Seq<Vec<i16>>) -> Seq<nat> {
    Seq::new(blocks.len(), |i: int| block_loudness(blocks[i]@))
}

/// One loudness value per decoded block: the mean of the block's absolute
/// sample values. Fails with `EmptyBlock` exactly when some block is empty.
pub fn loudness_of_blocks(blocks: &Vec<Vec<i16>>) -> (r: Result<Vec<u64>, AnalysisError>)
    ensures
        has_empty_block(blocks@) <==> r == Err::<Vec<u64>, AnalysisError>(AnalysisError::EmptyBlock),
        !has_empty_block(blocks@) <==> r is Ok,
        r is Ok ==> r->Ok_0@.len() == blocks@.len() && forall|i: int|
            0 <= i < blocks@.len() ==> r->Ok_0@[i] as nat == #[trigger] loudness_seq(blocks@)[i],
{
    let mut out: Vec<u64> = Vec::new();
    let mut i: usize = 0;
    while i < blocks.len()
        invariant
            i <= blocks@.len(),
            out@.len() == i,
            forall|j: int| 0 <= j < i ==> blocks@[j]@.len() > 0,
            forall|j: int| 0 <= j < i ==> out@[j] as nat == #[trigger] loudness_seq(blocks@)[j],
        decreases blocks@.len() - i,
    {
        if blocks[i].len() == 0 {
            return Err(AnalysisError::EmptyBlock);
        }
        let m = mean_abs(&blocks[i]);
        out.push(m);
        i = i + 1;
    }
    Ok(out)
}

/// A fraction `numerator / denominator` of the loudest value, in (0, 1].
#[derive(Debug, Clone, Copy, PartialEq, Eq, Structural)]
pub struct ThresholdFraction {
    pub numerator: u64,
    pub denominator: u64,
}

impl ThresholdFraction {
    /// The fraction lies in (0, 1].
    pub open spec fn wf(&self) -> bool {
        0 < self.numerator && self.numerator <= self.denominator
    }
}

/// Largest value of a sequence, 0 for an empty one.
pub open spec fn seq_max(s: Seq<u64>) -> nat
    decreases s.len(),
{
    if s.len() == 0 {
        0
    } else if seq_max(s.drop_last()) >= s.last() as nat {
        seq_max(s.drop_last())
    } else {
        s.last() as nat
    }
}

/// A value is silent when it lies below `max * t`; when the loudest value is 0
/// everything is silent.
pub open spec fn is_silent(x: u64, max: nat, t: ThresholdFraction) -> bool {
    max == 0 || (x as nat) * (t.denominator as nat) < max * (t.numerator as nat)
}

/// The classification before smoothing: `true` marks a silent value.
pub open spec fn threshold_classes(s: Seq<u64>, t: ThresholdFraction) -> Seq<bool> {
    Seq::new(s.len(), |i: int| is_silent(s[i], seq_max(s), t))
}

/// Whether an interior silent index has a loud neighbour.
pub open spec fn flips_to_loud(c: Seq<bool>, i: int) -> bool {
    0 < i < c.len() - 1 && c[i] && (!c[i - 1] || !c[i + 1])
}

/// One smoothing pass: every interior silent index next to a loud one becomes
/// loud, all decided on the classification before the pass.
pub open spec fn smooth_pass(c: Seq<bool>) -> Seq<bool> {
    Seq::new(c.len(), |i: int| c[i] && !flips_to_loud(c, i))
}

/// `k` smoothing passes in a row.
pub open spec fn smooth(c: Seq<bool>, k: nat) -> Seq<bool>
    decreases k,
{
    if k == 0 {
        c
    } else {
        smooth_pass(smooth(c, (k - 1) as nat))
    }
}

/// The silence classification of a loudness sequence.
pub open spec fn classification(s: Seq<u64>, t: ThresholdFraction, margin: nat) -> Seq<bool> {
    smooth(threshold_classes(s, t), margin)
}

/// Smoothing passes keep the length of a classification.
pub proof fn lemma_smooth_len(c: Seq<bool>, k: nat)
    ensures
        smooth(c, k).len() == c.len(),
    decreases k,
{
    if k > 0 {
        lemma_smooth_len(c, (k - 1) as nat);
    }
}

/// The classifier's output is exactly as long as its input.
pub proof fn lemma_classification_len(s: Seq<u64>, t: ThresholdFraction, margin: nat)
    requires
        s.len() > 0,
    ensures
        classification(s, t, margin).len() == s.len(),
{
    lemma_smooth_len(threshold_classes(s, t), margin);
}

/// A margin of zero passes leaves every classification as it is.
pub proof fn lemma_zero_margin_identity(c: Seq<bool>)
    ensures
        smooth(c, 0) == c,
{
}

proof fn lemma_u64_product_fits(a: u64, b: u64)
    ensures
        (a as nat) * (b as nat) <= u128::MAX,
{
    assert((a as nat) * (b as nat) <= (u64::MAX as nat) * (u64::MAX as nat)) by (nonlinear_arith);
}

fn max_of(s: &Vec<u64>) -> (r: u64)
    ensures
        r as nat == seq_max(s@),
{
    let mut m: u64 = 0;
    let mut i: usize = 0;
    while i < s.len()
        invariant
            i <= s@.len(),
            m as nat == seq_max(s@.take(i as int)),
        decreases s@.len() - i,
    {
        assert(s@.take(i + 1).drop_last() =~= s@.take(i as int));
        if m < s[i] {
            m = s[i];
        }
        i = i + 1;
    }
    assert(s@.take(i as int) =~= s@);
    m
}

fn smooth_once(c: &Vec<bool>) -> (r: Vec<bool>)
    ensures
        r@ == smooth_pass(c@),
{
    let n = c.len();
    let mut flip: Vec<bool> = Vec::new();
    let mut i: usize = 0;
    while i < n
        invariant
            n == c@.len(),
            i <= n,
            flip@.len() == i,
            forall|j: int| 0 <= j < i ==> flip@[j] == flips_to_loud(c@, j),
        decreases n - i,
    {
        let f = 0 < i && i + 1 < n && c[i] && (!c[i - 1] || !c[i + 1]);
        flip.push(f);
        i = i + 1;
    }
    let mut out: Vec<bool> = Vec::new();
    let mut j: usize = 0;
    while j < n
        invariant
            n == c@.len(),
            flip@.len() == n,
            j <= n,
            out@.len() == j,
            forall|k: int| 0 <= k < n ==> flip@[k] == flips_to_loud(c@, k),
            forall|k: int| 0 <= k < j ==> out@[k] == smooth_pass(c@)[k],
        decreases n - j,
    {
        out.push(c[j] && !flip[j]);
        j = j + 1;
    }
    assert(out@ =~= smooth_pass(c@));
    out
}

/// Applies `frame_margin` smoothing passes to a classification.
pub fn smooth_margins(classification: &Vec<bool>, frame_margin: usize) -> (r: Vec<bool>)
    ensures
        r@ == smooth(classification@, frame_margin as nat),
        r@.len() == classification@.len(),
{
    let mut cur: Vec<bool> = classification.clone();
    let mut k: usize = 0;
    while k < frame_margin
        invariant
            k <= frame_margin,
            cur@ == smooth(classification@, k as nat),
        decreases frame_margin - k,
    {
        cur = smooth_once(&cur);
        k = k + 1;
    }
    proof {
        lemma_smooth_len(classification@, frame_margin as nat);
    }
    cur
}

/// Classifies loudness values as silent (`true`) or loud, then applies
/// `frame_margin` smoothing passes. Fails with `InsufficientAudioData` exactly
/// when fewer than two values are given.
pub fn classify(loudness: &Vec<u64>, threshold: ThresholdFraction, frame_margin: usize) -> (r:
    Result<Vec<bool>, AnalysisError>)
    requires
        threshold.wf(),
    ensures
        loudness@.len() < 2 <==> r == Err::<Vec<bool>, AnalysisError>(
            AnalysisError::InsufficientAudioData,
        ),
        loudness@.len() >= 2 ==> r is Ok,
        r is Ok ==> r->Ok_0@ == classification(loudness@, threshold, frame_margin as nat),
        r is Ok ==> r->Ok_0@.len() == loudness@.len(),
{
    if loudness.len() < 2 {
        return Err(AnalysisError::InsufficientAudioData);
    }
    let max = max_of(loudness);
    let mut classes: Vec<bool> = Vec::new();
    let mut i: usize = 0;
    while i < loudness.len()
        invariant
            i <= loudness@.len(),
            max as nat == seq_max(loudness@),
            classes@.len() == i,
            forall|j: int|
                0 <= j < i ==> classes@[j] == #[trigger] threshold_classes(loudness@, threshold)[j],
        decreases loudness@.len() - i,
    {
        let x = loudness[i];
        proof {
            lemma_u64_product_fits(x, threshold.denominator);
            lemma_u64_product_fits(max, threshold.numerator);
        }
        let silent = max == 0 || (x as u128) * (threshold.denominator as u128) < (max as u128)
            * (threshold.numerator as u128);
        classes.push(silent);
        i = i + 1;
    }
    assert(classes@ =~= threshold_classes(loudness@, threshold));
    Ok(smooth_margins(&classes, frame_margin))
}

/// Number of silent labels in a classification.
pub open spec fn silent_count(c: Seq<bool>) -> nat
    decreases c.len(),
{
    if c.len() == 0 {
        0
    } else {
        silent_count(c.drop_last()) + if c.last() {
            1nat
        } else {
            0nat
        }
    }
}

/// Counts the silent labels of a classification.
pub fn count_silent(classification: &Vec<bool>) -> (r: usize)
    ensures
        r == silent_count(classification@),
{
    let mut n: usize = 0;
    let mut i: usize = 0;
    while i < classification.len()
        invariant
            i <= classification@.len(),
            n == silent_count(classification@.take(i as int)),
            n <= i,
        decreases classification@.len() - i,
    {
        assert(classification@.take(i + 1).drop_last() =~= classification@.take(i as int));
        if classification[i] {
            n = n + 1;
        }
        i = i + 1;
    }
    assert(classification@.take(i as int) =~= classification@);
    n
}

} // verus!
