//! The alignment filter: decides whether one alignment of a read is
//! admissible, and normalizes its score against the read's best score.
use vstd::prelude::*;

verus! {

/// Default resolution of normalized scores: hundredths of the read's best score.
pub const DEFAULT_SCORE_BUCKETS: u32 = 100;

/// Finest resolution of normalized scores the estimator takes.
pub const MAX_SCORE_BUCKETS: u32 = 1000;

/// Fractional thresholds in a [`FilterConfig`] are given in thousandths.
pub const PER_MILLE: u32 = 1000;

#[derive(Clone, Copy, Debug, PartialEq, Eq, Structural)]
pub enum Strand {
    Forward,
    Reverse,
}

/// Which strand an alignment must lie on to be admitted.
#[derive(Clone, Copy, Debug, PartialEq, Eq, Structural)]
pub enum StrandFilter {
    Forward,
    Reverse,
    Both,
}

/// One alignment of a read against a transcript, as the aligner reports it.
#[derive(Clone, Copy, Debug)]
pub struct AlignmentRecord {
    pub read_id: u64,
    /// Index of the transcript in the reference table.
    pub target: usize,
    pub ref_start: u32,
    pub ref_end: u32,
    pub read_len: u32,
    /// Soft-clipped bases at the 5' end of the read.
    pub clip5: u32,
    /// Soft-clipped bases at the 3' end of the read.
    pub clip3: u32,
    pub score: u32,
    pub strand: Strand,
    pub secondary: bool,
    pub supplementary: bool,
}

/// Thresholds of the filter; each check can be disabled by a permissive value.
#[derive(Clone, Copy, Debug)]
pub struct FilterConfig {
    pub five_prime_clip_max: u32,
    pub three_prime_clip_max: u32,
    /// Minimal score, in thousandths of the read's best score.
    pub score_threshold: u32,
    /// Minimal aligned part of the read, in thousandths of its length.
    pub min_aligned_fraction: u32,
    pub min_aligned_len: u32,
    pub required_strand: StrandFilter,
    /// Resolution of normalized scores: a score is kept as a whole number of
    /// `1 / score_buckets` of the read's best score, rounded down. Reads
    /// share a class only when their rounded scores agree.
    pub score_buckets: u32,
}

/// What is kept of an admitted alignment.
#[derive(Clone, Copy, Debug)]
pub struct Admissible {
    pub target: usize,
    /// Score in `1 / score_buckets` of the read's best score (at most `score_buckets`).
    pub score: u32,
    pub strand: Strand,
    pub ref_start: u32,
}

/// Why an alignment was not admitted; the checks run in the order listed.
#[derive(Clone, Copy, Debug, PartialEq, Eq, Structural)]
pub enum Rejection {
    /// Unknown transcript, empty read, clips longer than the read, reversed
    /// reference span, or a score above the read's best.
    Malformed,
    FivePrimeClip,
    ThreePrimeClip,
    ScoreThreshold,
    AlignedFraction,
    AlignedLength,
    WrongStrand,
}

/// Bases of the read covered by the alignment.
pub open spec fn aligned_len(r: AlignmentRecord) -> int {
    r.read_len - r.clip5 - r.clip3
}

pub open spec fn strand_ok(s: Strand, f: StrandFilter) -> bool {
    match f {
        StrandFilter::Both => true,
        StrandFilter::Forward => s == Strand::Forward,
        StrandFilter::Reverse => s == Strand::Reverse,
    }
}

/// A score in `1 / buckets` of the best score, rounded down (all scores
/// count fully when the best is 0).
pub open spec fn normalized_score(score: u32, best: u32, buckets: u32) -> int {
    if best == 0 {
        buckets as int
    } else {
        score as int * buckets as int / best as int
    }
}

pub open spec fn malformed(r: AlignmentRecord, best: u32, n_txps: usize) -> bool {
    r.target >= n_txps || r.read_len == 0 || r.clip5 + r.clip3 > r.read_len || r.ref_end
        < r.ref_start || r.score > best
}

/// The filter's decision on alignment `r` of a read whose best score is `best`.
pub open spec fn filter_spec(r: AlignmentRecord, best: u32, n_txps: usize, c: FilterConfig) -> Result<
    Admissible,
    Rejection,
> {
    if malformed(r, best, n_txps) {
        Err(Rejection::Malformed)
    } else if r.clip5 > c.five_prime_clip_max {
        Err(Rejection::FivePrimeClip)
    } else if r.clip3 > c.three_prime_clip_max {
        Err(Rejection::ThreePrimeClip)
    } else if r.score * PER_MILLE < c.score_threshold * best {
        Err(Rejection::ScoreThreshold)
    } else if aligned_len(r) * PER_MILLE < c.min_aligned_fraction * r.read_len {
        Err(Rejection::AlignedFraction)
    } else if aligned_len(r) < c.min_aligned_len {
        Err(Rejection::AlignedLength)
    } else if !strand_ok(r.strand, c.required_strand) {
        Err(Rejection::WrongStrand)
    } else {
        Ok(
            Admissible {
                target: r.target,
                score: normalized_score(r.score, best, c.score_buckets) as u32,
                strand: r.strand,
                ref_start: r.ref_start,
            },
        )
    }
}

/// The product of two 32-bit values fits in 64 bits.
pub proof fn lemma_u32_product_fits(a: u32, b: u32)
    ensures
        a as int * b as int <= u64::MAX,
{
    assert(a as int * b as int <= 0xffff_ffff * 0xffff_ffff) by (nonlinear_arith)
        requires a <= 0xffff_ffffu32, b <= 0xffff_ffffu32;
}

/// Applies the filter to alignment `r`, given the best score among the
/// read's alignments and the number of transcripts.
pub fn filter_alignment(r: &AlignmentRecord, best: u32, n_txps: usize, c: &FilterConfig) -> (res: Result<
    Admissible,
    Rejection,
>)
    ensures
        res == filter_spec(*r, best, n_txps, *c),
        res is Ok ==> res->Ok_0.score <= c.score_buckets && res->Ok_0.target < n_txps,
{
    if r.target >= n_txps || r.read_len == 0 || r.clip5 as u64 + r.clip3 as u64 > r.read_len as u64
        || r.ref_end < r.ref_start || r.score > best {
        return Err(Rejection::Malformed);
    }
    if r.clip5 > c.five_prime_clip_max {
        return Err(Rejection::FivePrimeClip);
    }
    if r.clip3 > c.three_prime_clip_max {
        return Err(Rejection::ThreePrimeClip);
    }
    proof {
        lemma_u32_product_fits(c.score_threshold, best);
        lemma_u32_product_fits(c.min_aligned_fraction, r.read_len);
    }
    if (r.score as u64) * (PER_MILLE as u64) < (c.score_threshold as u64) * (best as u64) {
        return Err(Rejection::ScoreThreshold);
    }
    let aligned: u32 = r.read_len - r.clip5 - r.clip3;
    if (aligned as u64) * (PER_MILLE as u64) < (c.min_aligned_fraction as u64) * (r.read_len as u64) {
        return Err(Rejection::AlignedFraction);
    }
    if aligned < c.min_aligned_len {
        return Err(Rejection::AlignedLength);
    }
    let strand_ok = match c.required_strand {
        StrandFilter::Both => true,
        StrandFilter::Forward => match r.strand {
            Strand::Forward => true,
            Strand::Reverse => false,
        },
        StrandFilter::Reverse => match r.strand {
            Strand::Forward => false,
            Strand::Reverse => true,
        },
    };
    if !strand_ok {
        return Err(Rejection::WrongStrand);
    }
    let score: u32 = if best == 0 {
        c.score_buckets
    } else {
        proof {
            let k = c.score_buckets as int;
            assert(r.score as int * k <= best as int * k) by (nonlinear_arith)
                requires r.score <= best, k >= 0;
            assert(r.score as int * k / best as int <= k) by (nonlinear_arith)
                requires r.score as int * k <= best as int * k, best > 0;
            lemma_u32_product_fits(r.score, c.score_buckets);
        }
        ((r.score as u64) * (c.score_buckets as u64) / (best as u64)) as u32
    };
    Ok(Admissible { target: r.target, score, strand: r.strand, ref_start: r.ref_start })
}

/// The filter is a pure function of the record, the read's best score and the
/// thresholds: applied twice, to the same record under the same thresholds, it
/// reaches the same decision.
pub proof fn lemma_filter_idempotent(
    r1: AlignmentRecord,
    r2: AlignmentRecord,
    best: u32,
    n_txps: usize,
    c: FilterConfig,
)
    requires
        r1 == r2,
    ensures
        filter_spec(r1, best, n_txps, c) == filter_spec(r2, best, n_txps, c),
{
}

/// Re-filtering: an admitted alignment is admitted again, with the same
/// target and strand, when the best score it is measured against drops to any
/// value still at least its own score (as when only a read's admitted
/// alignments are filtered once more).
pub proof fn lemma_refilter_admits(r: AlignmentRecord, best: u32, best2: u32, n_txps: usize, c: FilterConfig)
    requires
        filter_spec(r, best, n_txps, c) is Ok,
        r.score <= best2 <= best,
    ensures
        filter_spec(r, best2, n_txps, c) is Ok,
        filter_spec(r, best2, n_txps, c)->Ok_0.target == filter_spec(r, best, n_txps, c)->Ok_0.target,
        filter_spec(r, best2, n_txps, c)->Ok_0.strand == filter_spec(r, best, n_txps, c)->Ok_0.strand,
{
    let t = c.score_threshold as int;
    assert(t * best2 <= t * best) by (nonlinear_arith)
        requires 0 <= t, best2 <= best;
}

/// A well-formed alignment whose 5' clip is at least four fifths of a read
/// of 13 bases or more is rejected for its 5' clip when at most 10 clipped
/// bases are allowed.
pub proof fn lemma_long_five_prime_clip_rejected(r: AlignmentRecord, best: u32, n_txps: usize, c: FilterConfig)
    requires
        !malformed(r, best, n_txps),
        c.five_prime_clip_max == 10,
        r.read_len >= 13,
        5 * r.clip5 >= 4 * r.read_len,
    ensures
        filter_spec(r, best, n_txps, c) == Err::<Admissible, Rejection>(Rejection::FivePrimeClip),
{
}

/// An admitted alignment is self-consistent: its clips and aligned span make
/// up the read, and its normalized score is at most one whole.
pub proof fn lemma_admitted_consistent(r: AlignmentRecord, best: u32, n_txps: usize, c: FilterConfig)
    requires
        filter_spec(r, best, n_txps, c) is Ok,
    ensures
        r.clip5 + aligned_len(r) + r.clip3 == r.read_len,
        aligned_len(r) >= 0,
        0 <= filter_spec(r, best, n_txps, c)->Ok_0.score <= c.score_buckets,
        filter_spec(r, best, n_txps, c)->Ok_0.target < n_txps,
{
    if best > 0 {
        let k = c.score_buckets as int;
        assert(0 <= r.score as int * k / best as int <= k) by (nonlinear_arith)
            requires r.score <= best, best > 0, k >= 0;
    }
}

} // verus!
