//! Run options: filter presets with user overrides, and thread budgets.
use crate::filter::{FilterConfig, StrandFilter, DEFAULT_SCORE_BUCKETS};
use vstd::prelude::*;

verus! {

/// Preset groups of filter thresholds.
#[derive(Clone, Copy, Debug, PartialEq, Eq, Structural)]
pub enum FilterGroup {
    /// Every filter disabled.
    NoFilters,
    /// The thresholds NanoCount uses, forward strand only.
    NanocountFilters,
}

/// Thresholds given explicitly on the command line (fractions in thousandths).
#[derive(Clone, Copy, Debug)]
pub struct FilterOverrides {
    pub five_prime_clip: Option<u32>,
    pub three_prime_clip: Option<u32>,
    pub score_threshold: Option<u32>,
    pub min_aligned_fraction: Option<u32>,
    pub min_aligned_len: Option<u32>,
}

#[derive(Clone, Copy, Debug, PartialEq, Eq, Structural)]
pub enum OptsError {
    /// Without a preset every threshold must be given.
    MissingValue,
}

pub open spec fn or_default(o: Option<u32>, d: u32) -> u32 {
    match o {
        Some(v) => v,
        None => d,
    }
}

/// Thresholds of a preset, each replaced by its override where one is given.
pub open spec fn preset(g: FilterGroup, o: FilterOverrides, strand: StrandFilter) -> FilterConfig {
    match g {
        FilterGroup::NoFilters => FilterConfig {
            five_prime_clip_max: or_default(o.five_prime_clip, u32::MAX),
            three_prime_clip_max: or_default(o.three_prime_clip, u32::MAX),
            score_threshold: or_default(o.score_threshold, 0),
            min_aligned_fraction: or_default(o.min_aligned_fraction, 0),
            min_aligned_len: or_default(o.min_aligned_len, 1),
            required_strand: strand,
            score_buckets: DEFAULT_SCORE_BUCKETS,
        },
        FilterGroup::NanocountFilters => FilterConfig {
            five_prime_clip_max: or_default(o.five_prime_clip, u32::MAX),
            three_prime_clip_max: or_default(o.three_prime_clip, 50),
            score_threshold: or_default(o.score_threshold, 950),
            min_aligned_fraction: or_default(o.min_aligned_fraction, 500),
            min_aligned_len: or_default(o.min_aligned_len, 50),
            required_strand: StrandFilter::Forward,
            score_buckets: DEFAULT_SCORE_BUCKETS,
        },
    }
}

/// The filter thresholds chosen by a preset group and explicit values.
pub open spec fn filter_opts_spec(g: Option<FilterGroup>, o: FilterOverrides, strand: StrandFilter) -> Result<FilterConfig, OptsError> {
    let cfg = match g {
        Some(grp) => Some(preset(grp, o, strand)),
        None => if o.five_prime_clip is Some && o.three_prime_clip is Some && o.score_threshold is Some
            && o.min_aligned_fraction is Some && o.min_aligned_len is Some {
            Some(
                FilterConfig {
                    five_prime_clip_max: o.five_prime_clip->Some_0,
                    three_prime_clip_max: o.three_prime_clip->Some_0,
                    score_threshold: o.score_threshold->Some_0,
                    min_aligned_fraction: o.min_aligned_fraction->Some_0,
                    min_aligned_len: o.min_aligned_len->Some_0,
                    required_strand: strand,
                    score_buckets: DEFAULT_SCORE_BUCKETS,
                },
            )
        } else {
            None
        },
    };
    match cfg {
        None => Err(OptsError::MissingValue),
        Some(c) => Ok(c),
    }
}

fn pick(o: Option<u32>, d: u32) -> (r: u32)
    ensures
        r == or_default(o, d),
{
    match o {
        Some(v) => v,
        None => d,
    }
}

/// Chooses the filter thresholds from a preset group (if any), the values
/// given explicitly, and the strand the user asked for.
pub fn filter_opts(group: Option<FilterGroup>, o: &FilterOverrides, strand: StrandFilter) -> (r: Result<FilterConfig, OptsError>)
    ensures
        r == filter_opts_spec(group, *o, strand),
        group is Some ==> r == Ok::<FilterConfig, OptsError>(preset(group->Some_0, *o, strand)),
        group is None ==> (r is Err <==> (o.five_prime_clip is None || o.three_prime_clip is None
            || o.score_threshold is None || o.min_aligned_fraction is None || o.min_aligned_len is None)),
{
    let cfg = match group {
        Some(FilterGroup::NoFilters) => FilterConfig {
            five_prime_clip_max: pick(o.five_prime_clip, u32::MAX),
            three_prime_clip_max: pick(o.three_prime_clip, u32::MAX),
            score_threshold: pick(o.score_threshold, 0),
            min_aligned_fraction: pick(o.min_aligned_fraction, 0),
            min_aligned_len: pick(o.min_aligned_len, 1),
            required_strand: strand,
            score_buckets: DEFAULT_SCORE_BUCKETS,
        },
        Some(FilterGroup::NanocountFilters) => FilterConfig {
            five_prime_clip_max: pick(o.five_prime_clip, u32::MAX),
            three_prime_clip_max: pick(o.three_prime_clip, 50),
            score_threshold: pick(o.score_threshold, 950),
            min_aligned_fraction: pick(o.min_aligned_fraction, 500),
            min_aligned_len: pick(o.min_aligned_len, 50),
            required_strand: StrandFilter::Forward,
            score_buckets: DEFAULT_SCORE_BUCKETS,
        },
        None => match (o.five_prime_clip, o.three_prime_clip, o.score_threshold, o.min_aligned_fraction, o.min_aligned_len) {
            (Some(fpc), Some(tpc), Some(st), Some(maf), Some(mal)) => FilterConfig {
                five_prime_clip_max: fpc,
                three_prime_clip_max: tpc,
                score_threshold: st,
                min_aligned_fraction: maf,
                min_aligned_len: mal,
                required_strand: strand,
                score_buckets: DEFAULT_SCORE_BUCKETS,
            },
            _ => {
                return Err(OptsError::MissingValue);
            },
        },
    };
    Ok(cfg)
}

/// Threads given to decompressing the alignment file. When reads are
/// quantified per cell, parsing runs beside quantification and gets few
/// threads; otherwise all but one, and at least one.
pub open spec fn decompression_threads_spec(threads: usize, single_cell: bool) -> usize {
    if single_cell {
        if 1 <= threads <= 6 {
            1
        } else if threads == 7 || threads == 8 {
            2
        } else {
            3
        }
    } else if threads <= 1 {
        1
    } else {
        (threads - 1) as usize
    }
}

pub fn decompression_threads(threads: usize, single_cell: bool) -> (r: usize)
    ensures
        r == decompression_threads_spec(threads, single_cell),
        r >= 1,
{
    if single_cell {
        if 1 <= threads && threads <= 6 {
            1
        } else if threads == 7 || threads == 8 {
            2
        } else {
            3
        }
    } else if threads <= 1 {
        1
    } else {
        threads - 1
    }
}

/// Worker threads left after `decompression` threads are set apart, at least one.
pub fn worker_threads(threads: usize, decompression: usize) -> (r: usize)
    ensures
        r == if threads > decompression + 1 { threads - decompression } else { 1 },
        r >= 1,
{
    let rest = threads.saturating_sub(decompression);
    if rest > 1 {
        rest
    } else {
        1
    }
}

/// Threads for building the aligner's index: all of them but one while a
/// reference digest is computed beside it, and at least one.
pub fn index_threads(threads: usize, digest_in_parallel: bool) -> (r: usize)
    ensures
        r == if digest_in_parallel {
            if threads > 2 { threads - 1 } else { 1 }
        } else if threads > 1 {
            threads as int
        } else {
            1
        },
        r >= 1,
{
    let sub: usize = if digest_in_parallel { 1 } else { 0 };
    let rest = threads.saturating_sub(sub);
    if rest > 1 {
        rest
    } else {
        1
    }
}

} // verus!
