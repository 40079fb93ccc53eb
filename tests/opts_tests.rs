use oarfish::filter::StrandFilter;
use oarfish::opts::{decompression_threads, filter_opts, index_threads, worker_threads, FilterGroup, FilterOverrides, OptsError};

fn none() -> FilterOverrides {
    FilterOverrides {
        five_prime_clip: None,
        three_prime_clip: None,
        score_threshold: None,
        min_aligned_fraction: None,
        min_aligned_len: None,
    }
}

#[test]
fn nanocount_preset() {
    let c = filter_opts(Some(FilterGroup::NanocountFilters), &none(), StrandFilter::Both).unwrap();
    assert_eq!(c.five_prime_clip_max, u32::MAX);
    assert_eq!(c.three_prime_clip_max, 50);
    assert_eq!(c.score_threshold, 950);
    assert_eq!(c.min_aligned_fraction, 500);
    assert_eq!(c.min_aligned_len, 50);
    assert_eq!(c.required_strand, StrandFilter::Forward);
}

#[test]
fn no_filters_preset_with_override() {
    let mut o = none();
    o.min_aligned_len = Some(30);
    let c = filter_opts(Some(FilterGroup::NoFilters), &o, StrandFilter::Reverse).unwrap();
    assert_eq!(c.three_prime_clip_max, u32::MAX);
    assert_eq!(c.score_threshold, 0);
    assert_eq!(c.min_aligned_len, 30);
    assert_eq!(c.required_strand, StrandFilter::Reverse);
}

#[test]
fn explicit_values_and_errors() {
    assert_eq!(filter_opts(None, &none(), StrandFilter::Both).unwrap_err(), OptsError::MissingValue);
    let o = FilterOverrides {
        five_prime_clip: Some(10),
        three_prime_clip: Some(20),
        score_threshold: Some(900),
        min_aligned_fraction: Some(400),
        min_aligned_len: Some(40),
    };
    let c = filter_opts(None, &o, StrandFilter::Both).unwrap();
    assert_eq!(c.five_prime_clip_max, 10);
    assert_eq!(c.three_prime_clip_max, 20);
    let mut high = o;
    high.min_aligned_fraction = Some(2000);
    assert_eq!(filter_opts(None, &high, StrandFilter::Both).unwrap().min_aligned_fraction, 2000);
    let mut over = none();
    over.score_threshold = Some(1001);
    assert_eq!(filter_opts(Some(FilterGroup::NanocountFilters), &over, StrandFilter::Both).unwrap().score_threshold, 1001);
}

#[test]
fn thread_budgets() {
    assert_eq!(decompression_threads(4, true), 1);
    assert_eq!(decompression_threads(8, true), 2);
    assert_eq!(decompression_threads(16, true), 3);
    assert_eq!(decompression_threads(16, false), 15);
    assert_eq!(decompression_threads(1, false), 1);
    assert_eq!(worker_threads(16, 3), 13);
    assert_eq!(worker_threads(2, 3), 1);
    assert_eq!(index_threads(8, true), 7);
    assert_eq!(index_threads(8, false), 8);
    assert_eq!(index_threads(1, true), 1);
}
