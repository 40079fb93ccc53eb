use oarfish::filter::{filter_alignment, AlignmentRecord, FilterConfig, Rejection, Strand, StrandFilter};

fn record(target: usize, read_len: u32, clip5: u32, clip3: u32, score: u32) -> AlignmentRecord {
    AlignmentRecord {
        read_id: 1,
        target,
        ref_start: 10,
        ref_end: 10 + (read_len - clip5 - clip3),
        read_len,
        clip5,
        clip3,
        score,
        strand: Strand::Forward,
        secondary: false,
        supplementary: false,
    }
}

fn permissive() -> FilterConfig {
    FilterConfig {
        five_prime_clip_max: u32::MAX,
        three_prime_clip_max: u32::MAX,
        score_threshold: 0,
        min_aligned_fraction: 0,
        min_aligned_len: 1,
        required_strand: StrandFilter::Both,
        score_buckets: 100,
    }
}

#[test]
fn long_five_prime_clip_is_rejected() {
    let mut cfg = permissive();
    cfg.five_prime_clip_max = 10;
    let r = record(0, 1000, 800, 0, 100);
    assert_eq!(filter_alignment(&r, 100, 1, &cfg).unwrap_err(), Rejection::FivePrimeClip);
}

#[test]
fn filter_gives_same_decision_twice() {
    let mut cfg = permissive();
    cfg.score_threshold = 900;
    let kept = record(0, 500, 5, 5, 95);
    let dropped = record(0, 500, 5, 5, 80);
    for r in [kept, dropped] {
        let a = filter_alignment(&r, 100, 1, &cfg);
        let b = filter_alignment(&r, 100, 1, &cfg);
        assert_eq!(a.is_ok(), b.is_ok());
        match (a, b) {
            (Ok(x), Ok(y)) => {
                assert_eq!(x.target, y.target);
                assert_eq!(x.score, y.score);
            }
            (Err(x), Err(y)) => assert_eq!(x, y),
            _ => panic!("decisions differ"),
        }
    }
}

#[test]
fn admitted_alignment_keeps_normalized_score() {
    let r = record(2, 300, 0, 0, 55);
    let a = filter_alignment(&r, 58, 3, &permissive()).unwrap();
    assert_eq!(a.target, 2);
    assert_eq!(a.score, 94);
    assert_eq!(a.ref_start, 10);
}

#[test]
fn zero_best_score_counts_fully() {
    let r = record(0, 300, 0, 0, 0);
    assert_eq!(filter_alignment(&r, 0, 1, &permissive()).unwrap().score, 100);
}

#[test]
fn each_rejection_has_an_input() {
    let base = permissive();
    // unknown transcript
    assert_eq!(filter_alignment(&record(5, 100, 0, 0, 10), 10, 2, &base).unwrap_err(), Rejection::Malformed);
    // clips longer than the read
    let mut bad = record(0, 100, 0, 0, 10);
    bad.clip5 = 60;
    bad.clip3 = 60;
    assert_eq!(filter_alignment(&bad, 10, 1, &base).unwrap_err(), Rejection::Malformed);
    // score above the best
    assert_eq!(filter_alignment(&record(0, 100, 0, 0, 20), 10, 1, &base).unwrap_err(), Rejection::Malformed);

    let mut c = base;
    c.three_prime_clip_max = 5;
    assert_eq!(filter_alignment(&record(0, 100, 0, 6, 10), 10, 1, &c).unwrap_err(), Rejection::ThreePrimeClip);

    let mut c = base;
    c.score_threshold = 950;
    assert_eq!(filter_alignment(&record(0, 100, 0, 0, 94), 100, 1, &c).unwrap_err(), Rejection::ScoreThreshold);
    assert!(filter_alignment(&record(0, 100, 0, 0, 95), 100, 1, &c).is_ok());

    let mut c = base;
    c.min_aligned_fraction = 500;
    assert_eq!(filter_alignment(&record(0, 100, 30, 21, 10), 10, 1, &c).unwrap_err(), Rejection::AlignedFraction);
    assert!(filter_alignment(&record(0, 100, 30, 20, 10), 10, 1, &c).is_ok());

    let mut c = base;
    c.min_aligned_len = 50;
    assert_eq!(filter_alignment(&record(0, 100, 30, 21, 10), 10, 1, &c).unwrap_err(), Rejection::AlignedLength);

    let mut c = base;
    c.required_strand = StrandFilter::Reverse;
    assert_eq!(filter_alignment(&record(0, 100, 0, 0, 10), 10, 1, &c).unwrap_err(), Rejection::WrongStrand);
}

#[test]
fn finer_score_buckets() {
    let mut cfg = permissive();
    cfg.score_buckets = 1000;
    let r = record(2, 300, 0, 0, 55);
    assert_eq!(filter_alignment(&r, 58, 3, &cfg).unwrap().score, 948);
    cfg.score_buckets = 10;
    assert_eq!(filter_alignment(&r, 58, 3, &cfg).unwrap().score, 9);
}
