use oarfish::em::{em_step, estimate, max_abs_delta, relative_abundance, ClassMember, EmConfig, EmError, EqClass, Transcript, READ_UNIT};
use oarfish::eqclass::{build_classes, read_key, RejectCounts};
use oarfish::filter::{AlignmentRecord, FilterConfig, Strand, StrandFilter};
use oarfish::opts::{filter_opts, FilterGroup, FilterOverrides};
use oarfish::quant::quantify;

fn aln(read_id: u64, target: usize, score: u32) -> AlignmentRecord {
    AlignmentRecord {
        read_id,
        target,
        ref_start: 0,
        ref_end: 400,
        read_len: 400,
        clip5: 0,
        clip3: 0,
        score,
        strand: Strand::Forward,
        secondary: false,
        supplementary: false,
    }
}

fn no_filters() -> FilterConfig {
    let none = FilterOverrides {
        five_prime_clip: None,
        three_prime_clip: None,
        score_threshold: None,
        min_aligned_fraction: None,
        min_aligned_len: None,
    };
    filter_opts(Some(FilterGroup::NoFilters), &none, StrandFilter::Both).unwrap()
}

fn em_cfg() -> EmConfig {
    EmConfig { tolerance: 1, max_iterations: 10_000 }
}

#[test]
fn two_transcripts_three_reads() {
    let txps = vec![Transcript::with_len(1000), Transcript::with_len(500)];
    let reads = vec![
        vec![aln(0, 0, 60)],
        vec![aln(1, 1, 60)],
        vec![aln(2, 0, 55), aln(2, 1, 58)],
    ];
    let (cls, res) = quantify(&reads, &txps, &no_filters(), &em_cfg()).unwrap();
    assert_eq!(cls.classes.len(), 3);
    assert_eq!(cls.discarded_reads, 0);
    assert!(res.converged);
    assert!(res.iterations > 1);
    let a = &res.abundances;
    assert_eq!(a[0] + a[1], 3 * READ_UNIT);
    // each transcript holds its unique read and a part of the shared one
    assert!(a[0] >= READ_UNIT && a[0] <= 2 * READ_UNIT);
    assert!(a[1] >= READ_UNIT && a[1] <= 2 * READ_UNIT);
    // the shorter transcript with the better score takes the larger part
    assert!(a[1] > a[0]);
}

#[test]
fn rejected_read_never_reaches_classes() {
    let mut cfg = no_filters();
    cfg.five_prime_clip_max = 10;
    let mut clipped = aln(0, 0, 60);
    clipped.clip5 = 320;
    clipped.ref_end = 80;
    let reads = vec![vec![clipped], vec![aln(1, 0, 60)]];
    let cls = build_classes(&reads, 1, &cfg);
    assert_eq!(cls.rejected.five_prime_clip, 1);
    assert_eq!(cls.discarded_reads, 1);
    assert_eq!(cls.classes.len(), 1);
    assert_eq!(cls.classes[0].multiplicity, 1);
}

#[test]
fn reads_with_equal_keys_share_a_class() {
    let reads = vec![
        vec![aln(0, 0, 50), aln(0, 1, 50)],
        vec![aln(1, 1, 70), aln(1, 0, 70)],
        vec![aln(2, 0, 50)],
        vec![aln(3, 0, 50), aln(3, 0, 50)],
    ];
    let cls = build_classes(&reads, 2, &no_filters());
    assert_eq!(cls.classes.len(), 2);
    assert_eq!(cls.classes[0].multiplicity, 2);
    assert_eq!(cls.classes[1].multiplicity, 2);
    assert_eq!(cls.classes[1].members.len(), 1);
}

#[test]
fn read_key_counts_rejections() {
    let mut cfg = no_filters();
    cfg.required_strand = StrandFilter::Forward;
    let mut rev = aln(0, 1, 60);
    rev.strand = Strand::Reverse;
    let mut counts = RejectCounts::new();
    let key = read_key(&vec![aln(0, 0, 60), rev], 2, &cfg, &mut counts);
    assert_eq!(key.len(), 1);
    assert_eq!(key[0], ClassMember { target: 0, score: 100 });
    assert_eq!(counts.wrong_strand, 1);
}

#[test]
fn multiplicities_and_step_conserve_reads() {
    let txps = vec![Transcript::with_len(800), Transcript::with_len(400), Transcript::with_len(1200)];
    let reads = vec![
        vec![aln(0, 0, 60), aln(0, 1, 59)],
        vec![aln(1, 2, 60)],
        vec![aln(2, 0, 30), aln(2, 2, 60)],
        vec![aln(3, 1, 60), aln(3, 0, 60)],
        vec![aln(4, 0, 10)],
    ];
    let cls = build_classes(&reads, 3, &no_filters());
    let total: u64 = cls.classes.iter().map(|c| c.multiplicity).sum();
    assert_eq!(total, 5);
    let ab = vec![READ_UNIT, 3 * READ_UNIT, 17];
    let next = em_step(&ab, &txps, &cls.classes);
    assert_eq!(next.iter().sum::<u64>(), 5 * READ_UNIT);
}

#[test]
fn unreferenced_transcript_ends_at_zero() {
    let txps = vec![Transcript::with_len(1000), Transcript::with_len(700), Transcript::with_len(900)];
    let reads = vec![vec![aln(0, 0, 60)], vec![aln(1, 2, 60), aln(1, 0, 50)]];
    let (_, res) = quantify(&reads, &txps, &no_filters(), &em_cfg()).unwrap();
    assert_eq!(res.abundances[1], 0);
    assert_eq!(res.abundances[0] + res.abundances[2], 2 * READ_UNIT);
}

#[test]
fn shuffled_reads_give_the_same_abundances() {
    let txps = vec![Transcript::with_len(1000), Transcript::with_len(600), Transcript::with_len(1500)];
    let reads = vec![
        vec![aln(0, 0, 60), aln(0, 1, 57)],
        vec![aln(1, 1, 60)],
        vec![aln(2, 2, 60), aln(2, 0, 52)],
        vec![aln(3, 0, 60)],
        vec![aln(4, 0, 60), aln(4, 1, 57)],
    ];
    let shuffled = vec![reads[3].clone(), reads[2].clone(), reads[4].clone(), reads[1].clone(), reads[0].clone()];
    let (_, a) = quantify(&reads, &txps, &no_filters(), &em_cfg()).unwrap();
    let (_, b) = quantify(&shuffled, &txps, &no_filters(), &em_cfg()).unwrap();
    assert_eq!(a.abundances, b.abundances);
    assert_eq!(a.iterations, b.iterations);
}

#[test]
fn change_shrinks_over_iterations() {
    // three transcripts, ten reads; truth: about 5, 3 and 2 reads
    let txps = vec![Transcript::with_len(1000), Transcript::with_len(1000), Transcript::with_len(1000)];
    let reads = vec![
        vec![aln(0, 0, 60)],
        vec![aln(1, 0, 60)],
        vec![aln(2, 0, 60)],
        vec![aln(3, 0, 60), aln(3, 1, 58)],
        vec![aln(4, 0, 60), aln(4, 1, 60)],
        vec![aln(5, 1, 60)],
        vec![aln(6, 1, 60), aln(6, 2, 59)],
        vec![aln(7, 1, 57), aln(7, 2, 60)],
        vec![aln(8, 2, 60)],
        vec![aln(9, 0, 60), aln(9, 2, 55)],
    ];
    let cls = build_classes(&reads, 3, &no_filters());
    let mut ab = vec![READ_UNIT; 3];
    let mut deltas = Vec::new();
    for _ in 0..30 {
        let next = em_step(&ab, &txps, &cls.classes);
        deltas.push(max_abs_delta(&ab, &next));
        ab = next;
    }
    // the largest change over a sliding window of three iterations never grows
    let window = 3;
    let wmax = |k: usize| *deltas[k..k + window].iter().max().unwrap();
    for k in 1..=deltas.len() - window {
        assert!(wmax(k) <= wmax(k - 1), "windowed change grew at {}: {:?}", k, deltas);
    }
    assert_eq!(*deltas.last().unwrap(), 0);
    assert_eq!(ab.iter().sum::<u64>(), 10 * READ_UNIT);
    assert!(ab[0] > ab[1] && ab[1] > ab[2]);
}

#[test]
fn all_zero_weights_split_evenly() {
    let txps = vec![Transcript::with_len(100), Transcript::with_len(100)];
    let classes = vec![EqClass {
        members: vec![ClassMember { target: 0, score: 0 }, ClassMember { target: 1, score: 0 }],
        multiplicity: 2,
    }];
    let next = em_step(&vec![READ_UNIT, READ_UNIT], &txps, &classes);
    assert_eq!(next, vec![READ_UNIT, READ_UNIT]);
}

#[test]
fn step_splits_by_weight_exactly() {
    // weights 1:3 (same score, same length, abundances 1:3)
    let txps = vec![Transcript::with_len(100), Transcript::with_len(100)];
    let classes = vec![EqClass {
        members: vec![ClassMember { target: 0, score: 100 }, ClassMember { target: 1, score: 100 }],
        multiplicity: 4,
    }];
    let next = em_step(&vec![READ_UNIT, 3 * READ_UNIT], &txps, &classes);
    assert_eq!(next, vec![READ_UNIT, 3 * READ_UNIT]);
}

#[test]
fn iteration_cap_reports_no_convergence() {
    let txps = vec![Transcript::with_len(1000), Transcript::with_len(500)];
    let reads = vec![vec![aln(0, 0, 60)], vec![aln(1, 0, 55), aln(1, 1, 58)]];
    let cfg = EmConfig { tolerance: 0, max_iterations: 1 };
    let (_, res) = quantify(&reads, &txps, &no_filters(), &cfg).unwrap();
    assert!(!res.converged);
    assert_eq!(res.iterations, 1);
}

#[test]
fn configuration_errors() {
    let classes: Vec<EqClass> = Vec::new();
    assert_eq!(estimate(&Vec::new(), &classes, &em_cfg()).unwrap_err(), EmError::NoTranscripts);
    let cfg = EmConfig { tolerance: 1, max_iterations: 0 };
    assert_eq!(estimate(&vec![Transcript::with_len(10)], &classes, &cfg).unwrap_err(), EmError::NoIterations);
}

#[test]
fn no_classes_converge_at_once() {
    let res = estimate(&vec![Transcript::with_len(10)], &Vec::new(), &em_cfg()).unwrap();
    assert!(res.converged);
    assert_eq!(res.iterations, 1);
    assert_eq!(res.abundances, vec![0]);
}

#[test]
fn zero_effective_length_is_floored() {
    let txps = vec![Transcript { len: 0, eff_len: 0 }, Transcript::with_len(1)];
    let classes = vec![EqClass {
        members: vec![ClassMember { target: 0, score: 100 }, ClassMember { target: 1, score: 100 }],
        multiplicity: 2,
    }];
    let next = em_step(&vec![READ_UNIT, READ_UNIT], &txps, &classes);
    assert_eq!(next, vec![READ_UNIT, READ_UNIT]);
}

#[test]
fn relative_abundance_per_unit_length() {
    let txps = vec![Transcript::with_len(100), Transcript::with_len(300)];
    assert_eq!(relative_abundance(&vec![READ_UNIT, READ_UNIT], &txps), vec![750_000, 249_999]);
    assert_eq!(relative_abundance(&vec![0, 0], &txps), vec![0, 0]);
    assert_eq!(relative_abundance(&vec![0, 5 * READ_UNIT], &txps), vec![0, 1_000_000]);
}

#[test]
fn record_order_within_a_read_does_not_matter() {
    let txps = vec![Transcript::with_len(1000), Transcript::with_len(500)];
    let forward = vec![vec![aln(0, 0, 60)], vec![aln(1, 1, 60)], vec![aln(2, 0, 55), aln(2, 1, 58)]];
    let reversed = vec![vec![aln(0, 0, 60)], vec![aln(1, 1, 60)], vec![aln(2, 1, 58), aln(2, 0, 55)]];
    let (ca, a) = quantify(&forward, &txps, &no_filters(), &em_cfg()).unwrap();
    let (cb, b) = quantify(&reversed, &txps, &no_filters(), &em_cfg()).unwrap();
    assert_eq!(ca.classes[2].members, cb.classes[2].members);
    assert_eq!(ca.classes[2].members[0], ClassMember { target: 0, score: 94 });
    assert_eq!(a.abundances, b.abundances);
}
