//! Groups the admissible alignments of each read into equivalence classes:
//! reads whose sets of (transcript, normalized score) pairs are equal share
//! one class, whose multiplicity counts them.
//!
//! Keys are kept sorted by (transcript, score), so a class's candidates do
//! not depend on the order of a read's alignments. A read's key is looked up
//! among the classes found so far by comparing keys one class at a time.
use crate::em::{
    class_wf, classes_wf, lemma_reads_upto_mono, lemma_reads_upto_push, lemma_reads_upto_update,
    total_reads, ClassMember, EqClass, MAX_CLASS_SIZE, MAX_READS,
};
use crate::filter::{filter_alignment, filter_spec, Admissible, AlignmentRecord, FilterConfig, Rejection, MAX_SCORE_BUCKETS};
use vstd::prelude::*;

verus! {

/// Alignments turned away by the filter, by the check that rejected them.
#[derive(Clone, Copy, Debug)]
pub struct RejectCounts {
    pub malformed: u64,
    pub five_prime_clip: u64,
    pub three_prime_clip: u64,
    pub score_threshold: u64,
    pub aligned_fraction: u64,
    pub aligned_length: u64,
    pub wrong_strand: u64,
}

impl RejectCounts {
    pub open spec fn total(&self) -> int {
        self.malformed + self.five_prime_clip + self.three_prime_clip + self.score_threshold
            + self.aligned_fraction + self.aligned_length + self.wrong_strand
    }

    /// The count of rejections of kind `why`.
    pub open spec fn count(&self, why: Rejection) -> int {
        match why {
            Rejection::Malformed => self.malformed as int,
            Rejection::FivePrimeClip => self.five_prime_clip as int,
            Rejection::ThreePrimeClip => self.three_prime_clip as int,
            Rejection::ScoreThreshold => self.score_threshold as int,
            Rejection::AlignedFraction => self.aligned_fraction as int,
            Rejection::AlignedLength => self.aligned_length as int,
            Rejection::WrongStrand => self.wrong_strand as int,
        }
    }

    pub fn new() -> (r: RejectCounts)
        ensures
            r.total() == 0,
            forall|w: Rejection| #[trigger] r.count(w) == 0,
    {
        RejectCounts {
            malformed: 0,
            five_prime_clip: 0,
            three_prime_clip: 0,
            score_threshold: 0,
            aligned_fraction: 0,
            aligned_length: 0,
            wrong_strand: 0,
        }
    }

    /// Counts one rejection of kind `why`.
    pub fn record(&mut self, why: Rejection)
        requires
            old(self).total() < u64::MAX,
        ensures
            final(self).total() == old(self).total() + 1,
            forall|w: Rejection| #[trigger] final(self).count(w) == old(self).count(w) + if w == why {
                1int
            } else {
                0
            },
    {
        match why {
            Rejection::Malformed => self.malformed = self.malformed + 1,
            Rejection::FivePrimeClip => self.five_prime_clip = self.five_prime_clip + 1,
            Rejection::ThreePrimeClip => self.three_prime_clip = self.three_prime_clip + 1,
            Rejection::ScoreThreshold => self.score_threshold = self.score_threshold + 1,
            Rejection::AlignedFraction => self.aligned_fraction = self.aligned_fraction + 1,
            Rejection::AlignedLength => self.aligned_length = self.aligned_length + 1,
            Rejection::WrongStrand => self.wrong_strand = self.wrong_strand + 1,
        }
    }
}

/// The classes of a set of reads, with what was left out.
#[derive(Clone, Debug)]
pub struct ClassSet {
    pub classes: Vec<EqClass>,
    pub rejected: RejectCounts,
    /// Reads none of whose alignments was admitted.
    pub discarded_reads: u64,
}

/// Highest score among the first `i` alignments of a read.
pub open spec fn best_score_upto(rs: Seq<AlignmentRecord>, i: int) -> u32
    decreases i,
{
    if i <= 0 {
        0
    } else {
        let b = best_score_upto(rs, i - 1);
        if rs[i - 1].score > b {
            rs[i - 1].score
        } else {
            b
        }
    }
}

/// Highest score among all alignments of a read; every alignment, whatever
/// its flags, takes part.
pub open spec fn best_score(rs: Seq<AlignmentRecord>) -> u32 {
    best_score_upto(rs, rs.len() as int)
}

pub open spec fn member_of(a: Admissible) -> ClassMember {
    ClassMember { target: a.target, score: a.score }
}

/// The filter's decision on alignment `i` of read `rs`.
pub open spec fn decision(rs: Seq<AlignmentRecord>, n: usize, c: FilterConfig, i: int) -> Result<Admissible, Rejection> {
    filter_spec(rs[i], best_score(rs), n, c)
}

/// Whether `m` stems from one of the first `k` alignments of read `rs`.
pub open spec fn in_key_upto(rs: Seq<AlignmentRecord>, n: usize, c: FilterConfig, m: ClassMember, k: int) -> bool {
    exists|i: int|
        0 <= i < k && i < rs.len() && decision(rs, n, c, i) is Ok && #[trigger] member_of(
            decision(rs, n, c, i)->Ok_0,
        ) == m
}

/// The class key of read `rs`: the pairs of its admitted alignments.
pub open spec fn in_key(rs: Seq<AlignmentRecord>, n: usize, c: FilterConfig, m: ClassMember) -> bool {
    in_key_upto(rs, n, c, m, rs.len() as int)
}

pub open spec fn has_admissible(rs: Seq<AlignmentRecord>, n: usize, c: FilterConfig) -> bool {
    exists|i: int| 0 <= i < rs.len() && #[trigger] decision(rs, n, c, i) is Ok
}

/// Reads among the first `k` that have an admitted alignment.
pub open spec fn n_admitted_reads(reads: Seq<Vec<AlignmentRecord>>, n: usize, c: FilterConfig, k: int) -> int
    decreases k,
{
    if k <= 0 {
        0
    } else {
        n_admitted_reads(reads, n, c, k - 1) + if has_admissible(reads[k - 1]@, n, c) {
            1int
        } else {
            0
        }
    }
}

pub open spec fn same_members(a: Seq<ClassMember>, b: Seq<ClassMember>) -> bool {
    forall|m: ClassMember| a.contains(m) <==> b.contains(m)
}

fn best_score_exec(rs: &Vec<AlignmentRecord>) -> (b: u32)
    ensures
        b == best_score(rs@),
        forall|i: int| 0 <= i < rs.len() ==> rs@[i].score <= b,
{
    let mut b: u32 = 0;
    let mut i: usize = 0;
    while i < rs.len()
        invariant
            0 <= i <= rs.len(),
            b == best_score_upto(rs@, i as int),
            forall|k: int| 0 <= k < i ==> rs@[k].score <= b,
        decreases rs.len() - i,
    {
        if rs[i].score > b {
            b = rs[i].score;
        }
        i = i + 1;
    }
    b
}

fn contains_member(v: &Vec<ClassMember>, m: ClassMember) -> (r: bool)
    ensures
        r == v@.contains(m),
{
    let mut i: usize = 0;
    while i < v.len()
        invariant
            0 <= i <= v.len(),
            forall|k: int| 0 <= k < i ==> v@[k] != m,
        decreases v.len() - i,
    {
        if v[i].target == m.target && v[i].score == m.score {
            assert(v@[i as int] == m);
            return true;
        }
        i = i + 1;
    }
    false
}

/// Whether every member of `a` is a member of `b`.
fn members_within(a: &Vec<ClassMember>, b: &Vec<ClassMember>) -> (r: bool)
    ensures
        r == (forall|m: ClassMember| a@.contains(m) ==> b@.contains(m)),
{
    let mut i: usize = 0;
    while i < a.len()
        invariant
            0 <= i <= a.len(),
            forall|k: int| 0 <= k < i ==> b@.contains(#[trigger] a@[k]),
        decreases a.len() - i,
    {
        if !contains_member(b, a[i]) {
            assert(a@.contains(a@[i as int]));
            return false;
        }
        i = i + 1;
    }
    true
}

fn same_members_exec(a: &Vec<ClassMember>, b: &Vec<ClassMember>) -> (r: bool)
    ensures
        r == same_members(a@, b@),
{
    members_within(a, b) && members_within(b, a)
}

/// The order of keys: by transcript, then by score.
pub open spec fn member_lt(a: ClassMember, b: ClassMember) -> bool {
    a.target < b.target || (a.target == b.target && a.score < b.score)
}

pub open spec fn strictly_sorted(s: Seq<ClassMember>) -> bool {
    forall|i: int, j: int| 0 <= i < j < s.len() ==> member_lt(#[trigger] s[i], #[trigger] s[j])
}

/// Adds `m` to the sorted `key` where it belongs, unless it is there.
fn insert_sorted(key: &mut Vec<ClassMember>, m: ClassMember)
    requires
        strictly_sorted(old(key)@),
    ensures
        strictly_sorted(final(key)@),
        final(key)@.no_duplicates(),
        forall|x: ClassMember| final(key)@.contains(x) <==> (old(key)@.contains(x) || x == m),
        final(key).len() <= old(key).len() + 1,
        forall|k: int| 0 <= k < final(key).len() ==> (#[trigger] final(key)@[k] == m || old(key)@.contains(final(key)@[k])),
{
    let ghost old_key = key@;
    let mut p: usize = 0;
    while p < key.len() && (key[p].target < m.target || (key[p].target == m.target && key[p].score < m.score))
        invariant
            0 <= p <= key.len(),
            key@ == old_key,
            forall|k: int| 0 <= k < p ==> member_lt(#[trigger] key@[k], m),
        decreases key.len() - p,
    {
        p = p + 1;
    }
    if p < key.len() && key[p].target == m.target && key[p].score == m.score {
        proof {
            assert(key@[p as int] == m);
            assert forall|x: int, y: int| 0 <= x < key.len() && 0 <= y < key.len() && x != y implies key@[x] != key@[y] by {
                if x < y {
                    assert(member_lt(key@[x], key@[y]));
                } else {
                    assert(member_lt(key@[y], key@[x]));
                }
            }
            assert(key@.contains(key@[p as int]));
        }
        return;
    }
    key.insert(p, m);
    proof {
        let nk = key@;
        assert(nk == old_key.insert(p as int, m));
        assert forall|k: int| 0 <= k < nk.len() implies (k < p ==> nk[k] == old_key[k]) && (k == p ==> nk[k] == m) && (k > p ==> nk[k] == old_key[k - 1]) by {}
        assert forall|i: int, j: int| 0 <= i < j < nk.len() implies member_lt(#[trigger] nk[i], #[trigger] nk[j]) by {
            if j > p && i < p {
                assert(member_lt(old_key[i], old_key[j - 1]));
            } else if j > p && i == p {
                assert(!member_lt(old_key[p as int], m));
                if j - 1 > p {
                    assert(member_lt(old_key[p as int], old_key[j - 1]));
                }
            } else if j > p {
                assert(member_lt(old_key[i - 1], old_key[j - 1]));
            } else if j == p {
                assert(member_lt(old_key[i], m));
            } else {
                assert(member_lt(old_key[i], old_key[j]));
            }
        }
        assert forall|x: int, y: int| 0 <= x < nk.len() && 0 <= y < nk.len() && x != y implies nk[x] != nk[y] by {
            if x < y {
                assert(member_lt(nk[x], nk[y]));
            } else {
                assert(member_lt(nk[y], nk[x]));
            }
        }
        assert forall|x: ClassMember| nk.contains(x) <==> (old_key.contains(x) || x == m) by {
            if nk.contains(x) {
                let k = choose|k: int| 0 <= k < nk.len() && nk[k] == x;
                if k < p {
                    assert(old_key[k] == x);
                } else if k > p {
                    assert(old_key[k - 1] == x);
                }
            }
            if old_key.contains(x) {
                let k = choose|k: int| 0 <= k < old_key.len() && old_key[k] == x;
                if k < p {
                    assert(nk[k] == x);
                } else {
                    assert(nk[k + 1] == x);
                }
            }
            if x == m {
                assert(nk[p as int] == m);
            }
        }
        assert forall|k: int| 0 <= k < nk.len() implies (#[trigger] nk[k] == m || old_key.contains(nk[k])) by {
            if k < p {
                assert(old_key[k] == nk[k]);
            } else if k > p {
                assert(old_key[k - 1] == nk[k]);
            }
        }
    }
}

/// Two strictly sorted keys with the same members are the same sequence, so
/// a class's key does not depend on the order of the alignments it came from.
pub proof fn lemma_sorted_keys_equal(a: Seq<ClassMember>, b: Seq<ClassMember>)
    requires
        strictly_sorted(a),
        strictly_sorted(b),
        same_members(a, b),
    ensures
        a == b,
    decreases a.len(),
{
    if a.len() == 0 {
        if b.len() > 0 {
            assert(b.contains(b[0]));
        }
        assert(a =~= b);
    } else {
        assert(a.contains(a[0]));
        assert(b.len() > 0);
        assert(b.contains(b[0]));
        let ka = choose|k: int| 0 <= k < a.len() && a[k] == b[0];
        let kb = choose|k: int| 0 <= k < b.len() && b[k] == a[0];
        if ka > 0 {
            assert(member_lt(a[0], a[ka]));
            if kb > 0 {
                assert(member_lt(b[0], b[kb]));
            }
        }
        if kb > 0 {
            assert(member_lt(b[0], b[kb]));
        }
        assert(a[0] == b[0]);
        let (ta, tb) = (a.drop_first(), b.drop_first());
        assert forall|i: int, j: int| 0 <= i < j < ta.len() implies member_lt(#[trigger] ta[i], #[trigger] ta[j]) by {
            assert(member_lt(a[i + 1], a[j + 1]));
        }
        assert forall|i: int, j: int| 0 <= i < j < tb.len() implies member_lt(#[trigger] tb[i], #[trigger] tb[j]) by {
            assert(member_lt(b[i + 1], b[j + 1]));
        }
        assert forall|x: ClassMember| ta.contains(x) <==> tb.contains(x) by {
            if ta.contains(x) {
                let k = choose|k: int| 0 <= k < ta.len() && ta[k] == x;
                assert(member_lt(a[0], a[k + 1]));
                assert(a.contains(a[k + 1]));
                let k2 = choose|k2: int| 0 <= k2 < b.len() && b[k2] == x;
                assert(k2 != 0);
                assert(tb[k2 - 1] == x);
            }
            if tb.contains(x) {
                let k = choose|k: int| 0 <= k < tb.len() && tb[k] == x;
                assert(member_lt(b[0], b[k + 1]));
                assert(b.contains(b[k + 1]));
                let k2 = choose|k2: int| 0 <= k2 < a.len() && a[k2] == x;
                assert(k2 != 0);
                assert(ta[k2 - 1] == x);
            }
        }
        lemma_sorted_keys_equal(ta, tb);
        assert(a.len() == b.len());
        assert forall|i: int| 0 <= i < a.len() implies a[i] == b[i] by {
            if i > 0 {
                assert(a[i] == ta[i - 1] && b[i] == tb[i - 1]);
            }
        }
        assert(a =~= b);
    }
}

proof fn lemma_best_score_upto(rs: Seq<AlignmentRecord>, k: int)
    requires
        0 <= k <= rs.len(),
    ensures
        forall|i: int| 0 <= i < k ==> (#[trigger] rs[i]).score <= best_score_upto(rs, k),
        k == 0 ==> best_score_upto(rs, k) == 0,
        k > 0 ==> exists|i: int| 0 <= i < k && (#[trigger] rs[i]).score == best_score_upto(rs, k),
    decreases k,
{
    if k > 0 {
        lemma_best_score_upto(rs, k - 1);
    }
}

/// A read's best score, admitted pairs and key do not depend on the order
/// of its alignment records: two reads with the same records, in any order,
/// have the same key (and with [`lemma_sorted_keys_equal`], `read_key`
/// returns the same sequence for both).
pub proof fn lemma_key_order_free(rs1: Seq<AlignmentRecord>, rs2: Seq<AlignmentRecord>, n: usize, c: FilterConfig)
    requires
        forall|r: AlignmentRecord| rs1.contains(r) <==> rs2.contains(r),
    ensures
        best_score(rs1) == best_score(rs2),
        has_admissible(rs1, n, c) == has_admissible(rs2, n, c),
        forall|m: ClassMember| in_key(rs1, n, c, m) <==> in_key(rs2, n, c, m),
{
    lemma_best_score_upto(rs1, rs1.len() as int);
    lemma_best_score_upto(rs2, rs2.len() as int);
    let (b1, b2) = (best_score(rs1), best_score(rs2));
    if rs1.len() > 0 {
        let i = choose|i: int| 0 <= i < rs1.len() && (#[trigger] rs1[i]).score == b1;
        assert(rs1.contains(rs1[i]));
        let j = choose|j: int| 0 <= j < rs2.len() && rs2[j] == rs1[i];
        assert(b1 <= b2);
    }
    if rs2.len() > 0 {
        let i = choose|i: int| 0 <= i < rs2.len() && (#[trigger] rs2[i]).score == b2;
        assert(rs2.contains(rs2[i]));
        let j = choose|j: int| 0 <= j < rs1.len() && rs1[j] == rs2[i];
        assert(b2 <= b1);
    }
    if rs1.len() == 0 && rs2.len() > 0 {
        assert(rs2.contains(rs2[0]));
    }
    if rs2.len() == 0 && rs1.len() > 0 {
        assert(rs1.contains(rs1[0]));
    }
    assert(b1 == b2);
    assert forall|m: ClassMember| in_key(rs1, n, c, m) implies in_key(rs2, n, c, m) by {
        let i = choose|i: int| 0 <= i < rs1.len() && i < rs1.len() && decision(rs1, n, c, i) is Ok && #[trigger] member_of(decision(rs1, n, c, i)->Ok_0) == m;
        assert(rs1.contains(rs1[i]));
        let j = choose|j: int| 0 <= j < rs2.len() && rs2[j] == rs1[i];
        assert(decision(rs2, n, c, j) == decision(rs1, n, c, i));
    }
    assert forall|m: ClassMember| in_key(rs2, n, c, m) implies in_key(rs1, n, c, m) by {
        let i = choose|i: int| 0 <= i < rs2.len() && i < rs2.len() && decision(rs2, n, c, i) is Ok && #[trigger] member_of(decision(rs2, n, c, i)->Ok_0) == m;
        assert(rs2.contains(rs2[i]));
        let j = choose|j: int| 0 <= j < rs1.len() && rs1[j] == rs2[i];
        assert(decision(rs1, n, c, j) == decision(rs2, n, c, i));
    }
    if has_admissible(rs1, n, c) {
        let i = choose|i: int| 0 <= i < rs1.len() && #[trigger] decision(rs1, n, c, i) is Ok;
        assert(rs1.contains(rs1[i]));
        let j = choose|j: int| 0 <= j < rs2.len() && rs2[j] == rs1[i];
        assert(decision(rs2, n, c, j) is Ok);
    }
    if has_admissible(rs2, n, c) {
        let i = choose|i: int| 0 <= i < rs2.len() && #[trigger] decision(rs2, n, c, i) is Ok;
        assert(rs2.contains(rs2[i]));
        let j = choose|j: int| 0 <= j < rs1.len() && rs1[j] == rs2[i];
        assert(decision(rs1, n, c, j) is Ok);
    }
}

/// Alignments among the first `i` of read `rs` that the filter rejects as `why`.
pub open spec fn rejected_upto(rs: Seq<AlignmentRecord>, n: usize, c: FilterConfig, why: Rejection, i: int) -> int
    decreases i,
{
    if i <= 0 {
        0
    } else {
        rejected_upto(rs, n, c, why, i - 1) + if decision(rs, n, c, i - 1) == Err::<Admissible, Rejection>(why) {
            1int
        } else {
            0
        }
    }
}

/// Alignments of the first `k` reads that the filter rejects as `why`.
pub open spec fn rejected_in_reads(reads: Seq<Vec<AlignmentRecord>>, n: usize, c: FilterConfig, why: Rejection, k: int) -> int
    decreases k,
{
    if k <= 0 {
        0
    } else {
        rejected_in_reads(reads, n, c, why, k - 1) + rejected_upto(reads[k - 1]@, n, c, why, reads[k - 1]@.len() as int)
    }
}

/// The key of one read: the distinct (transcript, normalized score) pairs of
/// its admitted alignments. Rejected alignments are counted in `counts`.
pub fn read_key(rs: &Vec<AlignmentRecord>, n: usize, cfg: &FilterConfig, counts: &mut RejectCounts) -> (key: Vec<ClassMember>)
    requires
        old(counts).total() + rs.len() <= u64::MAX,
    ensures
        strictly_sorted(key@),
        key@.no_duplicates(),
        key.len() <= rs.len(),
        forall|m: ClassMember| key@.contains(m) <==> in_key(rs@, n, *cfg, m),
        key.len() >= 1 <==> has_admissible(rs@, n, *cfg),
        forall|i: int| 0 <= i < key.len() ==> (#[trigger] key@[i]).target < n && key@[i].score <= cfg.score_buckets,
        old(counts).total() <= final(counts).total() <= old(counts).total() + rs.len(),
        forall|w: Rejection| #[trigger] final(counts).count(w) == old(counts).count(w) + rejected_upto(rs@, n, *cfg, w, rs.len() as int),
{
    let best = best_score_exec(rs);
    let mut key: Vec<ClassMember> = Vec::new();
    let ghost c0 = counts.total();
    let ghost start = *counts;
    let mut i: usize = 0;
    while i < rs.len()
        invariant
            0 <= i <= rs.len(),
            best == best_score(rs@),
            strictly_sorted(key@),
            key.len() <= i,
            c0 <= counts.total() <= c0 + i,
            forall|w: Rejection| #[trigger] counts.count(w) == start.count(w) + rejected_upto(rs@, n, *cfg, w, i as int),
            c0 + rs.len() <= u64::MAX,
            forall|m: ClassMember| key@.contains(m) <==> in_key_upto(rs@, n, *cfg, m, i as int),
            forall|k: int| 0 <= k < key.len() ==> (#[trigger] key@[k]).target < n && key@[k].score <= cfg.score_buckets,
            key.len() >= 1 <==> exists|k: int| 0 <= k < i && #[trigger] decision(rs@, n, *cfg, k) is Ok,
        decreases rs.len() - i,
    {
        let ghost head = key@;
        let res = filter_alignment(&rs[i], best, n, cfg);
        assert(res == decision(rs@, n, *cfg, i as int));
        match res {
            Ok(a) => {
                let m = ClassMember { target: a.target, score: a.score };
                assert(member_of(decision(rs@, n, *cfg, i as int)->Ok_0) == m);
                proof {
                    assert forall|k: int| 0 <= k < key.len() implies key@.contains(#[trigger] key@[k]) by {}
                }
                insert_sorted(&mut key, m);
                proof {
                    assert forall|k: int| 0 <= k < key.len() implies (#[trigger] key@[k]).target < n && key@[k].score <= cfg.score_buckets by {
                        if key@[k] != m {
                            let w = choose|w: int| 0 <= w < head.len() && head[w] == key@[k];
                            assert(head[w].target < n);
                        }
                    }
                }
                proof {
                    assert(key@.contains(m));
                    assert(in_key_upto(rs@, n, *cfg, m, i + 1));
                    assert forall|mm: ClassMember| key@.contains(mm) <==> in_key_upto(rs@, n, *cfg, mm, i + 1) by {
                        assert(head.contains(mm) <==> in_key_upto(rs@, n, *cfg, mm, i as int));
                        assert(key@.contains(mm) <==> (head.contains(mm) || mm == m));
                        if in_key_upto(rs@, n, *cfg, mm, i + 1) && mm != m {
                            let w = choose|w: int| 0 <= w < i + 1 && w < rs@.len() && decision(rs@, n, *cfg, w) is Ok && #[trigger] member_of(decision(rs@, n, *cfg, w)->Ok_0) == mm;
                            assert(in_key_upto(rs@, n, *cfg, mm, i as int));
                        }
                        if in_key_upto(rs@, n, *cfg, mm, i as int) {
                            let w = choose|w: int| 0 <= w < i && w < rs@.len() && decision(rs@, n, *cfg, w) is Ok && #[trigger] member_of(decision(rs@, n, *cfg, w)->Ok_0) == mm;
                            assert(in_key_upto(rs@, n, *cfg, mm, i + 1));
                        }
                    }
                }
            },
            Err(why) => {
                counts.record(why);
                proof {
                    assert forall|mm: ClassMember| in_key_upto(rs@, n, *cfg, mm, i + 1) implies in_key_upto(rs@, n, *cfg, mm, i as int) by {
                        if in_key_upto(rs@, n, *cfg, mm, i + 1) {
                            let w = choose|w: int| 0 <= w < i + 1 && w < rs@.len() && decision(rs@, n, *cfg, w) is Ok && #[trigger] member_of(decision(rs@, n, *cfg, w)->Ok_0) == mm;
                            assert(w != i);
                        }
                    }
                }
            },
        }
        i = i + 1;
    }
    key
}

/// `ms` holds exactly the key of read `rs`.
pub open spec fn is_key_of(ms: Seq<ClassMember>, rs: Seq<AlignmentRecord>, n: usize, c: FilterConfig) -> bool {
    forall|m: ClassMember| ms.contains(m) <==> in_key(rs, n, c, m)
}

/// `ms` is the key of one of the first `k` reads, which has an admitted alignment.
pub open spec fn key_of_some_read(ms: Seq<ClassMember>, reads: Seq<Vec<AlignmentRecord>>, k: int, n: usize, c: FilterConfig) -> bool {
    exists|j: int| 0 <= j < k && has_admissible(reads[j]@, n, c) && #[trigger] is_key_of(ms, reads[j]@, n, c)
}

/// Some entry of `keys` is the key of read `rs`.
pub open spec fn key_listed(keys: Seq<Seq<ClassMember>>, rs: Seq<AlignmentRecord>, n: usize, c: FilterConfig) -> bool {
    exists|i: int| 0 <= i < keys.len() && #[trigger] is_key_of(keys[i], rs, n, c)
}

/// The keys of the classes, in order.
pub open spec fn class_keys(cs: Seq<EqClass>) -> Seq<Seq<ClassMember>> {
    Seq::new(cs.len(), |i: int| cs[i].members@)
}

/// `keys` are the keys of the first `k` reads: each is the key of some read
/// that has an admitted alignment, each such read's key is listed, no two
/// are equal as sets, and none repeats a member.
pub open spec fn keys_of(keys: Seq<Seq<ClassMember>>, reads: Seq<Vec<AlignmentRecord>>, k: int, n: usize, c: FilterConfig) -> bool {
    &&& forall|i: int| 0 <= i < keys.len() ==> (#[trigger] keys[i]).no_duplicates()
    &&& forall|i: int| 0 <= i < keys.len() ==> strictly_sorted(#[trigger] keys[i])
    &&& forall|i: int| 0 <= i < keys.len() ==> #[trigger] key_of_some_read(keys[i], reads, k, n, c)
    &&& forall|j: int| 0 <= j < k && #[trigger] has_admissible(reads[j]@, n, c) ==> key_listed(keys, reads[j]@, n, c)
    &&& forall|i1: int, i2: int| 0 <= i1 < keys.len() && 0 <= i2 < keys.len() && i1 != i2 ==> !same_members(
        #[trigger] keys[i1],
        #[trigger] keys[i2],
    )
}

/// Classes built from the first `k` reads.
pub open spec fn classes_of(cs: Seq<EqClass>, reads: Seq<Vec<AlignmentRecord>>, k: int, n: usize, c: FilterConfig) -> bool {
    keys_of(class_keys(cs), reads, k, n, c)
}

/// Reads among the first `k` that have an admitted alignment and key `ms`.
pub open spec fn reads_with_key(ms: Seq<ClassMember>, reads: Seq<Vec<AlignmentRecord>>, k: int, n: usize, c: FilterConfig) -> int
    decreases k,
{
    if k <= 0 {
        0
    } else {
        reads_with_key(ms, reads, k - 1, n, c) + if has_admissible(reads[k - 1]@, n, c) && is_key_of(
            ms,
            reads[k - 1]@,
            n,
            c,
        ) {
            1int
        } else {
            0
        }
    }
}

/// Each class counts exactly the reads among the first `k` whose key it is.
pub open spec fn counts_of(cs: Seq<EqClass>, reads: Seq<Vec<AlignmentRecord>>, k: int, n: usize, c: FilterConfig) -> bool {
    forall|i: int| 0 <= i < cs.len() ==> (#[trigger] cs[i]).multiplicity == reads_with_key(cs[i].members@, reads, k, n, c)
}

proof fn lemma_reads_with_key_zero(ms: Seq<ClassMember>, reads: Seq<Vec<AlignmentRecord>>, k: int, n: usize, c: FilterConfig)
    requires
        0 <= k <= reads.len(),
        forall|jj: int| 0 <= jj < k && #[trigger] has_admissible(reads[jj]@, n, c) ==> !is_key_of(ms, reads[jj]@, n, c),
    ensures
        reads_with_key(ms, reads, k, n, c) == 0,
    decreases k,
{
    if k > 0 {
        lemma_reads_with_key_zero(ms, reads, k - 1, n, c);
    }
}

/// Two keys of the same read hold the same members.
proof fn lemma_keys_agree(a: Seq<ClassMember>, b: Seq<ClassMember>, rs: Seq<AlignmentRecord>, n: usize, c: FilterConfig)
    requires
        is_key_of(a, rs, n, c),
        is_key_of(b, rs, n, c) || same_members(a, b),
    ensures
        same_members(a, b),
        is_key_of(b, rs, n, c),
{
}

/// A read whose only alignment is rejected for its 5' clip adds one to the
/// count of 5' clip rejections, has no admissible alignment, and so enters no
/// class.
pub proof fn lemma_clipped_read_discarded(r: AlignmentRecord, n: usize, c: FilterConfig)
    requires
        filter_spec(r, r.score, n, c) == Err::<Admissible, Rejection>(Rejection::FivePrimeClip),
    ensures
        rejected_upto(seq![r], n, c, Rejection::FivePrimeClip, 1) == 1,
        !has_admissible(seq![r], n, c),
        forall|m: ClassMember| !in_key(seq![r], n, c, m),
{
    let rs = seq![r];
    assert(rs[0] == r);
    assert(best_score_upto(rs, 0) == 0);
    assert(best_score(rs) == r.score);
    assert(decision(rs, n, c, 0) == Err::<Admissible, Rejection>(Rejection::FivePrimeClip));
    assert(rejected_upto(rs, n, c, Rejection::FivePrimeClip, 0) == 0);
    assert forall|m: ClassMember| !in_key(rs, n, c, m) by {
        if in_key(rs, n, c, m) {
            let i = choose|i: int| 0 <= i < 1 && i < rs.len() && decision(rs, n, c, i) is Ok && #[trigger] member_of(decision(rs, n, c, i)->Ok_0) == m;
            assert(i == 0);
        }
    }
}

/// A read whose key is already listed (or that has none) adds no key.
proof fn lemma_keys_of_next(keys: Seq<Seq<ClassMember>>, reads: Seq<Vec<AlignmentRecord>>, j: int, n: usize, c: FilterConfig)
    requires
        0 <= j < reads.len(),
        keys_of(keys, reads, j, n, c),
        has_admissible(reads[j]@, n, c) ==> key_listed(keys, reads[j]@, n, c),
    ensures
        keys_of(keys, reads, j + 1, n, c),
{
    assert forall|i: int| 0 <= i < keys.len() implies #[trigger] key_of_some_read(keys[i], reads, j + 1, n, c) by {
        assert(key_of_some_read(keys[i], reads, j, n, c));
        let jj = choose|jj: int| 0 <= jj < j && has_admissible(reads[jj]@, n, c) && #[trigger] is_key_of(keys[i], reads[jj]@, n, c);
        assert(0 <= jj < j + 1);
    }
}

/// A read with a key that is not yet listed adds it.
proof fn lemma_keys_of_push(keys: Seq<Seq<ClassMember>>, reads: Seq<Vec<AlignmentRecord>>, j: int, n: usize, c: FilterConfig, key: Seq<ClassMember>)
    requires
        0 <= j < reads.len(),
        keys_of(keys, reads, j, n, c),
        has_admissible(reads[j]@, n, c),
        is_key_of(key, reads[j]@, n, c),
        key.no_duplicates(),
        strictly_sorted(key),
        forall|i: int| 0 <= i < keys.len() ==> !same_members(#[trigger] keys[i], key),
    ensures
        keys_of(keys.push(key), reads, j + 1, n, c),
{
    let ks = keys.push(key);
    assert(ks[keys.len() as int] == key);
    assert forall|i: int| 0 <= i < ks.len() implies #[trigger] key_of_some_read(ks[i], reads, j + 1, n, c) by {
        if i < keys.len() {
            assert(ks[i] == keys[i]);
            assert(key_of_some_read(keys[i], reads, j, n, c));
            let jj = choose|jj: int| 0 <= jj < j && has_admissible(reads[jj]@, n, c) && #[trigger] is_key_of(keys[i], reads[jj]@, n, c);
            assert(0 <= jj < j + 1);
        } else {
            assert(is_key_of(ks[i], reads[j]@, n, c));
        }
    }
    assert forall|jj: int| 0 <= jj < j + 1 && #[trigger] has_admissible(reads[jj]@, n, c) implies key_listed(ks, reads[jj]@, n, c) by {
        if jj < j {
            let i = choose|i: int| 0 <= i < keys.len() && #[trigger] is_key_of(keys[i], reads[jj]@, n, c);
            assert(ks[i] == keys[i]);
        } else {
            assert(is_key_of(ks[keys.len() as int], reads[jj]@, n, c));
        }
    }
    assert forall|i1: int, i2: int| 0 <= i1 < ks.len() && 0 <= i2 < ks.len() && i1 != i2 implies !same_members(
        #[trigger] ks[i1],
        #[trigger] ks[i2],
    ) by {
        if i1 == keys.len() {
            assert(!same_members(keys[i2], key));
        } else if i2 == keys.len() {
            assert(!same_members(keys[i1], key));
        } else {
            assert(ks[i1] == keys[i1] && ks[i2] == keys[i2]);
        }
    }
    assert forall|i: int| 0 <= i < ks.len() implies (#[trigger] ks[i]).no_duplicates() by {
        if i < keys.len() {
            assert(ks[i] == keys[i]);
        }
    }
    assert forall|i: int| 0 <= i < ks.len() implies strictly_sorted(#[trigger] ks[i]) by {
        if i < keys.len() {
            assert(ks[i] == keys[i]);
        }
    }
}

/// Index of the class whose key holds the same members as `key`, if any.
fn find_class(classes: &Vec<EqClass>, key: &Vec<ClassMember>) -> (r: Option<usize>)
    ensures
        r matches Some(i) ==> i < classes.len() && same_members(classes@[i as int].members@, key@),
        r is None ==> forall|i: int| 0 <= i < classes.len() ==> !same_members(#[trigger] classes@[i].members@, key@),
{
    let mut idx: usize = 0;
    while idx < classes.len()
        invariant
            0 <= idx <= classes.len(),
            forall|i: int| 0 <= i < idx ==> !same_members(#[trigger] classes@[i].members@, key@),
        decreases classes.len() - idx,
    {
        if same_members_exec(&classes[idx].members, key) {
            return Some(idx);
        }
        idx = idx + 1;
    }
    None
}

/// A class's candidates are the sorted key of any read it stands for: two
/// reads with the same admitted pairs, whatever the order of their
/// alignments, meet one and the same sequence of candidates.
pub proof fn lemma_class_members_canonical(
    cs: Seq<EqClass>,
    reads: Seq<Vec<AlignmentRecord>>,
    k: int,
    n: usize,
    c: FilterConfig,
    i: int,
    rs: Seq<AlignmentRecord>,
    key: Seq<ClassMember>,
)
    requires
        classes_of(cs, reads, k, n, c),
        0 <= i < cs.len(),
        is_key_of(cs[i].members@, rs, n, c),
        is_key_of(key, rs, n, c),
        strictly_sorted(key),
    ensures
        cs[i].members@ == key,
{
    assert(class_keys(cs)[i] == cs[i].members@);
    assert(strictly_sorted(class_keys(cs)[i]));
    lemma_sorted_keys_equal(cs[i].members@, key);
}

/// Counts a read with key `key` (the key of read `j`, which has an admitted
/// alignment) in `classes`: in the class with that key, or in a new one.
fn insert_key(
    classes: &mut Vec<EqClass>,
    key: Vec<ClassMember>,
    Ghost(reads): Ghost<Seq<Vec<AlignmentRecord>>>,
    Ghost(j): Ghost<int>,
    n_txps: usize,
    cfg: &FilterConfig,
)
    requires
        0 <= j < reads.len() <= MAX_READS,
        classes_wf(old(classes)@, n_txps as int),
        classes_of(old(classes)@, reads, j, n_txps, *cfg),
        forall|i: int| 0 <= i < old(classes).len() ==> (#[trigger] old(classes)@[i]).multiplicity <= j,
        1 <= key.len() <= MAX_CLASS_SIZE,
        key@.no_duplicates(),
        strictly_sorted(key@),
        forall|i: int| 0 <= i < key.len() ==> (#[trigger] key@[i]).target < n_txps && key@[i].score <= MAX_SCORE_BUCKETS,
        has_admissible(reads[j]@, n_txps, *cfg),
        is_key_of(key@, reads[j]@, n_txps, *cfg),
        counts_of(old(classes)@, reads, j, n_txps, *cfg),
    ensures
        classes_wf(final(classes)@, n_txps as int),
        classes_of(final(classes)@, reads, j + 1, n_txps, *cfg),
        counts_of(final(classes)@, reads, j + 1, n_txps, *cfg),
        total_reads(final(classes)@) == total_reads(old(classes)@) + 1,
        forall|i: int| 0 <= i < final(classes).len() ==> (#[trigger] final(classes)@[i]).multiplicity <= j + 1,
{
    let ghost before = classes@;
    match find_class(classes, &key) {
        Some(idx) => {
            let mlt = classes[idx].multiplicity + 1;
            classes[idx].multiplicity = mlt;
            proof {
                lemma_reads_upto_update(before, idx as int, classes@[idx as int], before.len() as int);
                assert(classes@ == before.update(idx as int, classes@[idx as int]));
                assert(class_keys(classes@) =~= class_keys(before));
                assert forall|i: int| 0 <= i < classes.len() implies #[trigger] class_wf(classes@[i], n_txps as int) by {
                    assert(class_wf(before[i], n_txps as int));
                }
                assert(is_key_of(class_keys(before)[idx as int], reads[j]@, n_txps, *cfg));
                lemma_keys_of_next(class_keys(before), reads, j, n_txps, *cfg);
                lemma_keys_agree(key@, before[idx as int].members@, reads[j]@, n_txps, *cfg);
                assert forall|i: int| 0 <= i < classes.len() implies (#[trigger] classes@[i]).multiplicity == reads_with_key(
                    classes@[i].members@,
                    reads,
                    j + 1,
                    n_txps,
                    *cfg,
                ) by {
                    assert(classes@[i].members@ == before[i].members@);
                    assert(before[i].multiplicity == reads_with_key(before[i].members@, reads, j, n_txps, *cfg));
                    if i != idx && is_key_of(before[i].members@, reads[j]@, n_txps, *cfg) {
                        lemma_keys_agree(before[i].members@, before[idx as int].members@, reads[j]@, n_txps, *cfg);
                        assert(class_keys(before)[i] == before[i].members@);
                        assert(class_keys(before)[idx as int] == before[idx as int].members@);
                    }
                }
            }
        },
        None => {
            let ghost new_class = EqClass { members: key, multiplicity: 1 };
            classes.push(EqClass { members: key, multiplicity: 1 });
            proof {
                lemma_reads_upto_push(before, new_class);
                assert(classes@ == before.push(new_class));
                assert(class_keys(classes@) =~= class_keys(before).push(key@));
                assert forall|i: int| 0 <= i < classes.len() implies #[trigger] class_wf(classes@[i], n_txps as int) by {
                    if i < before.len() {
                        assert(class_wf(before[i], n_txps as int));
                    }
                }
                assert forall|i: int| 0 <= i < before.len() implies !same_members(#[trigger] class_keys(before)[i], key@) by {
                    assert(!same_members(before[i].members@, key@));
                }
                lemma_keys_of_push(class_keys(before), reads, j, n_txps, *cfg, key@);
                assert forall|jj: int| 0 <= jj < j && #[trigger] has_admissible(reads[jj]@, n_txps, *cfg) implies !is_key_of(key@, reads[jj]@, n_txps, *cfg) by {
                    if is_key_of(key@, reads[jj]@, n_txps, *cfg) {
                        assert(key_listed(class_keys(before), reads[jj]@, n_txps, *cfg));
                        let i = choose|i: int| 0 <= i < class_keys(before).len() && #[trigger] is_key_of(class_keys(before)[i], reads[jj]@, n_txps, *cfg);
                        lemma_keys_agree(class_keys(before)[i], key@, reads[jj]@, n_txps, *cfg);
                    }
                }
                lemma_reads_with_key_zero(key@, reads, j, n_txps, *cfg);
                assert forall|i: int| 0 <= i < classes.len() implies (#[trigger] classes@[i]).multiplicity == reads_with_key(
                    classes@[i].members@,
                    reads,
                    j + 1,
                    n_txps,
                    *cfg,
                ) by {
                    if i < before.len() {
                        assert(classes@[i] == before[i]);
                        assert(before[i].multiplicity == reads_with_key(before[i].members@, reads, j, n_txps, *cfg));
                        if is_key_of(before[i].members@, reads[j]@, n_txps, *cfg) {
                            lemma_keys_agree(before[i].members@, key@, reads[j]@, n_txps, *cfg);
                            assert(class_keys(before)[i] == before[i].members@);
                        }
                    } else {
                        assert(classes@[i] == new_class);
                    }
                }
            }
        },
    }
}

/// Filters every alignment of every read and groups the reads by key.
/// `reads` holds each read's alignments; `n_txps` is the number of
/// transcripts.
pub fn build_classes(reads: &Vec<Vec<AlignmentRecord>>, n_txps: usize, cfg: &FilterConfig) -> (r: ClassSet)
    requires
        reads.len() <= MAX_READS,
        cfg.score_buckets <= MAX_SCORE_BUCKETS,
        forall|j: int| 0 <= j < reads.len() ==> (#[trigger] reads@[j]).len() <= MAX_CLASS_SIZE,
    ensures
        classes_wf(r.classes@, n_txps as int),
        classes_of(r.classes@, reads@, reads.len() as int, n_txps, *cfg),
        counts_of(r.classes@, reads@, reads.len() as int, n_txps, *cfg),
        total_reads(r.classes@) == n_admitted_reads(reads@, n_txps, *cfg, reads.len() as int),
        r.discarded_reads + total_reads(r.classes@) == reads.len(),
        forall|w: Rejection| #[trigger] r.rejected.count(w) == rejected_in_reads(reads@, n_txps, *cfg, w, reads.len() as int),
{
    let mut classes: Vec<EqClass> = Vec::new();
    let mut rejected = RejectCounts::new();
    let mut discarded: u64 = 0;
    let mut j: usize = 0;
    while j < reads.len()
        invariant
            0 <= j <= reads.len(),
            reads.len() <= MAX_READS,
            cfg.score_buckets <= MAX_SCORE_BUCKETS,
            forall|jj: int| 0 <= jj < reads.len() ==> (#[trigger] reads@[jj]).len() <= MAX_CLASS_SIZE,
            classes_wf(classes@, n_txps as int),
            classes_of(classes@, reads@, j as int, n_txps, *cfg),
            counts_of(classes@, reads@, j as int, n_txps, *cfg),
            total_reads(classes@) == n_admitted_reads(reads@, n_txps, *cfg, j as int),
            discarded + total_reads(classes@) == j,
            forall|i: int| 0 <= i < classes.len() ==> (#[trigger] classes@[i]).multiplicity <= j,
            0 <= rejected.total() <= j * MAX_CLASS_SIZE,
            forall|w: Rejection| #[trigger] rejected.count(w) == rejected_in_reads(reads@, n_txps, *cfg, w, j as int),
        decreases reads.len() - j,
    {
        let rs = &reads[j];
        proof {
            assert(rs.len() <= MAX_CLASS_SIZE);
            assert(j * MAX_CLASS_SIZE + MAX_CLASS_SIZE <= u64::MAX) by (nonlinear_arith)
                requires j <= 0xffff_ffff;
            assert((j + 1) * MAX_CLASS_SIZE == j * MAX_CLASS_SIZE + MAX_CLASS_SIZE) by (nonlinear_arith);
        }
        proof {
            lemma_reads_upto_mono(classes@, 0, classes.len() as int);
        }
        let key = read_key(rs, n_txps, cfg, &mut rejected);
        let ghost before = classes@;
        if key.len() == 0 {
            discarded = discarded + 1;
            proof {
                lemma_keys_of_next(class_keys(classes@), reads@, j as int, n_txps, *cfg);
                assert forall|i: int| 0 <= i < classes.len() implies (#[trigger] classes@[i]).multiplicity == reads_with_key(
                    classes@[i].members@,
                    reads@,
                    j + 1,
                    n_txps,
                    *cfg,
                ) by {
                    assert(classes@[i].multiplicity == reads_with_key(classes@[i].members@, reads@, j as int, n_txps, *cfg));
                }
            }
        } else {
            insert_key(&mut classes, key, Ghost(reads@), Ghost(j as int), n_txps, cfg);
        }
        j = j + 1;
    }
    ClassSet { classes, rejected, discarded_reads: discarded }
}

} // verus!
