//! The expectation-maximization estimator over equivalence classes.
//!
//! Abundances are exact fixed-point integers: one read is [`READ_UNIT`]
//! units. A class's reads are split among its members in proportion to the
//! members' weights by cumulative rounding, so that the shares of a class
//! always add up to exactly its reads, whatever the weights are.
//!
//! A member's weight is its transcript's abundance per unit of effective
//! length times its normalized score; the positional bias factor is one (bias
//! modeling disabled). The empirical, binomial and logistic bias models are
//! real-valued densities, which this integer library does not evaluate.
use vstd::arithmetic::div_mod::lemma_div_is_ordered;
use vstd::prelude::*;

verus! {

/// Abundance units per read.
pub const READ_UNIT: u64 = 65536;

/// Extra precision of a member's weight.
pub const WEIGHT_SCALE: u64 = 16;

/// Most reads (summed multiplicities) the estimator takes.
pub const MAX_READS: u64 = 0xffff_ffff;

/// Most members in one equivalence class.
pub const MAX_CLASS_SIZE: usize = 65535;

/// Largest abundance a transcript can hold.
pub const MAX_ABUNDANCE: u64 = 0xffff_ffff * 65536;

/// A reference sequence of the quantification.
#[derive(Clone, Copy, Debug)]
pub struct Transcript {
    pub len: u32,
    /// Length adjusted for fragment and position effects; 0 is read as 1.
    pub eff_len: u32,
}

/// One candidate of an equivalence class: a transcript and the normalized
/// score (in hundredths of the best score) of the read's alignment to it.
#[derive(Clone, Copy, Debug, PartialEq, Eq, Structural)]
pub struct ClassMember {
    pub target: usize,
    pub score: u32,
}

/// Reads that share the same set of candidates, and how many they are.
#[derive(Clone, Debug)]
pub struct EqClass {
    pub members: Vec<ClassMember>,
    pub multiplicity: u64,
}

impl Transcript {
    /// A transcript whose effective length is its length.
    pub fn with_len(len: u32) -> (t: Transcript)
        ensures
            t.len == len,
            t.eff_len == len,
    {
        Transcript { len, eff_len: len }
    }
}

/// Effective length, floored at 1.
pub open spec fn eff_len(t: Transcript) -> int {
    if t.eff_len == 0 {
        1
    } else {
        t.eff_len as int
    }
}

/// Integer values of an abundance vector.
pub open spec fn as_ints(v: Seq<u64>) -> Seq<int> {
    Seq::new(v.len(), |i: int| v[i] as int)
}

pub open spec fn seq_sum(s: Seq<int>) -> int
    decreases s.len(),
{
    if s.len() == 0 {
        0
    } else {
        seq_sum(s.drop_last()) + s.last()
    }
}

/// Unnormalized responsibility of a member: the abundance per unit of
/// effective length of its transcript, times its score.
pub open spec fn member_weight(ab: Seq<int>, txps: Seq<Transcript>, m: ClassMember) -> int {
    ab[m.target as int] * m.score as int * WEIGHT_SCALE as int / eff_len(txps[m.target as int])
}

/// Sum of the weights of the first `i` members.
pub open spec fn weight_prefix(ab: Seq<int>, txps: Seq<Transcript>, ms: Seq<ClassMember>, i: int) -> int
    decreases i,
{
    if i <= 0 {
        0
    } else {
        weight_prefix(ab, txps, ms, i - 1) + member_weight(ab, txps, ms[i - 1])
    }
}

/// Prefix sums of the weights by which a class is split: the members'
/// weights, or one for each member when all of them are zero.
pub open spec fn split_prefix(ab: Seq<int>, txps: Seq<Transcript>, ms: Seq<ClassMember>, i: int) -> int {
    if weight_prefix(ab, txps, ms, ms.len() as int) == 0 {
        i
    } else {
        weight_prefix(ab, txps, ms, i)
    }
}

/// Abundance units that one iteration hands to member `i` of class `c`.
pub open spec fn share(ab: Seq<int>, txps: Seq<Transcript>, c: EqClass, i: int) -> int {
    let ms = c.members@;
    let total = c.multiplicity * READ_UNIT;
    let w = split_prefix(ab, txps, ms, ms.len() as int);
    total * split_prefix(ab, txps, ms, i + 1) / w - total * split_prefix(ab, txps, ms, i) / w
}

/// `acc` after the shares of the first `i` members of `c` were added to it.
pub open spec fn add_class(acc: Seq<int>, ab: Seq<int>, txps: Seq<Transcript>, c: EqClass, i: int) -> Seq<int>
    decreases i,
{
    if i <= 0 {
        acc
    } else {
        let prev = add_class(acc, ab, txps, c, i - 1);
        let t = c.members@[i - 1].target as int;
        prev.update(t, prev[t] + share(ab, txps, c, i - 1))
    }
}

/// `acc` after all shares of the first `k` classes were added to it.
pub open spec fn add_classes(acc: Seq<int>, ab: Seq<int>, txps: Seq<Transcript>, cs: Seq<EqClass>, k: int) -> Seq<int>
    decreases k,
{
    if k <= 0 {
        acc
    } else {
        let prev = add_classes(acc, ab, txps, cs, k - 1);
        add_class(prev, ab, txps, cs[k - 1], cs[k - 1].members@.len() as int)
    }
}

pub open spec fn zeros(n: int) -> Seq<int> {
    Seq::new(n as nat, |i: int| 0int)
}

/// One EM iteration: each class's reads are split among its members in
/// proportion to their responsibilities, and summed per transcript.
pub open spec fn em_step_spec(ab: Seq<int>, txps: Seq<Transcript>, cs: Seq<EqClass>) -> Seq<int> {
    add_classes(zeros(txps.len() as int), ab, txps, cs, cs.len() as int)
}

/// Reads in the first `k` classes.
pub open spec fn reads_upto(cs: Seq<EqClass>, k: int) -> int
    decreases k,
{
    if k <= 0 {
        0
    } else {
        reads_upto(cs, k - 1) + cs[k - 1].multiplicity
    }
}

pub open spec fn total_reads(cs: Seq<EqClass>) -> int {
    reads_upto(cs, cs.len() as int)
}

/// Whether some class has transcript `t` among its candidates.
pub open spec fn referenced(cs: Seq<EqClass>, t: int) -> bool {
    exists|j: int, i: int|
        0 <= j < cs.len() && 0 <= i < cs[j].members@.len() && #[trigger] cs[j].members@[i].target
            == t
}

/// Well-formed class: candidates that exist, scores of at most one whole, a
/// positive multiplicity, and a bounded size.
pub open spec fn class_wf(c: EqClass, n_txps: int) -> bool {
    &&& 1 <= c.members@.len() <= MAX_CLASS_SIZE
    &&& c.multiplicity >= 1
    &&& forall|i: int|
        0 <= i < c.members@.len() ==> #[trigger] c.members@[i].target < n_txps
            && c.members@[i].score <= crate::filter::MAX_SCORE_BUCKETS
}

pub open spec fn classes_wf(cs: Seq<EqClass>, n_txps: int) -> bool {
    forall|j: int| 0 <= j < cs.len() ==> #[trigger] class_wf(cs[j], n_txps)
}

/// The classes' abundances all fit the fixed-point range.
pub open spec fn abundance_bounded(ab: Seq<int>) -> bool {
    forall|t: int| 0 <= t < ab.len() ==> 0 <= #[trigger] ab[t] <= MAX_ABUNDANCE
}

// ---------------------------------------------------------------------------
// Lemmas

pub proof fn lemma_seq_sum_update(s: Seq<int>, i: int, v: int)
    requires
        0 <= i < s.len(),
    ensures
        seq_sum(s.update(i, v)) == seq_sum(s) - s[i] + v,
    decreases s.len(),
{
    let u = s.update(i, v);
    if i == s.len() - 1 {
        assert(u.drop_last() =~= s.drop_last());
    } else {
        assert(u.drop_last() =~= s.drop_last().update(i, v));
        lemma_seq_sum_update(s.drop_last(), i, v);
    }
}

pub proof fn lemma_seq_sum_zeros(n: int)
    requires
        n >= 0,
    ensures
        seq_sum(zeros(n)) == 0,
    decreases n,
{
    if n > 0 {
        assert(zeros(n).drop_last() =~= zeros(n - 1));
        lemma_seq_sum_zeros(n - 1);
    }
}

pub proof fn lemma_elem_le_sum(s: Seq<int>, i: int)
    requires
        0 <= i < s.len(),
        forall|j: int| 0 <= j < s.len() ==> s[j] >= 0,
    ensures
        s[i] <= seq_sum(s),
        seq_sum(s) >= 0,
    decreases s.len(),
{
    let d = s.drop_last();
    assert forall|j: int| 0 <= j < d.len() implies d[j] >= 0 by {
        assert(d[j] == s[j]);
    }
    if s.len() == 1 {
        assert(seq_sum(d) == 0);
    } else if i < s.len() - 1 {
        lemma_elem_le_sum(d, i);
    } else {
        lemma_elem_le_sum(d, 0);
    }
}

/// Prefix sums of the split weights are monotone and end at a positive total.
pub proof fn lemma_split_prefix(ab: Seq<int>, txps: Seq<Transcript>, ms: Seq<ClassMember>, i: int)
    requires
        0 <= i <= ms.len(),
        ms.len() >= 1,
        abundance_bounded(ab),
        forall|k: int| 0 <= k < ms.len() ==> (#[trigger] ms[k]).target < ab.len() && ms[k].target < txps.len(),
    ensures
        0 <= split_prefix(ab, txps, ms, i) <= split_prefix(ab, txps, ms, ms.len() as int),
        split_prefix(ab, txps, ms, ms.len() as int) > 0,
{
    lemma_weight_prefix_mono(ab, txps, ms, i, ms.len() as int);
}

pub proof fn lemma_member_weight_nonneg(ab: Seq<int>, txps: Seq<Transcript>, m: ClassMember)
    requires
        abundance_bounded(ab),
        m.target < ab.len(),
        m.target < txps.len(),
    ensures
        0 <= member_weight(ab, txps, m),
{
    let a = ab[m.target as int];
    assert(a * m.score as int * WEIGHT_SCALE as int >= 0) by (nonlinear_arith)
        requires a >= 0;
}

pub proof fn lemma_weight_prefix_mono(ab: Seq<int>, txps: Seq<Transcript>, ms: Seq<ClassMember>, i: int, j: int)
    requires
        0 <= i <= j <= ms.len(),
        abundance_bounded(ab),
        forall|k: int| 0 <= k < ms.len() ==> (#[trigger] ms[k]).target < ab.len() && ms[k].target < txps.len(),
    ensures
        0 <= weight_prefix(ab, txps, ms, i) <= weight_prefix(ab, txps, ms, j),
    decreases j,
{
    if j > 0 {
        lemma_member_weight_nonneg(ab, txps, ms[j - 1]);
        if i < j {
            lemma_weight_prefix_mono(ab, txps, ms, i, j - 1);
        } else {
            lemma_weight_prefix_mono(ab, txps, ms, i - 1, j - 1);
        }
    }
}

/// Adding a class's shares keeps the length, and adds to the total exactly
/// the part of the class's reads handed out so far.
pub proof fn lemma_add_class_sum(acc: Seq<int>, ab: Seq<int>, txps: Seq<Transcript>, c: EqClass, i: int)
    requires
        class_wf(c, acc.len() as int),
        acc.len() == txps.len(),
        ab.len() == txps.len(),
        abundance_bounded(ab),
        0 <= i <= c.members@.len(),
    ensures
        add_class(acc, ab, txps, c, i).len() == acc.len(),
        seq_sum(add_class(acc, ab, txps, c, i)) == seq_sum(acc) + c.multiplicity * READ_UNIT
            * split_prefix(ab, txps, c.members@, i) / split_prefix(
            ab,
            txps,
            c.members@,
            c.members@.len() as int,
        ),
    decreases i,
{
    let ms = c.members@;
    lemma_split_prefix(ab, txps, ms, i);
    if i > 0 {
        lemma_add_class_sum(acc, ab, txps, c, i - 1);
        let prev = add_class(acc, ab, txps, c, i - 1);
        let t = ms[i - 1].target as int;
        assert(0 <= t < acc.len());
        lemma_seq_sum_update(prev, t, prev[t] + share(ab, txps, c, i - 1));
    } else {
        let w = split_prefix(ab, txps, ms, ms.len() as int);
        let total = c.multiplicity * READ_UNIT;
        assert(split_prefix(ab, txps, ms, 0) == 0);
        assert(total * 0 / w == 0) by (nonlinear_arith)
            requires w > 0;
    }
}

pub proof fn lemma_add_class_len(acc: Seq<int>, ab: Seq<int>, txps: Seq<Transcript>, c: EqClass, i: int)
    requires
        class_wf(c, acc.len() as int),
        0 <= i <= c.members@.len(),
    ensures
        add_class(acc, ab, txps, c, i).len() == acc.len(),
    decreases i,
{
    if i > 0 {
        lemma_add_class_len(acc, ab, txps, c, i - 1);
    }
}

/// Adding a whole class adds exactly its reads.
pub proof fn lemma_add_class_total(acc: Seq<int>, ab: Seq<int>, txps: Seq<Transcript>, c: EqClass)
    requires
        class_wf(c, acc.len() as int),
        acc.len() == txps.len(),
        ab.len() == txps.len(),
        abundance_bounded(ab),
    ensures
        add_class(acc, ab, txps, c, c.members@.len() as int).len() == acc.len(),
        seq_sum(add_class(acc, ab, txps, c, c.members@.len() as int)) == seq_sum(acc)
            + c.multiplicity * READ_UNIT,
{
    let n = c.members@.len() as int;
    lemma_add_class_sum(acc, ab, txps, c, n);
    lemma_split_prefix(ab, txps, c.members@, n);
    let w = split_prefix(ab, txps, c.members@, n);
    let total = c.multiplicity * READ_UNIT;
    assert(total * w / w == total) by (nonlinear_arith)
        requires w > 0;
}

pub proof fn lemma_add_classes_sum(acc: Seq<int>, ab: Seq<int>, txps: Seq<Transcript>, cs: Seq<EqClass>, k: int)
    requires
        classes_wf(cs, acc.len() as int),
        acc.len() == txps.len(),
        ab.len() == txps.len(),
        abundance_bounded(ab),
        0 <= k <= cs.len(),
    ensures
        add_classes(acc, ab, txps, cs, k).len() == acc.len(),
        seq_sum(add_classes(acc, ab, txps, cs, k)) == seq_sum(acc) + reads_upto(cs, k) * READ_UNIT,
    decreases k,
{
    if k > 0 {
        lemma_add_classes_sum(acc, ab, txps, cs, k - 1);
        assert(class_wf(cs[k - 1], acc.len() as int));
        lemma_add_class_total(add_classes(acc, ab, txps, cs, k - 1), ab, txps, cs[k - 1]);
    }
}

pub proof fn lemma_add_classes_len(acc: Seq<int>, ab: Seq<int>, txps: Seq<Transcript>, cs: Seq<EqClass>, k: int)
    requires
        classes_wf(cs, acc.len() as int),
        0 <= k <= cs.len(),
    ensures
        add_classes(acc, ab, txps, cs, k).len() == acc.len(),
    decreases k,
{
    if k > 0 {
        lemma_add_classes_len(acc, ab, txps, cs, k - 1);
        assert(class_wf(cs[k - 1], acc.len() as int));
        lemma_add_class_len(add_classes(acc, ab, txps, cs, k - 1), ab, txps, cs[k - 1], cs[k - 1].members@.len() as int);
    }
}

/// Conservation: one iteration hands out exactly the reads of all classes,
/// each class's multiplicity in full, over all transcripts together.
pub proof fn lemma_em_step_conserves(ab: Seq<int>, txps: Seq<Transcript>, cs: Seq<EqClass>)
    requires
        classes_wf(cs, txps.len() as int),
        ab.len() == txps.len(),
        abundance_bounded(ab),
    ensures
        em_step_spec(ab, txps, cs).len() == txps.len(),
        seq_sum(em_step_spec(ab, txps, cs)) == total_reads(cs) * READ_UNIT,
{
    lemma_seq_sum_zeros(txps.len() as int);
    lemma_add_classes_sum(zeros(txps.len() as int), ab, txps, cs, cs.len() as int);
}

/// A class leaves the transcripts that are not among its candidates untouched.
pub proof fn lemma_add_class_untouched(acc: Seq<int>, ab: Seq<int>, txps: Seq<Transcript>, c: EqClass, i: int, t: int)
    requires
        0 <= i <= c.members@.len(),
        0 <= t < acc.len(),
        class_wf(c, acc.len() as int),
        forall|k: int| 0 <= k < c.members@.len() ==> (#[trigger] c.members@[k]).target != t,
    ensures
        add_class(acc, ab, txps, c, i)[t] == acc[t],
    decreases i,
{
    if i > 0 {
        lemma_add_class_untouched(acc, ab, txps, c, i - 1, t);
        lemma_add_class_len(acc, ab, txps, c, i - 1);
        assert(c.members@[i - 1].target != t);
    }
}

pub proof fn lemma_add_classes_untouched(acc: Seq<int>, ab: Seq<int>, txps: Seq<Transcript>, cs: Seq<EqClass>, k: int, t: int)
    requires
        0 <= k <= cs.len(),
        0 <= t < acc.len(),
        classes_wf(cs, acc.len() as int),
        !referenced(cs, t),
    ensures
        add_classes(acc, ab, txps, cs, k)[t] == acc[t],
    decreases k,
{
    if k > 0 {
        lemma_add_classes_untouched(acc, ab, txps, cs, k - 1, t);
        lemma_add_classes_len(acc, ab, txps, cs, k - 1);
        let c = cs[k - 1];
        assert(class_wf(c, acc.len() as int));
        assert forall|i: int| 0 <= i < c.members@.len() implies (#[trigger] c.members@[i]).target != t by {
            if c.members@[i].target == t {
                assert(cs[k - 1].members@[i].target == t);
            }
        }
        lemma_add_class_untouched(add_classes(acc, ab, txps, cs, k - 1), ab, txps, c, c.members@.len() as int, t);
    }
}

pub proof fn lemma_reads_upto_mono(cs: Seq<EqClass>, k: int, m: int)
    requires
        0 <= k <= m <= cs.len(),
    ensures
        0 <= reads_upto(cs, k) <= reads_upto(cs, m),
    decreases m,
{
    if m > 0 {
        if k < m {
            lemma_reads_upto_mono(cs, k, m - 1);
        } else {
            lemma_reads_upto_mono(cs, k - 1, m - 1);
        }
    }
}

pub proof fn lemma_reads_upto_push_prefix(cs: Seq<EqClass>, c: EqClass, k: int)
    requires
        0 <= k <= cs.len(),
    ensures
        reads_upto(cs.push(c), k) == reads_upto(cs, k),
    decreases k,
{
    if k > 0 {
        lemma_reads_upto_push_prefix(cs, c, k - 1);
        assert(cs.push(c)[k - 1] == cs[k - 1]);
    }
}

pub proof fn lemma_reads_upto_push(cs: Seq<EqClass>, c: EqClass)
    ensures
        reads_upto(cs.push(c), cs.len() + 1int) == reads_upto(cs, cs.len() as int) + c.multiplicity,
{
    lemma_reads_upto_push_prefix(cs, c, cs.len() as int);
    assert(cs.push(c)[cs.len() as int] == c);
}

pub proof fn lemma_reads_upto_update(cs: Seq<EqClass>, idx: int, c: EqClass, k: int)
    requires
        0 <= idx < cs.len(),
        0 <= k <= cs.len(),
    ensures
        reads_upto(cs.update(idx, c), k) == reads_upto(cs, k) + if idx < k {
            c.multiplicity - cs[idx].multiplicity
        } else {
            0
        },
    decreases k,
{
    if k > 0 {
        lemma_reads_upto_update(cs, idx, c, k - 1);
    }
}

/// A transcript that no class names has abundance exactly 0 after every
/// iteration: never negative, and nothing is lost to it.
pub proof fn lemma_unreferenced_stays_zero(txps: Seq<Transcript>, cs: Seq<EqClass>, t: int, k: nat)
    requires
        classes_wf(cs, txps.len() as int),
        0 <= t < txps.len(),
        !referenced(cs, t),
    ensures
        iterate(txps, cs, k).len() == txps.len(),
        iterate(txps, cs, k)[t] == 0,
    decreases k,
{
    if k > 0 {
        lemma_unreferenced_stays_zero(txps, cs, t, (k - 1) as nat);
        let z = zeros(txps.len() as int);
        lemma_add_classes_len(z, iterate(txps, cs, (k - 1) as nat), txps, cs, cs.len() as int);
        lemma_add_classes_untouched(z, iterate(txps, cs, (k - 1) as nat), txps, cs, cs.len() as int, t);
    }
}

/// What a class adds to a transcript does not depend on what was there.
pub proof fn lemma_add_class_shift(acc1: Seq<int>, acc2: Seq<int>, ab: Seq<int>, txps: Seq<Transcript>, c: EqClass, i: int, t: int)
    requires
        class_wf(c, acc1.len() as int),
        acc1.len() == acc2.len(),
        0 <= i <= c.members@.len(),
        0 <= t < acc1.len(),
    ensures
        add_class(acc1, ab, txps, c, i)[t] - acc1[t] == add_class(acc2, ab, txps, c, i)[t] - acc2[t],
    decreases i,
{
    if i > 0 {
        lemma_add_class_shift(acc1, acc2, ab, txps, c, i - 1, t);
        lemma_add_class_len(acc1, ab, txps, c, i - 1);
        lemma_add_class_len(acc2, ab, txps, c, i - 1);
    }
}

/// Two classes added one after the other give the same in either order.
pub proof fn lemma_add_class_commute(acc: Seq<int>, ab: Seq<int>, txps: Seq<Transcript>, c1: EqClass, c2: EqClass)
    requires
        class_wf(c1, acc.len() as int),
        class_wf(c2, acc.len() as int),
    ensures
        add_class(add_class(acc, ab, txps, c1, c1.members@.len() as int), ab, txps, c2, c2.members@.len() as int)
            == add_class(add_class(acc, ab, txps, c2, c2.members@.len() as int), ab, txps, c1, c1.members@.len() as int),
{
    let n1 = c1.members@.len() as int;
    let n2 = c2.members@.len() as int;
    let x = add_class(acc, ab, txps, c1, n1);
    let y = add_class(acc, ab, txps, c2, n2);
    lemma_add_class_len(acc, ab, txps, c1, n1);
    lemma_add_class_len(acc, ab, txps, c2, n2);
    lemma_add_class_len(x, ab, txps, c2, n2);
    lemma_add_class_len(y, ab, txps, c1, n1);
    assert forall|t: int| 0 <= t < acc.len() implies add_class(x, ab, txps, c2, n2)[t] == add_class(y, ab, txps, c1, n1)[t] by {
        lemma_add_class_shift(x, acc, ab, txps, c2, n2, t);
        lemma_add_class_shift(y, acc, ab, txps, c1, n1, t);
    }
    assert(add_class(x, ab, txps, c2, n2) =~= add_class(y, ab, txps, c1, n1));
}

/// `cs` with the classes at `k` and `k + 1` exchanged.
pub open spec fn swap_adjacent(cs: Seq<EqClass>, k: int) -> Seq<EqClass> {
    cs.update(k, cs[k + 1]).update(k + 1, cs[k])
}

proof fn lemma_add_classes_swap(acc: Seq<int>, ab: Seq<int>, txps: Seq<Transcript>, cs: Seq<EqClass>, k: int, m: int)
    requires
        classes_wf(cs, acc.len() as int),
        0 <= k < k + 1 < cs.len(),
        0 <= m <= cs.len(),
        m <= k || m >= k + 2,
    ensures
        add_classes(acc, ab, txps, swap_adjacent(cs, k), m) == add_classes(acc, ab, txps, cs, m),
    decreases m,
{
    let cs2 = swap_adjacent(cs, k);
    if m == 0 {
    } else if m <= k || m > k + 2 {
        lemma_add_classes_swap(acc, ab, txps, cs, k, m - 1);
        assert(cs2[m - 1] == cs[m - 1]);
    } else {
        lemma_add_classes_swap(acc, ab, txps, cs, k, k);
        let p = add_classes(acc, ab, txps, cs, k);
        lemma_add_classes_len(acc, ab, txps, cs, k);
        assert(class_wf(cs[k], acc.len() as int));
        assert(class_wf(cs[k + 1], acc.len() as int));
        assert(cs2[k] == cs[k + 1] && cs2[k + 1] == cs[k]);
        assert(add_classes(acc, ab, txps, cs2, k + 1) == add_class(p, ab, txps, cs[k + 1], cs[k + 1].members@.len() as int));
        assert(add_classes(acc, ab, txps, cs, k + 1) == add_class(p, ab, txps, cs[k], cs[k].members@.len() as int));
        lemma_add_class_commute(p, ab, txps, cs[k], cs[k + 1]);
    }
}

/// Order invariance: exchanging two neighbouring classes changes neither
/// the starting point nor any iteration, so the final abundances do not
/// depend on the order in which the classes are processed (every reordering
/// is a series of such exchanges).
pub proof fn lemma_class_order_invariant(txps: Seq<Transcript>, cs: Seq<EqClass>, k: int, it: nat)
    requires
        classes_wf(cs, txps.len() as int),
        0 <= k < k + 1 < cs.len(),
    ensures
        iterate(txps, swap_adjacent(cs, k), it) == iterate(txps, cs, it),
    decreases it,
{
    let cs2 = swap_adjacent(cs, k);
    if it == 0 {
        assert forall|t: int| referenced(cs2, t) <==> referenced(cs, t) by {
            if referenced(cs, t) {
                let (j, i) = choose|j: int, i: int|
                    0 <= j < cs.len() && 0 <= i < cs[j].members@.len() && #[trigger] cs[j].members@[i].target == t;
                let j2 = if j == k { k + 1 } else if j == k + 1 { k } else { j };
                assert(cs2[j2] == cs[j]);
                assert(cs2[j2].members@[i].target == t);
            }
            if referenced(cs2, t) {
                let (j, i) = choose|j: int, i: int|
                    0 <= j < cs2.len() && 0 <= i < cs2[j].members@.len() && #[trigger] cs2[j].members@[i].target == t;
                let j2 = if j == k { k + 1 } else if j == k + 1 { k } else { j };
                assert(cs[j2] == cs2[j]);
                assert(cs[j2].members@[i].target == t);
            }
        }
        assert(initial_abundance(txps.len() as int, cs2) =~= initial_abundance(txps.len() as int, cs));
    } else {
        lemma_class_order_invariant(txps, cs, k, (it - 1) as nat);
        lemma_add_classes_swap(zeros(txps.len() as int), iterate(txps, cs, (it - 1) as nat), txps, cs, k, cs.len() as int);
    }
}

// ---------------------------------------------------------------------------
// Executable estimator

/// Upper bound of one member's weight.
pub open spec fn max_weight() -> int {
    MAX_ABUNDANCE as int * 1000 * WEIGHT_SCALE as int
}

fn weight_of(ab: &Vec<u64>, txps: &Vec<Transcript>, m: ClassMember) -> (w: u128)
    requires
        m.target < ab.len(),
        ab.len() == txps.len(),
        abundance_bounded(as_ints(ab@)),
        m.score <= crate::filter::MAX_SCORE_BUCKETS,
    ensures
        w == member_weight(as_ints(ab@), txps@, m),
        w <= max_weight(),
{
    let a: u128 = ab[m.target] as u128;
    let e: u128 = if txps[m.target].eff_len == 0 {
        1
    } else {
        txps[m.target].eff_len as u128
    };
    assert(as_ints(ab@)[m.target as int] == a);
    proof {
        let sc = m.score as int;
        assert(a * sc * 16 <= MAX_ABUNDANCE as int * 1000 * 16) by (nonlinear_arith)
            requires 0 <= a <= MAX_ABUNDANCE as int, 0 <= sc <= 1000;
        assert(a * sc * 16 / (e as int) <= a * sc * 16) by (nonlinear_arith)
            requires 0 <= a, 0 <= sc, e >= 1;
    }
    a * (m.score as u128) * (WEIGHT_SCALE as u128) / e
}

/// Adds the shares of all members of class `c` to `acc`.
fn add_class_exec(acc: &mut Vec<u64>, ab: &Vec<u64>, txps: &Vec<Transcript>, c: &EqClass)
    requires
        old(acc).len() == txps.len(),
        ab.len() == txps.len(),
        class_wf(*c, txps.len() as int),
        abundance_bounded(as_ints(ab@)),
        seq_sum(as_ints(old(acc)@)) + c.multiplicity * READ_UNIT <= MAX_ABUNDANCE,
    ensures
        as_ints(final(acc)@) == add_class(as_ints(old(acc)@), as_ints(ab@), txps@, *c, c.members@.len() as int),
        seq_sum(as_ints(final(acc)@)) == seq_sum(as_ints(old(acc)@)) + c.multiplicity * READ_UNIT,
        final(acc).len() == old(acc).len(),
{
    let ghost abi = as_ints(ab@);
    let ghost start = as_ints(acc@);
    let ms = &c.members;
    let n_m = ms.len();
    let mut wsum: u128 = 0;
    let mut i: usize = 0;
    while i < n_m
        invariant
            0 <= i <= n_m,
            n_m == ms@.len(),
            ms@ == c.members@,
            class_wf(*c, txps.len() as int),
            ab.len() == txps.len(),
            abundance_bounded(abi),
            abi == as_ints(ab@),
            wsum == weight_prefix(abi, txps@, ms@, i as int),
            wsum <= i * max_weight(),
        decreases n_m - i,
    {
        let w = weight_of(ab, txps, ms[i]);
        proof {
            assert((i + 1) * max_weight() == i * max_weight() + max_weight()) by (nonlinear_arith);
            assert((i + 1) * max_weight() <= 65535 * max_weight()) by (nonlinear_arith)
                requires i + 1 <= 65535;
        }
        wsum = wsum + w;
        i = i + 1;
    }
    let uniform = wsum == 0;
    let wtot: u128 = if uniform {
        n_m as u128
    } else {
        wsum
    };
    let total: u128 = c.multiplicity as u128 * READ_UNIT as u128;
    let mut cum: u128 = 0;
    let mut given: u128 = 0;
    proof {
        assert(class_wf(*c, txps.len() as int));
        assert(c.members@[0].target < txps.len());
        lemma_elem_le_sum(start, 0);
        assert(n_m * 1 <= n_m * max_weight()) by (nonlinear_arith)
            requires n_m >= 0;
        lemma_split_prefix(abi, txps@, ms@, 0);
        assert(total * 0 / (wtot as int) == 0) by (nonlinear_arith)
            requires wtot > 0;
    }
    i = 0;
    while i < n_m
        invariant
            0 <= i <= n_m,
            n_m == ms@.len(),
            ms@ == c.members@,
            class_wf(*c, txps.len() as int),
            ab.len() == txps.len(),
            abundance_bounded(abi),
            abi == as_ints(ab@),
            acc.len() == txps.len(),
            start.len() == txps.len(),
            wtot == split_prefix(abi, txps@, ms@, n_m as int),
            wtot > 0,
            wtot <= n_m * max_weight(),
            uniform == (weight_prefix(abi, txps@, ms@, n_m as int) == 0),
            total == c.multiplicity * READ_UNIT,
            seq_sum(start) + total <= MAX_ABUNDANCE,
            seq_sum(start) >= 0,
            cum == split_prefix(abi, txps@, ms@, i as int),
            given == total * cum / (wtot as int),
            given <= total,
            as_ints(acc@) == add_class(start, abi, txps@, *c, i as int),
            seq_sum(as_ints(acc@)) == seq_sum(start) + given,
        decreases n_m - i,
    {
        let m = ms[i];
        let w: u128 = if uniform {
            1
        } else {
            weight_of(ab, txps, m)
        };
        proof {
            lemma_split_prefix(abi, txps@, ms@, i + 1);
            assert(cum + w == split_prefix(abi, txps@, ms@, i + 1));
        }
        let next_cum: u128 = cum + w;
        proof {
            assert(total * next_cum <= total * wtot) by (nonlinear_arith)
                requires 0 <= total, next_cum <= wtot;
            assert(n_m * max_weight() <= 65535 * max_weight()) by (nonlinear_arith)
                requires n_m <= 65535;
            assert(total * wtot <= MAX_ABUNDANCE * (65535 * max_weight())) by (nonlinear_arith)
                requires 0 <= total <= MAX_ABUNDANCE, 0 <= wtot <= 65535 * max_weight();
            assert(total * cum <= total * next_cum) by (nonlinear_arith)
                requires 0 <= total, cum <= next_cum;
            lemma_div_is_ordered(total * cum, total * next_cum, wtot as int);
            lemma_div_is_ordered(total * next_cum, total * wtot, wtot as int);
            assert(total * wtot / (wtot as int) == total) by (nonlinear_arith)
                requires wtot > 0;
        }
        let next_given: u128 = total * next_cum / wtot;
        let sh: u128 = next_given - given;
        let t = m.target;
        proof {
            assert(sh == share(abi, txps@, *c, i as int));
            lemma_elem_le_sum(as_ints(acc@), t as int);
            assert(as_ints(acc@)[t as int] == acc@[t as int]);
        }
        let v: u64 = acc[t] + sh as u64;
        proof {
            lemma_seq_sum_update(as_ints(acc@), t as int, v as int);
        }
        acc[t] = v;
        proof {
            assert(as_ints(acc@) =~= add_class(start, abi, txps@, *c, i + 1));
        }
        cum = next_cum;
        given = next_given;
        i = i + 1;
    }
    proof {
        lemma_add_class_total(start, abi, txps@, *c);
    }
}

/// One EM iteration from abundances `ab`: splits each class's reads among
/// its candidates by responsibility and sums them per transcript.
pub fn em_step(ab: &Vec<u64>, txps: &Vec<Transcript>, classes: &Vec<EqClass>) -> (r: Vec<u64>)
    requires
        ab.len() == txps.len(),
        classes_wf(classes@, txps.len() as int),
        abundance_bounded(as_ints(ab@)),
        total_reads(classes@) <= MAX_READS,
    ensures
        r.len() == txps.len(),
        as_ints(r@) == em_step_spec(as_ints(ab@), txps@, classes@),
        seq_sum(as_ints(r@)) == total_reads(classes@) * READ_UNIT,
        abundance_bounded(as_ints(r@)),
{
    let n = txps.len();
    let mut acc: Vec<u64> = Vec::new();
    while acc.len() < n
        invariant
            acc.len() <= n,
            forall|i: int| 0 <= i < acc.len() ==> acc@[i] == 0,
        decreases n - acc.len(),
    {
        acc.push(0);
    }
    proof {
        assert(as_ints(acc@) =~= zeros(n as int));
        lemma_seq_sum_zeros(n as int);
    }
    let ghost abi = as_ints(ab@);
    let mut k: usize = 0;
    while k < classes.len()
        invariant
            0 <= k <= classes.len(),
            acc.len() == n,
            n == txps.len(),
            ab.len() == txps.len(),
            abi == as_ints(ab@),
            classes_wf(classes@, n as int),
            abundance_bounded(abi),
            total_reads(classes@) <= MAX_READS,
            as_ints(acc@) == add_classes(zeros(n as int), abi, txps@, classes@, k as int),
            seq_sum(as_ints(acc@)) == reads_upto(classes@, k as int) * READ_UNIT,
        decreases classes.len() - k,
    {
        proof {
            lemma_reads_upto_mono(classes@, k + 1, classes.len() as int);
            assert(class_wf(classes@[k as int], n as int));
        }
        add_class_exec(&mut acc, ab, txps, &classes[k]);
        k = k + 1;
    }
    proof {
        assert forall|t: int| 0 <= t < acc.len() implies 0 <= #[trigger] as_ints(acc@)[t] <= MAX_ABUNDANCE by {
            lemma_elem_le_sum(as_ints(acc@), t);
        }
    }
    acc
}

/// Stopping rule of the estimator.
#[derive(Clone, Copy, Debug)]
pub struct EmConfig {
    /// Largest change of any abundance, in abundance units, at which the
    /// iteration counts as converged.
    pub tolerance: u64,
    pub max_iterations: u32,
}

/// Final abundances, in abundance units, with the number of iterations run
/// and whether the last one met the tolerance.
#[derive(Clone, Debug)]
pub struct EmResult {
    pub abundances: Vec<u64>,
    pub iterations: u32,
    pub converged: bool,
}

#[derive(Clone, Copy, Debug, PartialEq, Eq, Structural)]
pub enum EmError {
    NoTranscripts,
    NoIterations,
}

/// Whether member `i` of class `j` comes before position (`j0`, `i0`) and
/// has `t` as its transcript.
pub open spec fn seen_before(cs: Seq<EqClass>, j0: int, i0: int, t: int) -> bool {
    exists|j: int, i: int|
        0 <= j < cs.len() && 0 <= i < cs[j].members@.len() && (j < j0 || (j == j0 && i < i0))
            && #[trigger] cs[j].members@[i].target == t
}

/// Starting point: one read's worth for each transcript that some class
/// names, nothing for the others.
pub open spec fn initial_abundance(n: int, cs: Seq<EqClass>) -> Seq<int> {
    Seq::new(n as nat, |t: int| if referenced(cs, t) { READ_UNIT as int } else { 0 })
}

/// Abundances after `k` iterations.
pub open spec fn iterate(txps: Seq<Transcript>, cs: Seq<EqClass>, k: nat) -> Seq<int>
    decreases k,
{
    if k == 0 {
        initial_abundance(txps.len() as int, cs)
    } else {
        em_step_spec(iterate(txps, cs, (k - 1) as nat), txps, cs)
    }
}

pub open spec fn abs_diff(x: int, y: int) -> int {
    if x >= y { x - y } else { y - x }
}

/// Largest change between `a` and `b` over the first `n` transcripts.
pub open spec fn max_delta(a: Seq<int>, b: Seq<int>, n: int) -> int
    decreases n,
{
    if n <= 0 {
        0
    } else {
        let d = abs_diff(a[n - 1], b[n - 1]);
        let m = max_delta(a, b, n - 1);
        if d > m { d } else { m }
    }
}

/// Change made by iteration `k` (counted from 1).
pub open spec fn delta_at(txps: Seq<Transcript>, cs: Seq<EqClass>, k: nat) -> int {
    max_delta(iterate(txps, cs, (k - 1) as nat), iterate(txps, cs, k), txps.len() as int)
}

/// What the estimator returns: the abundances after the first iteration
/// whose change is within the tolerance, or after the last allowed one.
pub open spec fn em_outcome(txps: Seq<Transcript>, cs: Seq<EqClass>, cfg: EmConfig, r: EmResult) -> bool {
    &&& 1 <= r.iterations <= cfg.max_iterations
    &&& as_ints(r.abundances@) == iterate(txps, cs, r.iterations as nat)
    &&& r.converged == (delta_at(txps, cs, r.iterations as nat) <= cfg.tolerance)
    &&& forall|k: nat| 1 <= k < r.iterations ==> #[trigger] delta_at(txps, cs, k) > cfg.tolerance
    &&& !r.converged ==> r.iterations == cfg.max_iterations
}

fn initial_abundance_exec(n: usize, classes: &Vec<EqClass>) -> (r: Vec<u64>)
    requires
        classes_wf(classes@, n as int),
    ensures
        r.len() == n,
        as_ints(r@) == initial_abundance(n as int, classes@),
        abundance_bounded(as_ints(r@)),
{
    let ghost cs = classes@;
    let mut ab: Vec<u64> = Vec::new();
    while ab.len() < n
        invariant
            ab.len() <= n,
            forall|i: int| 0 <= i < ab.len() ==> ab@[i] == 0,
        decreases n - ab.len(),
    {
        ab.push(0);
    }
    let mut j: usize = 0;
    while j < classes.len()
        invariant
            0 <= j <= classes.len(),
            cs == classes@,
            ab.len() == n,
            classes_wf(cs, n as int),
            forall|t: int| 0 <= t < n ==> (ab@[t] == 0 || ab@[t] == READ_UNIT) && (ab@[t] != 0 <==> seen_before(cs, j as int, 0, t)),
        decreases classes.len() - j,
    {
        let ms = &classes[j].members;
        proof {
            assert(class_wf(cs[j as int], n as int));
        }
        let mut i: usize = 0;
        while i < ms.len()
            invariant
                0 <= j < classes.len(),
                0 <= i <= ms.len(),
                cs == classes@,
                ms@ == cs[j as int].members@,
                ab.len() == n,
                class_wf(cs[j as int], n as int),
                forall|t: int| 0 <= t < n ==> (ab@[t] == 0 || ab@[t] == READ_UNIT) && (ab@[t] != 0 <==> seen_before(cs, j as int, i as int, t)),
            decreases ms.len() - i,
        {
            let t0 = ms[i].target;
            ab[t0] = READ_UNIT;
            proof {
                assert(cs[j as int].members@[i as int].target == t0);
                assert forall|t: int| 0 <= t < n implies (ab@[t] == 0 || ab@[t] == READ_UNIT) && (ab@[t] != 0 <==> seen_before(cs, j as int, i + 1, t)) by {
                    if seen_before(cs, j as int, i + 1, t) && t != t0 {
                        let (jj, ii) = choose|jj: int, ii: int|
                            0 <= jj < cs.len() && 0 <= ii < cs[jj].members@.len() && (jj < j || (jj == j && ii < i + 1))
                                && #[trigger] cs[jj].members@[ii].target == t;
                        assert(seen_before(cs, j as int, i as int, t));
                    }
                    if t != t0 && seen_before(cs, j as int, i as int, t) {
                        let (jj, ii) = choose|jj: int, ii: int|
                            0 <= jj < cs.len() && 0 <= ii < cs[jj].members@.len() && (jj < j || (jj == j && ii < i))
                                && #[trigger] cs[jj].members@[ii].target == t;
                        assert(seen_before(cs, j as int, i + 1, t));
                    }
                }
            }
            i = i + 1;
        }
        proof {
            assert forall|t: int| 0 <= t < n implies (seen_before(cs, j as int, i as int, t) <==> seen_before(cs, j + 1, 0, t)) by {
                if seen_before(cs, j as int, i as int, t) {
                    let (jj, ii) = choose|jj: int, ii: int|
                        0 <= jj < cs.len() && 0 <= ii < cs[jj].members@.len() && (jj < j || (jj == j && ii < i))
                            && #[trigger] cs[jj].members@[ii].target == t;
                    assert(seen_before(cs, j + 1, 0, t));
                }
                if seen_before(cs, j + 1, 0, t) {
                    let (jj, ii) = choose|jj: int, ii: int|
                        0 <= jj < cs.len() && 0 <= ii < cs[jj].members@.len() && (jj < j + 1 || (jj == j + 1 && ii < 0))
                            && #[trigger] cs[jj].members@[ii].target == t;
                    assert(seen_before(cs, j as int, i as int, t));
                }
            }
        }
        j = j + 1;
    }
    proof {
        assert forall|t: int| 0 <= t < n implies (seen_before(cs, cs.len() as int, 0, t) <==> referenced(cs, t)) by {
            if referenced(cs, t) {
                let (jj, ii) = choose|jj: int, ii: int|
                    0 <= jj < cs.len() && 0 <= ii < cs[jj].members@.len() && #[trigger] cs[jj].members@[ii].target == t;
                assert(seen_before(cs, cs.len() as int, 0, t));
            }
        }
        assert(as_ints(ab@) =~= initial_abundance(n as int, cs));
    }
    ab
}

/// Largest change between two abundance vectors of equal length.
pub fn max_abs_delta(a: &Vec<u64>, b: &Vec<u64>) -> (d: u64)
    requires
        a.len() == b.len(),
    ensures
        d == max_delta(as_ints(a@), as_ints(b@), a.len() as int),
{
    let mut d: u64 = 0;
    let mut t: usize = 0;
    while t < a.len()
        invariant
            0 <= t <= a.len(),
            a.len() == b.len(),
            d == max_delta(as_ints(a@), as_ints(b@), t as int),
        decreases a.len() - t,
    {
        let x = a[t];
        let y = b[t];
        let e: u64 = if x >= y { x - y } else { y - x };
        if e > d {
            d = e;
        }
        t = t + 1;
    }
    d
}

/// Runs EM iterations from the initial abundances until the change made by
/// one iteration is within the tolerance, or the iteration cap is reached.
pub fn estimate(txps: &Vec<Transcript>, classes: &Vec<EqClass>, cfg: &EmConfig) -> (r: Result<EmResult, EmError>)
    requires
        classes_wf(classes@, txps.len() as int),
        total_reads(classes@) <= MAX_READS,
    ensures
        (r matches Err(EmError::NoTranscripts)) <==> txps.len() == 0,
        (r matches Err(EmError::NoIterations)) <==> (txps.len() > 0 && cfg.max_iterations == 0),
        r is Ok ==> em_outcome(txps@, classes@, *cfg, r->Ok_0),
{
    if txps.len() == 0 {
        return Err(EmError::NoTranscripts);
    }
    if cfg.max_iterations == 0 {
        return Err(EmError::NoIterations);
    }
    let mut ab = initial_abundance_exec(txps.len(), classes);
    let mut it: u32 = 0;
    loop
        invariant
            0 <= it < cfg.max_iterations,
            txps.len() > 0,
            ab.len() == txps.len(),
            classes_wf(classes@, txps.len() as int),
            total_reads(classes@) <= MAX_READS,
            abundance_bounded(as_ints(ab@)),
            as_ints(ab@) == iterate(txps@, classes@, it as nat),
            forall|k: nat| 1 <= k <= it ==> #[trigger] delta_at(txps@, classes@, k) > cfg.tolerance,
        decreases cfg.max_iterations - it,
    {
        let next = em_step(&ab, txps, classes);
        let d = max_abs_delta(&ab, &next);
        it = it + 1;
        proof {
            assert(iterate(txps@, classes@, it as nat) == em_step_spec(iterate(txps@, classes@, (it - 1) as nat), txps@, classes@));
            assert(d == delta_at(txps@, classes@, it as nat));
        }
        ab = next;
        if d <= cfg.tolerance {
            return Ok(EmResult { abundances: ab, iterations: it, converged: true });
        }
        if it == cfg.max_iterations {
            return Ok(EmResult { abundances: ab, iterations: it, converged: false });
        }
    }
}

// ---------------------------------------------------------------------------
// Normalized units

/// Denominator of relative abundances: parts per million.
pub const PER_MILLION: u64 = 1_000_000;

/// Abundance per unit of effective length, in abundance units.
pub open spec fn density(ab: Seq<int>, txps: Seq<Transcript>, t: int) -> int {
    ab[t] * READ_UNIT as int / eff_len(txps[t])
}

pub open spec fn densities(ab: Seq<int>, txps: Seq<Transcript>) -> Seq<int> {
    Seq::new(ab.len(), |t: int| density(ab, txps, t))
}

/// Share of each transcript in the total abundance per unit length, in
/// parts per million (rounded down); all zero when there is no abundance.
pub open spec fn per_million(ab: Seq<int>, txps: Seq<Transcript>, t: int) -> int {
    let d = seq_sum(densities(ab, txps));
    if d == 0 {
        0
    } else {
        density(ab, txps, t) * PER_MILLION as int / d
    }
}

pub proof fn lemma_seq_sum_prefix(s: Seq<int>, i: int)
    requires
        0 <= i < s.len(),
    ensures
        seq_sum(s.subrange(0, i + 1)) == seq_sum(s.subrange(0, i)) + s[i],
{
    assert(s.subrange(0, i + 1).drop_last() =~= s.subrange(0, i));
}

/// A sum of values each bounded by `b[t]` is bounded by the sum of `b`.
pub proof fn lemma_seq_sum_le(a: Seq<int>, b: Seq<int>)
    requires
        a.len() == b.len(),
        forall|t: int| 0 <= t < a.len() ==> a[t] <= b[t],
    ensures
        seq_sum(a) <= seq_sum(b),
    decreases a.len(),
{
    if a.len() > 0 {
        let (da, db) = (a.drop_last(), b.drop_last());
        assert forall|t: int| 0 <= t < da.len() implies da[t] <= db[t] by {
            assert(da[t] == a[t] && db[t] == b[t]);
        }
        lemma_seq_sum_le(da, db);
    }
}

pub proof fn lemma_seq_sum_scale(s: Seq<int>, k: int)
    ensures
        seq_sum(Seq::new(s.len(), |t: int| k * s[t])) == k * seq_sum(s),
    decreases s.len(),
{
    let ks = Seq::new(s.len(), |t: int| k * s[t]);
    if s.len() > 0 {
        lemma_seq_sum_scale(s.drop_last(), k);
        assert(ks.drop_last() =~= Seq::new(s.drop_last().len(), |t: int| k * s.drop_last()[t]));
        let (x, y, z) = (seq_sum(s), seq_sum(s.drop_last()), s.last());
        assert(x == y + z);
        assert(k * x == k * y + k * z) by (nonlinear_arith)
            requires x == y + z;
    }
}

/// Relative abundance per unit of effective length of each transcript, in
/// parts per million.
pub fn relative_abundance(ab: &Vec<u64>, txps: &Vec<Transcript>) -> (r: Vec<u64>)
    requires
        ab.len() == txps.len(),
        abundance_bounded(as_ints(ab@)),
        seq_sum(as_ints(ab@)) <= MAX_ABUNDANCE,
    ensures
        r.len() == ab.len(),
        forall|t: int| 0 <= t < r.len() ==> r@[t] == per_million(as_ints(ab@), txps@, t),
{
    let ghost abi = as_ints(ab@);
    let ghost ds = densities(abi, txps@);
    proof {
        assert forall|t: int| 0 <= t < ds.len() implies 0 <= #[trigger] ds[t] <= READ_UNIT * abi[t] by {
            let e = eff_len(txps@[t]);
            let a = abi[t];
            assert(0 <= a * 65536 / e <= a * 65536) by (nonlinear_arith)
                requires a >= 0, e >= 1;
        }
        lemma_seq_sum_nonneg(ds);
        assert(ds.subrange(0, 0).len() == 0);
        lemma_seq_sum_le(ds, Seq::new(abi.len(), |t: int| READ_UNIT * abi[t]));
        lemma_seq_sum_scale(abi, READ_UNIT as int);
    }
    let mut total: u128 = 0;
    let mut t: usize = 0;
    while t < ab.len()
        invariant
            0 <= t <= ab.len(),
            ab.len() == txps.len(),
            abi == as_ints(ab@),
            ds == densities(abi, txps@),
            abundance_bounded(abi),
            seq_sum(ds) <= READ_UNIT * MAX_ABUNDANCE,
            forall|u: int| 0 <= u < ds.len() ==> 0 <= #[trigger] ds[u],
            total == seq_sum(ds.subrange(0, t as int)),
            total <= seq_sum(ds),
        decreases ab.len() - t,
    {
        let e: u128 = if txps[t].eff_len == 0 { 1 } else { txps[t].eff_len as u128 };
        let d: u128 = (ab[t] as u128) * (READ_UNIT as u128) / e;
        proof {
            assert(d == ds[t as int]);
            lemma_seq_sum_prefix(ds, t as int);
            let rest = ds.subrange(t as int + 1, ds.len() as int);
            assert forall|u: int| 0 <= u < ds.len() implies 0 <= #[trigger] ds[u] by {}
            assert(ds =~= ds.subrange(0, t as int + 1) + rest);
            lemma_seq_sum_concat(ds.subrange(0, t as int + 1), rest);
            lemma_seq_sum_nonneg(rest);
        }
        total = total + d;
        t = t + 1;
    }
    proof {
        assert(ds.subrange(0, ds.len() as int) =~= ds);
    }
    let mut r: Vec<u64> = Vec::new();
    t = 0;
    while t < ab.len()
        invariant
            0 <= t <= ab.len(),
            r.len() == t,
            ab.len() == txps.len(),
            abi == as_ints(ab@),
            ds == densities(abi, txps@),
            total == seq_sum(ds),
            total <= READ_UNIT * MAX_ABUNDANCE,
            forall|u: int| 0 <= u < ds.len() ==> 0 <= #[trigger] ds[u],
            forall|u: int| 0 <= u < t ==> r@[u] == per_million(abi, txps@, u),
        decreases ab.len() - t,
    {
        let e: u128 = if txps[t].eff_len == 0 { 1 } else { txps[t].eff_len as u128 };
        let d: u128 = (ab[t] as u128) * (READ_UNIT as u128) / e;
        let v: u64 = if total == 0 {
            0
        } else {
            proof {
                assert(d == ds[t as int]);
                lemma_elem_le_sum(ds, t as int);
                assert(d * 1_000_000 <= total * 1_000_000) by (nonlinear_arith)
                    requires d <= total;
                assert(d * 1_000_000 / (total as int) <= 1_000_000) by (nonlinear_arith)
                    requires d * 1_000_000 <= total * 1_000_000, total > 0;
            }
            (d * (PER_MILLION as u128) / total) as u64
        };
        r.push(v);
        t = t + 1;
    }
    r
}

pub proof fn lemma_seq_sum_nonneg(s: Seq<int>)
    requires
        forall|u: int| 0 <= u < s.len() ==> 0 <= #[trigger] s[u],
    ensures
        seq_sum(s) >= 0,
    decreases s.len(),
{
    if s.len() > 0 {
        let d = s.drop_last();
        assert forall|u: int| 0 <= u < d.len() implies 0 <= #[trigger] d[u] by {
            assert(d[u] == s[u]);
        }
        lemma_seq_sum_nonneg(d);
    }
}

pub proof fn lemma_seq_sum_concat(a: Seq<int>, b: Seq<int>)
    ensures
        seq_sum(a + b) == seq_sum(a) + seq_sum(b),
    decreases b.len(),
{
    if b.len() > 0 {
        assert((a + b).drop_last() =~= a + b.drop_last());
        lemma_seq_sum_concat(a, b.drop_last());
    } else {
        assert(a + b =~= a);
    }
}

} // verus!
