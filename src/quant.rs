//! The whole estimation: filter, group into classes, estimate.
use crate::em::{em_outcome, estimate, EmConfig, EmError, EmResult, Transcript, MAX_CLASS_SIZE, MAX_READS};
use crate::eqclass::{build_classes, classes_of, counts_of, n_admitted_reads, ClassSet};
use crate::filter::{AlignmentRecord, FilterConfig};
use vstd::prelude::*;

verus! {

/// Estimates transcript abundances from the alignments of each read.
/// Returns the classes the reads formed and the estimator's result.
pub fn quantify(
    reads: &Vec<Vec<AlignmentRecord>>,
    txps: &Vec<Transcript>,
    fcfg: &FilterConfig,
    ecfg: &EmConfig,
) -> (r: Result<(ClassSet, EmResult), EmError>)
    requires
        reads.len() <= MAX_READS,
        fcfg.score_buckets <= crate::filter::MAX_SCORE_BUCKETS,
        forall|j: int| 0 <= j < reads.len() ==> (#[trigger] reads@[j]).len() <= MAX_CLASS_SIZE,
    ensures
        (r matches Err(EmError::NoTranscripts)) <==> txps.len() == 0,
        (r matches Err(EmError::NoIterations)) <==> (txps.len() > 0 && ecfg.max_iterations == 0),
        r matches Ok((cls, res)) ==> {
            &&& classes_of(cls.classes@, reads@, reads.len() as int, txps.len(), *fcfg)
            &&& counts_of(cls.classes@, reads@, reads.len() as int, txps.len(), *fcfg)
            &&& crate::em::total_reads(cls.classes@) == n_admitted_reads(reads@, txps.len(), *fcfg, reads.len() as int)
            &&& cls.discarded_reads + crate::em::total_reads(cls.classes@) == reads.len()
            &&& em_outcome(txps@, cls.classes@, *ecfg, res)
        },
{
    let cls = build_classes(reads, txps.len(), fcfg);
    match estimate(txps, &cls.classes, ecfg) {
        Ok(res) => Ok((cls, res)),
        Err(e) => Err(e),
    }
}

} // verus!
