//! Failures of a run: each region or sample that failed is kept with its
//! cause, and the run succeeds only when none did.
use vstd::prelude::*;

use crate::merge::RegionPartials;

verus! {

/// The split of one region failed.
pub struct SplitError {
    pub region: String,
    pub message: String,
}

/// The merge of one sample's partial archives failed.
pub struct MergeError {
    pub sample: String,
    pub message: String,
}

/// A run that did not complete: every region and every sample that failed.
pub struct RunError {
    pub regions: Vec<SplitError>,
    pub samples: Vec<MergeError>,
}

/// The results of the regions that were split, in arrival order.
pub open spec fn succeeded(outcomes: Seq<Result<RegionPartials, SplitError>>) -> Seq<RegionPartials>
    decreases outcomes.len(),
{
    if outcomes.len() == 0 {
        Seq::empty()
    } else {
        let rest = succeeded(outcomes.drop_last());
        match outcomes.last() {
            Ok(p) => rest.push(p),
            Err(_) => rest,
        }
    }
}

/// The failures of the regions that could not be split, in arrival order.
pub open spec fn failed(outcomes: Seq<Result<RegionPartials, SplitError>>) -> Seq<SplitError>
    decreases outcomes.len(),
{
    if outcomes.len() == 0 {
        Seq::empty()
    } else {
        let rest = failed(outcomes.drop_last());
        match outcomes.last() {
            Ok(_) => rest,
            Err(e) => rest.push(e),
        }
    }
}

/// Separates the regions' outcomes into the results to merge and the
/// failures to report, keeping the arrival order of each.
pub fn collect_regions(outcomes: Vec<Result<RegionPartials, SplitError>>) -> (r: (
    Vec<RegionPartials>,
    Vec<SplitError>,
))
    ensures
        r.0@ == succeeded(outcomes@),
        r.1@ == failed(outcomes@),
{
    let ghost all = outcomes@;
    let mut done: Vec<RegionPartials> = Vec::new();
    let mut errors: Vec<SplitError> = Vec::new();
    for o in it: outcomes
        invariant
            it.seq() == all,
            done@ == succeeded(all.take(it.index() as int)),
            errors@ == failed(all.take(it.index() as int)),
    {
        let ghost i = it.index() as int;
        assert(all.take(i + 1).drop_last() =~= all.take(i));
        match o {
            Ok(p) => done.push(p),
            Err(e) => errors.push(e),
        }
    }
    assert(all.take(all.len() as int) =~= all);
    (done, errors)
}

/// The outcome of a run: success exactly when no region and no sample
/// failed; otherwise every failure, as collected.
pub fn finish(regions: Vec<SplitError>, samples: Vec<MergeError>) -> (r: Result<(), RunError>)
    ensures
        r is Ok <==> regions@.len() == 0 && samples@.len() == 0,
        r matches Err(e) ==> e.regions@ == regions@ && e.samples@ == samples@,
{
    if regions.len() == 0 && samples.len() == 0 {
        Ok(())
    } else {
        Err(RunError { regions, samples })
    }
}

} // verus!
