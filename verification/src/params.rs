//! The parameters that the distribution endpoints take from the path and
//! the query string.
use vstd::prelude::*;

use crate::aggregation::UrpdAggregation;
use crate::date::Date;
use crate::sopd::Cohort;

verus! {

/// Path parameters of `/api/sopd/{cohort}/{date}`.
#[derive(Clone, Debug)]
pub struct SopdParams {
    pub cohort: Cohort,
    pub date: Date,
}

/// Path parameters of the per-cohort endpoints.
#[derive(Clone, Debug)]
pub struct SopdCohortParam {
    pub cohort: Cohort,
}

/// Path parameters of `/api/sopd/{cohort}/block/{height}`.
#[derive(Clone, Debug)]
pub struct SopdBlockParam {
    pub cohort: Cohort,
    pub height: u32,
}

/// Query parameters of the distribution endpoints.
#[derive(Clone, Copy, Debug)]
pub struct SopdQuery {
    /// Bucketing strategy; raw (no re-binning) when the query names none.
    pub aggregation: UrpdAggregation,
}

impl Default for SopdQuery {
    fn default() -> (r: Self)
        ensures
            r.aggregation == UrpdAggregation::Raw,
    {
        SopdQuery { aggregation: UrpdAggregation::Raw }
    }
}

} // verus!
