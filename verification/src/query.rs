//! The read-side query body: a reference to the saved search template plus
//! the one-day time window it is evaluated over. The surrounding binary
//! serializes and posts it; the window arithmetic is computed here.

use vstd::prelude::*;
use crate::record::{format_timestamp, ts_bytes};
use crate::timestamp::{add_hours, spec_add_hours, Timestamp};

verus! {

/// Body of one template search: which template, over which window.
pub struct HotCloudQuery {
    pub template: SearchTemplate,
    pub params: SearchParams,
}

/// Reference to the saved search template.
pub struct SearchTemplate {
    pub id: String,
}

/// The window `[hour - 24h, hour]` measured from 2015-01-01T00:00:00, both
/// ends as formatted timestamps.
pub struct SearchParams {
    pub start: Vec<u8>,
    pub end: Vec<u8>,
}

impl SearchTemplate {
    pub fn new() -> (r: SearchTemplate)
        ensures
            r.id@ == "hotcloud"@,
    {
        SearchTemplate { id: "hotcloud".to_owned() }
    }
}

impl SearchParams {
    /// The day-long window ending `hour` hours past 2015-01-01T00:00:00;
    /// its start is one day earlier, so it is measured from 2014-12-31. Any
    /// hour count that keeps the year within four digits is admitted.
    pub fn new(hour: usize) -> (r: SearchParams)
        requires
            hour <= 69939695,
        ensures
            r.start@ == ts_bytes(
                spec_add_hours(
                    Timestamp { year: 2014usize, month: 12usize, day: 31usize, hour: 0usize },
                    hour as nat,
                ),
            ),
            r.end@ == ts_bytes(
                spec_add_hours(
                    Timestamp { year: 2015usize, month: 1usize, day: 1usize, hour: 0usize },
                    hour as nat,
                ),
            ),
    {
        proof {
            vstd::arithmetic::div_mod::lemma_div_is_ordered(hour as int, 69939695, 24);
            vstd::arithmetic::div_mod::lemma_div_is_ordered((hour as int) / 24 + 371, 2914524, 365);
        }
        let start_base = Timestamp { year: 2014, month: 12, day: 31, hour: 0 };
        let end_base = Timestamp { year: 2015, month: 1, day: 1, hour: 0 };
        let start_ts = add_hours(&start_base, hour);
        let end_ts = add_hours(&end_base, hour);
        SearchParams { start: format_timestamp(&start_ts), end: format_timestamp(&end_ts) }
    }
}

impl HotCloudQuery {
    /// The query for the window ending at `hour`.
    pub fn new(hour: usize) -> (r: HotCloudQuery)
        requires
            hour <= 69939695,
        ensures
            r.template.id@ == "hotcloud"@,
            r.params.start@ == ts_bytes(
                spec_add_hours(
                    Timestamp { year: 2014usize, month: 12usize, day: 31usize, hour: 0usize },
                    hour as nat,
                ),
            ),
            r.params.end@ == ts_bytes(
                spec_add_hours(
                    Timestamp { year: 2015usize, month: 1usize, day: 1usize, hour: 0usize },
                    hour as nat,
                ),
            ),
    {
        HotCloudQuery { template: SearchTemplate::new(), params: SearchParams::new(hour) }
    }
}

} // verus!
