//! Run configuration: entity-space sizes, hour count, disruption count,
//! dispatch settings and the distribution bounds for both regimes.

use vstd::prelude::*;

verus! {

/// Sink-side settings: index mappings, the saved search template and the
/// bulk size used when batching records for dispatch.
pub struct ES {
    pub mapping: String,
    pub hotcloudmapping: String,
    pub query: String,
    pub bulk_size: usize,
}

impl ES {
    /// Default sink settings: empty mapping/template bodies, 10000-record bulks.
    pub fn new() -> (r: ES)
        ensures
            r.mapping@.len() == 0,
            r.hotcloudmapping@.len() == 0,
            r.query@.len() == 0,
            r.bulk_size == 10000,
    {
        ES {
            mapping: String::new(),
            hotcloudmapping: String::new(),
            query: String::new(),
            bulk_size: 10000,
        }
    }
}

/// Bounds from which a regime's per-tuple Gaussian parameters are drawn:
/// mean uniform in `[min_mean, max_mean)`, std uniform in `[min_std, max_std)`.
pub struct Distribution {
    pub min_mean: usize,
    pub max_mean: usize,
    pub min_std: usize,
    pub max_std: usize,
}

/// Which regime a `Distribution` describes.
pub enum DistributionType {
    Regular,
    Disrupted,
}

impl Distribution {
    /// The documented default bounds for each regime:
    /// regular mean in [20,40), std in [1,10); disrupted mean in [60,200), std in [20,100).
    pub fn new(dist_type: DistributionType) -> (r: Distribution)
        ensures
            match dist_type {
                DistributionType::Regular => r.min_mean == 20 && r.max_mean == 40
                    && r.min_std == 1 && r.max_std == 10,
                DistributionType::Disrupted => r.min_mean == 60 && r.max_mean == 200
                    && r.min_std == 20 && r.max_std == 100,
            },
    {
        match dist_type {
            DistributionType::Regular => Distribution {
                min_mean: 20,
                max_mean: 40,
                min_std: 1,
                max_std: 10,
            },
            DistributionType::Disrupted => Distribution {
                min_mean: 60,
                max_mean: 200,
                min_std: 20,
                max_std: 100,
            },
        }
    }

    /// Both draw ranges are nonempty, so parameter draws from these bounds
    /// are always possible.
    pub open spec fn wf(self) -> bool {
        self.min_mean < self.max_mean && self.min_std < self.max_std
    }
}

/// Immutable configuration for one simulation run.
pub struct Config {
    pub nodes: usize,
    pub queries: usize,
    pub metrics: usize,
    pub hours: usize,
    pub disruptions: usize,
    pub threads: usize,
    pub regular_distribution: Distribution,
    pub disrupted_distribution: Distribution,
    pub es: ES,
}

impl Config {
    /// The documented defaults, used when no configuration file is found.
    pub fn new() -> (r: Config)
        ensures
            r.nodes == 10,
            r.queries == 10,
            r.metrics == 10,
            r.hours == 3000,
            r.disruptions == 50,
            r.threads == 2,
            r.regular_distribution.min_mean == 20,
            r.regular_distribution.max_mean == 40,
            r.regular_distribution.min_std == 1,
            r.regular_distribution.max_std == 10,
            r.disrupted_distribution.min_mean == 60,
            r.disrupted_distribution.max_mean == 200,
            r.disrupted_distribution.min_std == 20,
            r.disrupted_distribution.max_std == 100,
            r.es.bulk_size == 10000,
            r.es.mapping@.len() == 0,
            r.es.hotcloudmapping@.len() == 0,
            r.es.query@.len() == 0,
            r.wf(),
    {
        Config {
            nodes: 10,
            queries: 10,
            metrics: 10,
            hours: 3000,
            disruptions: 50,
            threads: 2,
            regular_distribution: Distribution::new(DistributionType::Regular),
            disrupted_distribution: Distribution::new(DistributionType::Disrupted),
            es: ES::new(),
        }
    }

    /// What the Disruption Scheduler needs of a configuration: a nonempty
    /// entity space with at least ten queries and metrics, and a timeline
    /// long enough to hold a disruption window.
    pub open spec fn entity_ok(self) -> bool {
        &&& self.nodes >= 1
        &&& self.queries >= 10
        &&& self.metrics >= 10
        &&& self.hours > 72
    }

    /// Everything the randomized generators need: the entity space above,
    /// plus nonempty draw ranges for both regimes.
    pub open spec fn wf(self) -> bool {
        &&& self.entity_ok()
        &&& self.regular_distribution.wf()
        &&& self.disrupted_distribution.wf()
    }
}

} // verus!
