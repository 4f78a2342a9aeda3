//! Per-tuple Gaussian parameters: every `(node, query, metric)` tuple owns a
//! regular and a disrupted `(mean, std)` pair, stored in a dense table over
//! the whole entity space.

use vstd::prelude::*;
use crate::config::Distribution;

verus! {

/// The two parameters of one Gaussian regime.
#[derive(Clone, Copy, PartialEq, Eq, Structural, Debug)]
pub struct NormalParams {
    pub mean: usize,
    pub std: usize,
}

/// The regular and disrupted regimes of one entity tuple.
#[derive(Clone, Copy, PartialEq, Eq, Structural, Debug)]
pub struct EntityDistribution {
    pub regular: NormalParams,
    pub disrupted: NormalParams,
}

/// Whether a parameter pair was drawn from within the given bounds.
pub open spec fn params_in(p: NormalParams, b: Distribution) -> bool {
    &&& b.min_mean <= p.mean < b.max_mean
    &&& b.min_std <= p.std < b.max_std
}

/// The position of tuple `(node, query, metric)` in a dense table over an
/// entity space with `queries` queries and `metrics` metrics per node.
pub open spec fn tuple_index(node: int, query: int, metric: int, queries: int, metric_count: int) -> int {
    (node * queries + query) * metric_count + metric
}

/// Dense table of `EntityDistribution`s over the cross product
/// `nodes x queries x metrics`, read-only after construction.
pub struct DistributionTable {
    pub nodes: usize,
    pub queries: usize,
    pub metrics: usize,
    pub entries: Vec<EntityDistribution>,
}

impl View for DistributionTable {
    type V = Seq<EntityDistribution>;

    open spec fn view(&self) -> Self::V {
        self.entries@
    }
}

impl DistributionTable {
    /// The table covers its entity space exactly.
    pub open spec fn wf(&self) -> bool {
        self.entries@.len() == self.nodes * self.queries * self.metrics
    }

    /// The flat position of a tuple lies inside the table.
    pub proof fn lemma_tuple_index_in_range(&self, node: int, query: int, metric: int)
        requires
            self.wf(),
            0 <= node < self.nodes,
            0 <= query < self.queries,
            0 <= metric < self.metrics,
        ensures
            0 <= tuple_index(node, query, metric, self.queries as int, self.metrics as int)
                < self@.len(),
    {
        let n = self.nodes as int;
        let q = self.queries as int;
        let m = self.metrics as int;
        assert(0 <= (node * q + query) * m + metric < n * q * m) by (nonlinear_arith)
            requires
                0 <= node < n,
                0 <= query < q,
                0 <= metric < m,
        {
        }
    }

    /// Both regimes of one tuple.
    pub fn get(&self, node: usize, query: usize, metric: usize) -> (r: &EntityDistribution)
        requires
            self.wf(),
            node < self.nodes,
            query < self.queries,
            metric < self.metrics,
        ensures
            *r == self@[tuple_index(
                node as int,
                query as int,
                metric as int,
                self.queries as int,
                self.metrics as int,
            )],
    {
        let total: usize = self.entries.len();
        proof {
            self.lemma_tuple_index_in_range(node as int, query as int, metric as int);
            let n = self.nodes as int;
            let q = self.queries as int;
            let m = self.metrics as int;
            assert(0 <= node * q && node * q <= node * q + query && node * q + query <= (node
                * q + query) * m && (node * q + query) * m + metric < n * q * m)
                by (nonlinear_arith)
                requires
                    0 <= node < n,
                    0 <= query < q,
                    0 <= metric < m,
            {
            }
            assert(n * q * m == total);
        }
        let idx: usize = (node * self.queries + query) * self.metrics + metric;
        &self.entries[idx]
    }
}

} // verus!
