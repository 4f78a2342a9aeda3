//! The two randomized generators that run once before simulation: the
//! disruption scheduler and the per-tuple distribution assigner. Both draw
//! through `rng::draw_in`, so every property below holds for every outcome
//! of the draws.

use vstd::prelude::*;
use crate::config::Config;
use crate::distributions::{DistributionTable, EntityDistribution, NormalParams, params_in};
use crate::rng::draw_in;
use crate::schedule::{entry_count, lemma_entry_count_empty, lemma_entry_count_pos,
    lemma_entry_count_update, Disruption, Schedule};

verus! {

/// No element occurs twice and the order is ascending.
pub open spec fn strictly_sorted(s: Seq<usize>) -> bool {
    forall|i: int, j: int| 0 <= i < j < s.len() ==> s[i] < s[j]
}

/// The nominal size bound of a query-disruption selector: one tenth of the
/// query space, but at least the singleton draw that a space of ten to
/// nineteen queries allows.
pub open spec fn query_set_cap(cfg: Config) -> usize {
    if cfg.queries / 10 < 2 {
        2
    } else {
        cfg.queries / 10
    }
}

/// What holds of every event the scheduler registers at hour `h`: the start
/// lies in `[48, hours - 25]`, the duration in `[2, 23]`, and the selector
/// names only ids of the configured entity space, as a deduplicated sorted
/// nonempty set below its nominal size cap (smaller when duplicate draws
/// collapsed).
pub open spec fn scheduled_event_ok(cfg: Config, h: int, e: (Disruption, usize)) -> bool {
    &&& 48 <= h
    &&& h + 25 <= cfg.hours
    &&& 2 <= e.1 <= 23
    &&& match e.0 {
        Disruption::Node(id) => id < cfg.nodes,
        Disruption::Query(v) => {
            &&& 1 <= v@.len()
            &&& v@.len() < query_set_cap(cfg)
            &&& strictly_sorted(v@)
            &&& forall|i: int| 0 <= i < v@.len() ==> v@[i] < cfg.queries
        },
        Disruption::Metric(v) => {
            &&& 1 <= v@.len()
            &&& v@.len() < cfg.metrics
            &&& strictly_sorted(v@)
            &&& forall|i: int| 0 <= i < v@.len() ==> v@[i] < cfg.metrics
        },
    }
}

/// Insert `x` into an ascending deduplicated vector, keeping it one.
fn insert_sorted(v: &mut Vec<usize>, x: usize)
    requires
        strictly_sorted(old(v)@),
    ensures
        strictly_sorted(final(v)@),
        forall|y: usize| final(v)@.contains(y) <==> (old(v)@.contains(y) || y == x),
        old(v)@.len() <= final(v)@.len() <= old(v)@.len() + 1,
{
    let mut i: usize = 0;
    while i < v.len() && v[i] < x
        invariant
            strictly_sorted(v@),
            v@ == old(v)@,
            i <= v@.len(),
            forall|j: int| 0 <= j < i ==> v@[j] < x,
        decreases v@.len() - i,
    {
        i = i + 1;
    }
    if i < v.len() && v[i] == x {
        proof {
            assert(v@.contains(x));
        }
        return ;
    }
    let ghost prev = v@;
    v.insert(i, x);
    proof {
        assert(v@ =~= prev.subrange(0, i as int).push(x) + prev.subrange(i as int, prev.len() as int));
        assert forall|j: int, k: int| 0 <= j < k < v@.len() implies v@[j] < v@[k] by {
            if k < i {
                assert(v@[j] == prev[j] && v@[k] == prev[k]);
            } else if j > i {
                assert(v@[j] == prev[j - 1] && v@[k] == prev[k - 1]);
            } else if j < i && k == i {
                assert(v@[j] == prev[j] && v@[k] == x);
            } else if j == i {
                assert(v@[j] == x && v@[k] == prev[k - 1]);
                assert(prev[i as int] > x || i == prev.len());
                assert(prev[k - 1] >= prev[i as int] || k - 1 == i);
            } else {
                assert(v@[j] == prev[j] && v@[k] == prev[k - 1]);
                assert(prev[k - 1] > x || k - 1 == i);
            }
        }
        assert forall|y: usize| v@.contains(y) <==> (prev.contains(y) || y == x) by {
            if v@.contains(y) {
                let idx = choose|idx: int| 0 <= idx < v@.len() && v@[idx] == y;
                if idx < i {
                    assert(prev[idx] == y);
                } else if idx == i {
                } else {
                    assert(prev[idx - 1] == y);
                }
            }
            if prev.contains(y) {
                let idx = choose|idx: int| 0 <= idx < prev.len() && prev[idx] == y;
                if idx < i {
                    assert(v@[idx] == y);
                } else {
                    assert(v@[idx + 1] == y);
                }
            }
            if y == x {
                assert(v@[i as int] == y);
            }
        }
    }
}

/// A deduplicated sorted set of up to `num` ids drawn uniformly below
/// `limit`; duplicate draws collapse, so the result may be smaller than
/// `num`, but never empty.
fn draw_id_set(rng: &mut rand::rngs::StdRng, num: usize, limit: usize) -> (v: Vec<usize>)
    requires
        num >= 1,
        limit >= 1,
    ensures
        strictly_sorted(v@),
        1 <= v@.len() <= num,
        forall|i: int| 0 <= i < v@.len() ==> v@[i] < limit,
{
    let mut v: Vec<usize> = Vec::new();
    let mut k: usize = 0;
    while k < num
        invariant
            k <= num,
            limit >= 1,
            strictly_sorted(v@),
            v@.len() <= k,
            k >= 1 ==> v@.len() >= 1,
            forall|i: int| 0 <= i < v@.len() ==> v@[i] < limit,
        decreases num - k,
    {
        let id = draw_in(rng, 0, limit);
        let ghost prev = v@;
        insert_sorted(&mut v, id);
        proof {
            assert forall|i: int| 0 <= i < v@.len() implies v@[i] < limit by {
                assert(v@.contains(v@[i]));
                if prev.contains(v@[i]) {
                    let idx = choose|idx: int| 0 <= idx < prev.len() && prev[idx] == v@[i];
                }
            }
            assert(v@.contains(id));
        }
        k = k + 1;
    }
    v
}

/// Disruption Scheduler: `cfg.disruptions` draws of a start hour, a duration
/// and a randomized event, registered by start hour with last write winning.
/// Every registered event satisfies `scheduled_event_ok`; the number of
/// occupied hours never exceeds the number of draws, and with at least one
/// draw at least one hour is occupied (a tighter lower bound does not exist:
/// all draws may land on one start hour).
pub fn generate_disruptions(config: &Config, rng: &mut rand::rngs::StdRng) -> (s: Schedule)
    requires
        config.entity_ok(),
    ensures
        s@.len() == config.hours,
        forall|h: int|
            0 <= h < s@.len() ==> ((#[trigger] s@[h]) matches Some(e) ==> scheduled_event_ok(*config, h, e)),
        entry_count(s@) <= config.disruptions,
        config.disruptions >= 1 ==> entry_count(s@) >= 1,
{
    let mut s = Schedule::new(config.hours);
    proof {
        lemma_entry_count_empty(s@);
    }
    let mut d: usize = 0;
    while d < config.disruptions
        invariant
            config.entity_ok(),
            s@.len() == config.hours,
            forall|h: int|
                0 <= h < s@.len() ==> ((#[trigger] s@[h]) matches Some(e) ==> scheduled_event_ok(
                    *config,
                    h,
                    e,
                )),
            entry_count(s@) <= d,
            d >= 1 ==> entry_count(s@) >= 1,
            d <= config.disruptions,
        decreases config.disruptions - d,
    {
        // The timeline is longer than 72 hours, so the start range is nonempty.
        let start = draw_in(rng, 48, config.hours - 24);
        let length = draw_in(rng, 2, 24);
        let kind = draw_in(rng, 1, 4);
        let disruption = if kind == 1 {
            Disruption::Node(draw_in(rng, 0, config.nodes))
        } else if kind == 2 {
            // Nominal subset size is one tenth of the query space; below
            // twenty queries that range would be empty, so one query is taken.
            let tenth = config.queries / 10;
            let top = if tenth < 2 {
                2
            } else {
                tenth
            };
            let num = draw_in(rng, 1, top);
            Disruption::Query(draw_id_set(rng, num, config.queries))
        } else {
            let num = draw_in(rng, 1, config.metrics);
            Disruption::Metric(draw_id_set(rng, num, config.metrics))
        };
        let ghost ev = disruption;
        let ghost prev = s@;
        s.insert(start, disruption, length);
        proof {
            lemma_entry_count_update(prev, start as int, (ev, length));
            lemma_entry_count_pos(s@, start as int);
        }
        d = d + 1;
    }
    s
}

/// Distribution Assigner: for every tuple of the cross product
/// `nodes x queries x metrics`, draw a regular and a disrupted parameter
/// pair from the configured bounds, filling the dense table in tuple order.
pub fn generate_distributions(config: &Config, rng: &mut rand::rngs::StdRng) -> (t:
    DistributionTable)
    requires
        config.regular_distribution.wf(),
        config.disrupted_distribution.wf(),
    ensures
        t.wf(),
        t.nodes == config.nodes,
        t.queries == config.queries,
        t.metrics == config.metrics,
        forall|i: int|
            0 <= i < t@.len() ==> params_in(t@[i].regular, config.regular_distribution)
                && params_in(t@[i].disrupted, config.disrupted_distribution),
{
    let n_count = config.nodes;
    let q_count = config.queries;
    let m_count = config.metrics;
    let mut entries: Vec<EntityDistribution> = Vec::new();
    proof {
        assert((0 * q_count) * m_count == 0) by (nonlinear_arith);
    }
    let mut node: usize = 0;
    while node < n_count
        invariant
            config.regular_distribution.wf(),
            config.disrupted_distribution.wf(),
            n_count == config.nodes,
            q_count == config.queries,
            m_count == config.metrics,
            node <= n_count,
            entries@.len() == (node * q_count) * m_count,
            forall|i: int|
                0 <= i < entries@.len() ==> params_in(entries@[i].regular,
                    config.regular_distribution) && params_in(entries@[i].disrupted,
                    config.disrupted_distribution),
        decreases n_count - node,
    {
        let mut query: usize = 0;
        while query < q_count
            invariant
                config.regular_distribution.wf(),
                config.disrupted_distribution.wf(),
                n_count == config.nodes,
                q_count == config.queries,
                m_count == config.metrics,
                node < n_count,
                query <= q_count,
                entries@.len() == (node * q_count + query) * m_count,
                forall|i: int|
                    0 <= i < entries@.len() ==> params_in(entries@[i].regular,
                        config.regular_distribution) && params_in(entries@[i].disrupted,
                        config.disrupted_distribution),
            decreases q_count - query,
        {
            let mut metric: usize = 0;
            while metric < m_count
                invariant
                    config.regular_distribution.wf(),
                    config.disrupted_distribution.wf(),
                    n_count == config.nodes,
                    q_count == config.queries,
                    m_count == config.metrics,
                    node < n_count,
                    query < q_count,
                    metric <= m_count,
                    entries@.len() == (node * q_count + query) * m_count + metric,
                    forall|i: int|
                        0 <= i < entries@.len() ==> params_in(entries@[i].regular,
                            config.regular_distribution) && params_in(entries@[i].disrupted,
                            config.disrupted_distribution),
                decreases m_count - metric,
            {
                let regular = NormalParams {
                    mean: draw_in(
                        rng,
                        config.regular_distribution.min_mean,
                        config.regular_distribution.max_mean,
                    ),
                    std: draw_in(
                        rng,
                        config.regular_distribution.min_std,
                        config.regular_distribution.max_std,
                    ),
                };
                let disrupted = NormalParams {
                    mean: draw_in(
                        rng,
                        config.disrupted_distribution.min_mean,
                        config.disrupted_distribution.max_mean,
                    ),
                    std: draw_in(
                        rng,
                        config.disrupted_distribution.min_std,
                        config.disrupted_distribution.max_std,
                    ),
                };
                entries.push(EntityDistribution { regular, disrupted });
                metric = metric + 1;
            }
            proof {
                assert((node * q_count + query) * m_count + m_count == (node * q_count + query
                    + 1) * m_count) by (nonlinear_arith);
            }
            query = query + 1;
        }
        proof {
            assert((node * q_count + q_count) * m_count == ((node + 1) * q_count) * m_count)
                by (nonlinear_arith);
        }
        node = node + 1;
    }
    DistributionTable { nodes: n_count, queries: q_count, metrics: m_count, entries }
}

/// Sample Producer control: the background task pushes one standard-normal
/// sample per iteration, napping briefly when the buffer is full, and polls
/// the shared stop flag once the iteration counter passes 1024. Given the
/// counter of the current iteration, this step says whether to poll the flag
/// now and what the next counter is (the counter restarts after a poll).
pub fn producer_step(counter: u64) -> (r: (u64, bool))
    requires
        counter <= 1025,
    ensures
        r.1 == (counter > 1024),
        r.0 == if counter > 1024 {
            1u64
        } else {
            (counter + 1) as u64
        },
        r.0 <= 1025,
{
    if counter > 1024 {
        (1, true)
    } else {
        (counter + 1, false)
    }
}

} // verus!
