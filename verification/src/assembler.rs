//! Timeline Assembler: the hour-by-hour simulation state machine.
//!
//! Each hour either continues a running disruption (a countdown), or, when
//! none is running, looks the hour up in the schedule. An event whose start
//! falls inside a still-running event's window is never activated, because
//! the lookup only happens when the countdown has reached zero. For every
//! entity tuple of the hour one assignment is emitted: the hour-wide
//! disruption tag, and the parameter pair selected by whether the active
//! event's selector matches the tuple. The caller turns each assignment into
//! a record by scaling one standard-normal sample with the selected pair.

use vstd::prelude::*;
use vstd::arithmetic::div_mod::lemma_fundamental_div_mod_converse;
use crate::config::Config;
use crate::distributions::{tuple_index, DistributionTable, EntityDistribution};
use crate::schedule::{Disruption, Schedule};

verus! {

/// The disruption state while hour `h` is being assembled: the start slot of
/// the active event (if any) and the remaining duration including this hour.
pub open spec fn during(sch: Seq<Option<(Disruption, usize)>>, h: nat) -> (Option<usize>, usize)
    decreases h,
{
    let inc: (Option<usize>, usize) = if h == 0 {
        (None, 0)
    } else {
        let p = during(sch, (h - 1) as nat);
        (p.0, if p.1 > 0 {
            (p.1 - 1) as usize
        } else {
            0
        })
    };
    if inc.1 == 0 {
        if h < sch.len() && sch[h as int] is Some {
            (Some(h as usize), (sch[h as int]->0).1)
        } else {
            (None, 0)
        }
    } else {
        inc
    }
}

/// The state carried into hour `h`, before the schedule lookup of that hour.
pub open spec fn incoming(sch: Seq<Option<(Disruption, usize)>>, h: nat) -> (Option<usize>, usize) {
    if h == 0 {
        (None, 0)
    } else {
        let p = during(sch, (h - 1) as nat);
        (p.0, if p.1 > 0 {
            (p.1 - 1) as usize
        } else {
            0
        })
    }
}

/// An active event always lies on the timeline, at or before the current
/// hour, in an occupied slot.
pub proof fn lemma_during_valid(sch: Seq<Option<(Disruption, usize)>>, h: nat)
    requires
        h <= usize::MAX,
    ensures
        during(sch, h).0 matches Some(hs) ==> hs <= h && hs < sch.len() && sch[hs as int] is Some,
    decreases h,
{
    if h > 0 {
        lemma_during_valid(sch, (h - 1) as nat);
    }
}

/// The tag every record of hour `h` carries: 0 with no active event, else
/// the code of the active event's kind, whether or not a given tuple matches.
pub open spec fn hour_tag(sch: Seq<Option<(Disruption, usize)>>, h: nat) -> usize {
    match during(sch, h).0 {
        None => 0usize,
        Some(hs) => if sch[hs as int] is Some {
            (sch[hs as int]->0).0.kind_code()
        } else {
            0usize
        },
    }
}

/// Whether the tuple draws from its disrupted regime in hour `h`: an event
/// must be active with time remaining and its selector must match the tuple.
pub open spec fn tuple_disrupted(
    sch: Seq<Option<(Disruption, usize)>>,
    h: nat,
    node: usize,
    query: usize,
    metric: usize,
) -> bool {
    let st = during(sch, h);
    st.1 > 0 && (st.0 matches Some(hs) && (sch[hs as int] matches Some(e) && e.0.selects(
        node,
        query,
        metric,
    )))
}

/// One emitted unit of work: the tuple, its hour, the hour-wide tag, whether
/// this tuple is disrupted, and the parameter pair selected accordingly. The
/// record's value is `sample * std + mean` for one standard-normal sample.
#[derive(Clone, Copy, PartialEq, Eq, Structural, Debug)]
pub struct Assignment {
    pub node: usize,
    pub query: usize,
    pub metric: usize,
    pub hour: usize,
    pub disruption_tag: usize,
    pub disrupted: bool,
    pub mean: usize,
    pub std: usize,
}

/// What the assignment at flat position `i` of hour `h` must hold: position
/// `i` is the tuple `(i / metrics / queries, (i / metrics) % queries,
/// i % metrics)`, the tag is the hour's tag, the disrupted flag follows the
/// active event's selector, and the parameters are the tuple's pair for the
/// selected regime.
pub open spec fn assignment_ok(
    sch: Seq<Option<(Disruption, usize)>>,
    table: Seq<EntityDistribution>,
    queries: usize,
    metrics: usize,
    h: usize,
    i: int,
    a: Assignment,
) -> bool {
    &&& a.node == (i / (metrics as int)) / (queries as int)
    &&& a.query == (i / (metrics as int)) % (queries as int)
    &&& a.metric == i % (metrics as int)
    &&& a.hour == h
    &&& a.disruption_tag == hour_tag(sch, h as nat)
    &&& a.disrupted == tuple_disrupted(sch, h as nat, a.node, a.query, a.metric)
    &&& a.mean == if a.disrupted {
        table[i].disrupted.mean
    } else {
        table[i].regular.mean
    }
    &&& a.std == if a.disrupted {
        table[i].disrupted.std
    } else {
        table[i].regular.std
    }
}

/// The flat position of a tuple decomposes back into the tuple.
pub proof fn lemma_tuple_index_decompose(n: int, q: int, m: int, queries: int, metrics: int)
    requires
        0 <= n,
        0 <= q < queries,
        0 <= m < metrics,
    ensures
        tuple_index(n, q, m, queries, metrics) % metrics == m,
        (tuple_index(n, q, m, queries, metrics) / metrics) % queries == q,
        (tuple_index(n, q, m, queries, metrics) / metrics) / queries == n,
{
    let i = tuple_index(n, q, m, queries, metrics);
    assert(i == (n * queries + q) * metrics + m);
    assert(0 <= n * queries + q) by (nonlinear_arith)
        requires
            0 <= n,
            0 <= q,
            0 < queries,
    {
    }
    lemma_fundamental_div_mod_converse(i, metrics, n * queries + q, m);
    lemma_fundamental_div_mod_converse(n * queries + q, queries, n, q);
}

/// `v@.contains` as an executable scan.
fn vec_contains(v: &Vec<usize>, x: usize) -> (b: bool)
    ensures
        b == v@.contains(x),
{
    let mut i: usize = 0;
    while i < v.len()
        invariant
            i <= v@.len(),
            forall|j: int| 0 <= j < i ==> v@[j] != x,
        decreases v@.len() - i,
    {
        if v[i] == x {
            return true;
        }
        i = i + 1;
    }
    false
}

/// The simulation loop's owner: the immutable lookup tables plus the mutable
/// per-hour disruption state.
pub struct TimelineAssembler {
    pub nodes: usize,
    pub queries: usize,
    pub metrics: usize,
    pub hours: usize,
    pub schedule: Schedule,
    pub table: DistributionTable,
    pub hour: usize,
    pub counter: usize,
    pub active: Option<usize>,
}

impl TimelineAssembler {
    /// The tables cover the configured entity space and the stored state is
    /// exactly the state machine's state for the current hour.
    pub open spec fn wf(&self) -> bool {
        &&& self.table.wf()
        &&& self.table.nodes == self.nodes
        &&& self.table.queries == self.queries
        &&& self.table.metrics == self.metrics
        &&& self.schedule@.len() == self.hours
        &&& self.nodes >= 1
        &&& self.queries >= 1
        &&& self.metrics >= 1
        &&& self.hour <= self.hours
        &&& (self.active, self.counter) == incoming(self.schedule@, self.hour as nat)
    }

    /// An assembler at hour zero over the given tables.
    pub fn new(config: &Config, schedule: Schedule, table: DistributionTable) -> (a:
        TimelineAssembler)
        requires
            table.wf(),
            table.nodes == config.nodes,
            table.queries == config.queries,
            table.metrics == config.metrics,
            schedule@.len() == config.hours,
            config.nodes >= 1,
            config.queries >= 1,
            config.metrics >= 1,
        ensures
            a.wf(),
            a.hour == 0,
            a.nodes == config.nodes,
            a.queries == config.queries,
            a.metrics == config.metrics,
            a.hours == config.hours,
            a.schedule@ == schedule@,
            a.table@ == table@,
    {
        TimelineAssembler {
            nodes: config.nodes,
            queries: config.queries,
            metrics: config.metrics,
            hours: config.hours,
            schedule,
            table,
            hour: 0,
            counter: 0,
            active: None,
        }
    }

    /// Assemble one hour: update the disruption state, then emit one
    /// assignment per entity tuple, in tuple order. Returns `None` exactly
    /// when the timeline is exhausted.
    pub fn next_hour(&mut self) -> (r: Option<Vec<Assignment>>)
        requires
            old(self).wf(),
        ensures
            final(self).wf(),
            final(self).schedule@ == old(self).schedule@,
            final(self).table@ == old(self).table@,
            final(self).nodes == old(self).nodes,
            final(self).queries == old(self).queries,
            final(self).metrics == old(self).metrics,
            final(self).hours == old(self).hours,
            old(self).hour >= old(self).hours ==> r is None && final(self).hour == old(self).hour
                && final(self).counter == old(self).counter && final(self).active == old(
                self,
            ).active,
            old(self).hour < old(self).hours ==> {
                &&& final(self).hour == old(self).hour + 1
                &&& r matches Some(v) && v@.len() == (old(self).nodes * old(self).queries) * old(
                    self,
                ).metrics && forall|i: int|
                    0 <= i < v@.len() ==> assignment_ok(
                        old(self).schedule@,
                        old(self).table@,
                        old(self).queries,
                        old(self).metrics,
                        old(self).hour,
                        i,
                        #[trigger] v@[i],
                    )
            },
    {
        if self.hour >= self.hours {
            return None;
        }
        let h = self.hour;
        let ghost sch = self.schedule@;
        // Lookup step: only when no countdown is running.
        if self.counter == 0 {
            match self.schedule.get(h) {
                Some(p) => {
                    self.active = Some(h);
                    self.counter = p.1;
                },
                None => {
                    self.active = None;
                    self.counter = 0;
                },
            }
        }
        proof {
            assert((self.active, self.counter) == during(sch, h as nat));
            lemma_during_valid(sch, h as nat);
        }
        // The hour-wide tag reflects the kind of the active event.
        let tag: usize = match self.active {
            None => 0,
            Some(hs) => match self.schedule.get(hs) {
                Some(p) => match &p.0 {
                    Disruption::Node(_) => 1,
                    Disruption::Query(_) => 2,
                    Disruption::Metric(_) => 3,
                },
                None => {
                    proof {
                        assert(false);
                    }
                    0
                },
            },
        };
        proof {
            assert(tag == hour_tag(sch, h as nat));
        }
        let n_count = self.nodes;
        let q_count = self.queries;
        let m_count = self.metrics;
        let mut out: Vec<Assignment> = Vec::new();
        proof {
            assert((0 * q_count) * m_count == 0) by (nonlinear_arith);
        }
        let mut node: usize = 0;
        while node < n_count
            invariant
                self.table.wf(),
                self.table.nodes == n_count,
                self.table.queries == q_count,
                self.table.metrics == m_count,
                self.table@ == old(self).table@,
                self.hours == old(self).hours,
                self.schedule@ == sch,
                self.hour == h,
                h < self.hours,
                n_count == self.nodes,
                q_count == self.queries,
                m_count == self.metrics,
                (self.active, self.counter) == during(sch, h as nat),
                tag == hour_tag(sch, h as nat),
                node <= n_count,
                out@.len() == (node * q_count) * m_count,
                forall|i: int|
                    0 <= i < out@.len() ==> assignment_ok(
                        sch,
                        self.table@,
                        q_count,
                        m_count,
                        h,
                        i,
                        #[trigger] out@[i],
                    ),
            decreases n_count - node,
        {
            let mut query: usize = 0;
            while query < q_count
                invariant
                    self.table.wf(),
                    self.table.nodes == n_count,
                    self.table.queries == q_count,
                    self.table.metrics == m_count,
                    self.table@ == old(self).table@,
                    self.hours == old(self).hours,
                    self.schedule@ == sch,
                    self.hour == h,
                    h < self.hours,
                    n_count == self.nodes,
                    q_count == self.queries,
                    m_count == self.metrics,
                    (self.active, self.counter) == during(sch, h as nat),
                    tag == hour_tag(sch, h as nat),
                    node < n_count,
                    query <= q_count,
                    out@.len() == (node * q_count + query) * m_count,
                    forall|i: int|
                        0 <= i < out@.len() ==> assignment_ok(
                            sch,
                            self.table@,
                            q_count,
                            m_count,
                            h,
                            i,
                            #[trigger] out@[i],
                        ),
                decreases q_count - query,
            {
                let mut metric: usize = 0;
                while metric < m_count
                    invariant
                        self.table.wf(),
                        self.table.nodes == n_count,
                        self.table.queries == q_count,
                        self.table.metrics == m_count,
                        self.table@ == old(self).table@,
                        self.hours == old(self).hours,
                        self.schedule@ == sch,
                        self.hour == h,
                        h < self.hours,
                        n_count == self.nodes,
                        q_count == self.queries,
                        m_count == self.metrics,
                        (self.active, self.counter) == during(sch, h as nat),
                        tag == hour_tag(sch, h as nat),
                        node < n_count,
                        query < q_count,
                        metric <= m_count,
                        out@.len() == (node * q_count + query) * m_count + metric,
                        forall|i: int|
                            0 <= i < out@.len() ==> assignment_ok(
                                sch,
                                self.table@,
                                q_count,
                                m_count,
                                h,
                                i,
                                #[trigger] out@[i],
                            ),
                    decreases m_count - metric,
                {
                    proof {
                        lemma_during_valid(sch, h as nat);
                    }
                    // Tag and regime selection are driven by the same state.
                    let is_disrupted: bool = if self.counter > 0 {
                        match self.active {
                            None => false,
                            Some(hs) => match self.schedule.get(hs) {
                                Some(p) => match &p.0 {
                                    Disruption::Node(id) => *id == node,
                                    Disruption::Query(v) => vec_contains(v, query),
                                    Disruption::Metric(v) => vec_contains(v, metric),
                                },
                                None => {
                                    proof {
                                        assert(false);
                                    }
                                    false
                                },
                            },
                        }
                    } else {
                        false
                    };
                    proof {
                        assert(is_disrupted == tuple_disrupted(sch, h as nat, node, query, metric));
                    }
                    let d = self.table.get(node, query, metric);
                    let a = Assignment {
                        node,
                        query,
                        metric,
                        hour: h,
                        disruption_tag: tag,
                        disrupted: is_disrupted,
                        mean: if is_disrupted {
                            d.disrupted.mean
                        } else {
                            d.regular.mean
                        },
                        std: if is_disrupted {
                            d.disrupted.std
                        } else {
                            d.regular.std
                        },
                    };
                    out.push(a);
                    proof {
                        lemma_tuple_index_decompose(
                            node as int,
                            query as int,
                            metric as int,
                            q_count as int,
                            m_count as int,
                        );
                    }
                    metric = metric + 1;
                }
                proof {
                    assert((node * q_count + query) * m_count + m_count == (node * q_count + query
                        + 1) * m_count) by (nonlinear_arith);
                }
                query = query + 1;
            }
            proof {
                assert((node * q_count + q_count) * m_count == ((node + 1) * q_count) * m_count)
                    by (nonlinear_arith);
            }
            node = node + 1;
        }
        // Countdown step: the disruption runs out at zero and the next hour
        // re-evaluates the schedule.
        if self.counter > 0 {
            self.counter = self.counter - 1;
        }
        self.hour = h + 1;
        Some(out)
    }
}

/// Timeline Assembler, driven to the end: exactly
/// `hours * nodes * queries * metrics` assignments, hour by hour in tuple
/// order.
pub fn assemble_all(tl: &mut TimelineAssembler) -> (out: Vec<Assignment>)
    requires
        old(tl).wf(),
        old(tl).hour == 0,
    ensures
        final(tl).wf(),
        out@.len() == old(tl).hours * ((old(tl).nodes * old(tl).queries) * old(tl).metrics),
        forall|j: int|
            0 <= j < out@.len() ==> {
                let t = ((old(tl).nodes * old(tl).queries) * old(tl).metrics) as int;
                assignment_ok(
                    old(tl).schedule@,
                    old(tl).table@,
                    old(tl).queries,
                    old(tl).metrics,
                    (j / t) as usize,
                    j % t,
                    #[trigger] out@[j],
                )
            },
{
    let ghost sch = old(tl).schedule@;
    let ghost table = old(tl).table@;
    let ghost qc = old(tl).queries;
    let ghost mc = old(tl).metrics;
    // the table covers the entity space, so its length is the per-hour count
    let t_hour: usize = tl.table.entries.len();
    proof {
        assert(t_hour == (tl.nodes * tl.queries) * tl.metrics);
        assert(t_hour >= 1) by (nonlinear_arith)
            requires
                tl.nodes >= 1 && tl.queries >= 1 && tl.metrics >= 1,
                t_hour == (tl.nodes * tl.queries) * tl.metrics,
        {
        }
        assert(0 * (t_hour as int) == 0) by (nonlinear_arith);
    }
    let mut out: Vec<Assignment> = Vec::new();
    while tl.hour < tl.hours
        invariant
            tl.wf(),
            tl.schedule@ == sch,
            tl.table@ == table,
            tl.queries == qc,
            tl.metrics == mc,
            tl.hours == old(tl).hours,
            t_hour == (tl.nodes * tl.queries) * tl.metrics,
            t_hour >= 1,
            out@.len() == tl.hour * (t_hour as int),
            forall|j: int|
                0 <= j < out@.len() ==> assignment_ok(
                    sch,
                    table,
                    qc,
                    mc,
                    (j / (t_hour as int)) as usize,
                    j % (t_hour as int),
                    #[trigger] out@[j],
                ),
        decreases tl.hours - tl.hour,
    {
        let ghost h0 = tl.hour;
        let ghost prev = out@;
        let r = tl.next_hour();
        match r {
            Some(mut v) => {
                let ghost hv = v@;
                out.append(&mut v);
                proof {
                    assert(h0 * (t_hour as int) + t_hour == (h0 + 1) * (t_hour as int))
                        by (nonlinear_arith);
                    assert forall|j: int|
                        0 <= j < out@.len() implies assignment_ok(
                        sch,
                        table,
                        qc,
                        mc,
                        (j / (t_hour as int)) as usize,
                        j % (t_hour as int),
                        #[trigger] out@[j],
                    ) by {
                        if j < prev.len() {
                            assert(out@[j] == prev[j]);
                        } else {
                            assert(out@[j] == hv[j - prev.len()]);
                            lemma_fundamental_div_mod_converse(
                                j,
                                t_hour as int,
                                h0 as int,
                                j - prev.len(),
                            );
                        }
                    }
                }
            },
            None => {
                proof {
                    assert(false);
                }
            },
        }
    }
    out
}

/// Tag and regime selection never disagree: a tuple that the active event's
/// selector does not match keeps its regular parameters, while its tag still
/// reflects the kind of the hour's active event.
pub proof fn lemma_unmatched_tuple_stays_regular(
    sch: Seq<Option<(Disruption, usize)>>,
    table: Seq<EntityDistribution>,
    queries: usize,
    metrics: usize,
    h: usize,
    i: int,
    a: Assignment,
)
    requires
        assignment_ok(sch, table, queries, metrics, h, i, a),
        !tuple_disrupted(sch, h as nat, a.node, a.query, a.metric),
    ensures
        a.mean == table[i].regular.mean,
        a.std == table[i].regular.std,
        a.disruption_tag == hour_tag(sch, h as nat),
{
}

/// The matching side of the same predicate: a tuple the active event selects
/// while its countdown runs takes its disrupted parameters.
pub proof fn lemma_matched_tuple_disrupted(
    sch: Seq<Option<(Disruption, usize)>>,
    table: Seq<EntityDistribution>,
    queries: usize,
    metrics: usize,
    h: usize,
    i: int,
    a: Assignment,
)
    requires
        assignment_ok(sch, table, queries, metrics, h, i, a),
        tuple_disrupted(sch, h as nat, a.node, a.query, a.metric),
    ensures
        a.mean == table[i].disrupted.mean,
        a.std == table[i].disrupted.std,
        a.disruption_tag == hour_tag(sch, h as nat),
{
}

} // verus!
