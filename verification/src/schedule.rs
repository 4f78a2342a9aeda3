//! Disruption events and the schedule that keys them by start hour.
//!
//! The schedule is a dense map over the timeline: one slot per hour, at most
//! one event per start hour, and a second event drawn for an already occupied
//! hour silently replaces the first (last write wins).

use vstd::prelude::*;

verus! {

/// One anomalous period: which entities it affects.
/// A node disruption selects every tuple on one node; query and metric
/// disruptions select every tuple whose query or metric lies in the given set.
#[derive(Clone, Debug, PartialEq, Eq)]
pub enum Disruption {
    Node(usize),
    Query(Vec<usize>),
    Metric(Vec<usize>),
}

impl Disruption {
    /// The integer code this kind of event puts into a record's
    /// disruption tag: 1 node, 2 query, 3 metric (0 stands for no event).
    pub open spec fn kind_code(&self) -> usize {
        match self {
            Disruption::Node(_) => 1,
            Disruption::Query(_) => 2,
            Disruption::Metric(_) => 3,
        }
    }

    /// Whether the entity tuple `(node, query, metric)` is selected by this
    /// event.
    pub open spec fn selects(&self, node: usize, query: usize, metric: usize) -> bool {
        match self {
            Disruption::Node(id) => *id == node,
            Disruption::Query(v) => v@.contains(query),
            Disruption::Metric(v) => v@.contains(metric),
        }
    }
}

/// The tag code of a possibly active event paired with its remaining
/// duration: 0 when none is active, else the code of the event's kind.
pub fn disruption_to_usize(d: &Option<&(Disruption, usize)>) -> (r: usize)
    ensures
        r == match *d {
            None => 0usize,
            Some(p) => p.0.kind_code(),
        },
{
    match *d {
        None => 0,
        Some(p) => match &p.0 {
            Disruption::Node(_) => 1,
            Disruption::Query(_) => 2,
            Disruption::Metric(_) => 3,
        },
    }
}

/// Mapping from start hour to the event starting there and its duration in
/// hours. One slot per hour of the timeline, so at most one event can be
/// registered per start hour.
pub struct Schedule {
    slots: Vec<Option<(Disruption, usize)>>,
}

/// How many hours of a schedule hold an event.
pub open spec fn entry_count(s: Seq<Option<(Disruption, usize)>>) -> nat
    decreases s.len(),
{
    if s.len() == 0 {
        0
    } else {
        entry_count(s.drop_last()) + (if s.last() is Some { 1nat } else { 0nat })
    }
}

impl View for Schedule {
    type V = Seq<Option<(Disruption, usize)>>;

    closed spec fn view(&self) -> Self::V {
        self.slots@
    }
}

impl Schedule {
    /// An empty schedule over `hours` hours.
    pub fn new(hours: usize) -> (s: Schedule)
        ensures
            s@.len() == hours,
            forall|i: int| 0 <= i < hours ==> s@[i] is None,
    {
        let mut slots: Vec<Option<(Disruption, usize)>> = Vec::new();
        let mut i: usize = 0;
        while i < hours
            invariant
                i <= hours,
                slots@.len() == i,
                forall|j: int| 0 <= j < i ==> slots@[j] is None,
            decreases hours - i,
        {
            slots.push(None);
            i = i + 1;
        }
        Schedule { slots }
    }

    pub fn len(&self) -> (n: usize)
        ensures
            n == self@.len(),
    {
        self.slots.len()
    }

    /// Register an event at `start`, replacing whatever was there.
    pub fn insert(&mut self, start: usize, event: Disruption, duration: usize)
        requires
            start < old(self)@.len(),
        ensures
            final(self)@ == old(self)@.update(start as int, Some((event, duration))),
    {
        self.slots.set(start, Some((event, duration)));
    }

    /// The event starting at `hour`, if the hour lies on the timeline and one
    /// is registered there.
    pub fn get(&self, hour: usize) -> (r: Option<&(Disruption, usize)>)
        ensures
            match r {
                Some(p) => hour < self@.len() && self@[hour as int] == Some(*p),
                None => hour >= self@.len() || self@[hour as int] is None,
            },
    {
        if hour < self.slots.len() {
            self.slots[hour].as_ref()
        } else {
            None
        }
    }
}

/// Replacing one slot raises the entry count by one when the slot was free
/// and leaves it unchanged when the slot was occupied.
pub proof fn lemma_entry_count_update(
    s: Seq<Option<(Disruption, usize)>>,
    i: int,
    e: (Disruption, usize),
)
    requires
        0 <= i < s.len(),
    ensures
        entry_count(s.update(i, Some(e))) == entry_count(s) + (if s[i] is Some {
            0nat
        } else {
            1nat
        }),
    decreases s.len(),
{
    let s2 = s.update(i, Some(e));
    if i == s.len() - 1 {
        assert(s2.drop_last() =~= s.drop_last());
    } else {
        assert(s2.drop_last() =~= s.drop_last().update(i, Some(e)));
        lemma_entry_count_update(s.drop_last(), i, e);
    }
}

/// An occupied slot means at least one entry.
pub proof fn lemma_entry_count_pos(s: Seq<Option<(Disruption, usize)>>, i: int)
    requires
        0 <= i < s.len(),
        s[i] is Some,
    ensures
        entry_count(s) >= 1,
    decreases s.len(),
{
    if i < s.len() - 1 {
        lemma_entry_count_pos(s.drop_last(), i);
    }
}

/// A schedule with no occupied slot has entry count zero.
pub proof fn lemma_entry_count_empty(s: Seq<Option<(Disruption, usize)>>)
    requires
        forall|i: int| 0 <= i < s.len() ==> s[i] is None,
    ensures
        entry_count(s) == 0,
    decreases s.len(),
{
    if s.len() > 0 {
        lemma_entry_count_empty(s.drop_last());
    }
}

} // verus!
