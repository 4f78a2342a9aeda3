use hotcloud::assembler::{assemble_all, TimelineAssembler};
use hotcloud::config::{Config, Distribution, DistributionType, ES};
use hotcloud::distributions::{DistributionTable, EntityDistribution, NormalParams};
use hotcloud::generator::{generate_disruptions, generate_distributions, producer_step};
use hotcloud::schedule::{disruption_to_usize, Disruption, Schedule};
use rand::SeedableRng;

fn seeded(seed: u64) -> rand::rngs::StdRng {
    rand::rngs::StdRng::seed_from_u64(seed)
}

#[test]
fn config_defaults() {
    let c = Config::new();
    assert_eq!(c.nodes, 10);
    assert_eq!(c.queries, 10);
    assert_eq!(c.metrics, 10);
    assert_eq!(c.hours, 3000);
    assert_eq!(c.disruptions, 50);
    assert_eq!(c.threads, 2);
    assert_eq!(c.es.bulk_size, 10000);
    assert_eq!(c.es.mapping, "");
}

#[test]
fn distribution_defaults() {
    let r = Distribution::new(DistributionType::Regular);
    assert_eq!((r.min_mean, r.max_mean, r.min_std, r.max_std), (20, 40, 1, 10));
    let d = Distribution::new(DistributionType::Disrupted);
    assert_eq!((d.min_mean, d.max_mean, d.min_std, d.max_std), (60, 200, 20, 100));
}

#[test]
fn es_defaults() {
    let es = ES::new();
    assert_eq!(es.bulk_size, 10000);
    assert_eq!(es.mapping, "");
    assert_eq!(es.hotcloudmapping, "");
    assert_eq!(es.query, "");
}

#[test]
fn disruption_codes() {
    let none: Option<&(Disruption, usize)> = None;
    assert_eq!(disruption_to_usize(&none), 0);
    let n = (Disruption::Node(3), 5usize);
    assert_eq!(disruption_to_usize(&Some(&n)), 1);
    let q = (Disruption::Query(vec![1, 2]), 5usize);
    assert_eq!(disruption_to_usize(&Some(&q)), 2);
    let m = (Disruption::Metric(vec![0]), 5usize);
    assert_eq!(disruption_to_usize(&Some(&m)), 3);
}

#[test]
fn scheduler_bounds() {
    let c = Config::new();
    let mut rng = seeded(11);
    let s = generate_disruptions(&c, &mut rng);
    assert_eq!(s.len(), c.hours);
    let mut occupied = 0;
    for h in 0..s.len() {
        if let Some((ev, dur)) = s.get(h) {
            occupied += 1;
            assert!(h >= 48 && h <= c.hours - 25, "start {} out of range", h);
            assert!(*dur >= 2 && *dur <= 23, "duration {} out of range", dur);
            match ev {
                Disruption::Node(id) => assert!(*id < c.nodes),
                Disruption::Query(v) => {
                    assert!(!v.is_empty());
                    for w in v.windows(2) {
                        assert!(w[0] < w[1]);
                    }
                    for id in v {
                        assert!(*id < c.queries);
                    }
                }
                Disruption::Metric(v) => {
                    assert!(!v.is_empty());
                    for w in v.windows(2) {
                        assert!(w[0] < w[1]);
                    }
                    for id in v {
                        assert!(*id < c.metrics);
                    }
                }
            }
        }
    }
    assert!(occupied <= c.disruptions);
    assert!(occupied >= 1);
}

#[test]
fn assigner_bounds() {
    let c = Config::new();
    let mut rng = seeded(12);
    let t = generate_distributions(&c, &mut rng);
    assert_eq!(t.entries.len(), c.nodes * c.queries * c.metrics);
    for n in 0..c.nodes {
        for q in 0..c.queries {
            for m in 0..c.metrics {
                let e = t.get(n, q, m);
                assert!(e.regular.mean >= 20 && e.regular.mean < 40);
                assert!(e.regular.std >= 1 && e.regular.std < 10);
                assert!(e.disrupted.mean >= 60 && e.disrupted.mean < 200);
                assert!(e.disrupted.std >= 20 && e.disrupted.std < 100);
            }
        }
    }
}

#[test]
fn seeded_runs_are_identical() {
    let c = Config::new();
    let mut rng1 = seeded(42);
    let s1 = generate_disruptions(&c, &mut rng1);
    let t1 = generate_distributions(&c, &mut rng1);
    let mut rng2 = seeded(42);
    let s2 = generate_disruptions(&c, &mut rng2);
    let t2 = generate_distributions(&c, &mut rng2);
    assert_eq!(s1.len(), s2.len());
    for h in 0..s1.len() {
        assert_eq!(s1.get(h), s2.get(h));
    }
    assert_eq!(t1.entries, t2.entries);
    let mut rng3 = seeded(43);
    let t3 = generate_distributions(&c, &mut rng3);
    assert_ne!(t1.entries, t3.entries);
}

fn small_config() -> Config {
    Config {
        nodes: 2,
        queries: 2,
        metrics: 2,
        hours: 100,
        disruptions: 1,
        threads: 1,
        regular_distribution: Distribution::new(DistributionType::Regular),
        disrupted_distribution: Distribution::new(DistributionType::Disrupted),
        es: ES::new(),
    }
}

fn small_table() -> DistributionTable {
    let mut entries = Vec::new();
    for i in 0..8usize {
        entries.push(EntityDistribution {
            regular: NormalParams { mean: 10 + i, std: 1 },
            disrupted: NormalParams { mean: 100 + i, std: 50 },
        });
    }
    DistributionTable { nodes: 2, queries: 2, metrics: 2, entries }
}

#[test]
fn forced_node_disruption_scenario() {
    let c = small_config();
    let mut schedule = Schedule::new(c.hours);
    schedule.insert(50, Disruption::Node(1), 5);
    let table = small_table();
    let mut tl = TimelineAssembler::new(&c, schedule, table);
    let out = assemble_all(&mut tl);
    assert_eq!(out.len(), 100 * 2 * 2 * 2);
    for (idx, a) in out.iter().enumerate() {
        let hour = idx / 8;
        assert_eq!(a.hour, hour);
        let i = (a.node * 2 + a.query) * 2 + a.metric;
        assert_eq!(idx % 8, i);
        let in_window = hour >= 50 && hour <= 54;
        let expected_tag = if in_window { 1 } else { 0 };
        assert_eq!(a.disruption_tag, expected_tag, "hour {}", hour);
        let expect_disrupted = in_window && a.node == 1;
        assert_eq!(a.disrupted, expect_disrupted);
        if expect_disrupted {
            assert_eq!(a.mean, 100 + i);
            assert_eq!(a.std, 50);
        } else {
            assert_eq!(a.mean, 10 + i);
            assert_eq!(a.std, 1);
        }
    }
}

#[test]
fn overlapping_event_is_skipped() {
    let c = small_config();
    let mut schedule = Schedule::new(c.hours);
    schedule.insert(50, Disruption::Node(0), 3);
    schedule.insert(52, Disruption::Query(vec![0]), 5);
    let table = small_table();
    let mut tl = TimelineAssembler::new(&c, schedule, table);
    let out = assemble_all(&mut tl);
    for (idx, a) in out.iter().enumerate() {
        let hour = idx / 8;
        let expected_tag = if hour >= 50 && hour <= 52 { 1 } else { 0 };
        assert_eq!(a.disruption_tag, expected_tag, "hour {}", hour);
    }
}

#[test]
fn disruption_window_is_exact() {
    let c = small_config();
    let mut schedule = Schedule::new(c.hours);
    schedule.insert(60, Disruption::Metric(vec![0, 1]), 2);
    let table = small_table();
    let mut tl = TimelineAssembler::new(&c, schedule, table);
    let out = assemble_all(&mut tl);
    for (idx, a) in out.iter().enumerate() {
        let hour = idx / 8;
        let expected_tag = if hour == 60 || hour == 61 { 3 } else { 0 };
        assert_eq!(a.disruption_tag, expected_tag, "hour {}", hour);
        assert_eq!(a.disrupted, hour == 60 || hour == 61);
    }
}

#[test]
fn schedule_last_write_wins() {
    let mut s = Schedule::new(100);
    s.insert(60, Disruption::Node(0), 2);
    s.insert(60, Disruption::Metric(vec![1]), 9);
    let got = s.get(60).unwrap();
    assert_eq!(got, &(Disruption::Metric(vec![1]), 9));
    assert!(s.get(61).is_none());
    assert!(s.get(1000).is_none());
}

#[test]
fn assembler_stops_after_last_hour() {
    let c = small_config();
    let schedule = Schedule::new(c.hours);
    let table = small_table();
    let mut tl = TimelineAssembler::new(&c, schedule, table);
    let mut hours_seen = 0;
    while let Some(v) = tl.next_hour() {
        assert_eq!(v.len(), 8);
        hours_seen += 1;
    }
    assert_eq!(hours_seen, 100);
    assert!(tl.next_hour().is_none());
}

#[test]
fn producer_step_polls_after_1024() {
    assert_eq!(producer_step(0), (1, false));
    assert_eq!(producer_step(1024), (1025, false));
    assert_eq!(producer_step(1025), (1, true));
}
