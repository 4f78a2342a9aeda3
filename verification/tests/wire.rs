use hotcloud::assembler::Assignment;
use hotcloud::dispatch::{dispatch_admitted, encode_bulk, Batch};
use hotcloud::query::{HotCloudQuery, SearchParams, SearchTemplate};
use hotcloud::record::{encode_record, format_timestamp, make_record, parse_record, Record};
use hotcloud::timestamp::{add_hours, record_timestamp, Timestamp};

fn ts(year: usize, month: usize, day: usize, hour: usize) -> Timestamp {
    Timestamp { year, month, day, hour }
}

fn sample_record() -> Record {
    Record {
        node: 3,
        metric: 1,
        query: 2,
        hour: ts(2015, 10, 20, 5),
        value: b"12.5".to_vec(),
        disruption: 1,
    }
}

#[test]
fn record_wire_shape() {
    let enc = encode_record(&sample_record());
    assert_eq!(
        String::from_utf8(enc).unwrap(),
        "{\"node\":3,\"metric\":1,\"query\":2,\"hour\":\"2015-10-20T05:00:00\",\"value\":12.5,\"disruption\":1}"
    );
}

#[test]
fn record_round_trip() {
    let r = sample_record();
    let enc = encode_record(&r);
    let back = parse_record(&enc).expect("an encoded record parses back");
    assert_eq!(back, r);
}

#[test]
fn record_round_trip_large_fields() {
    let r = Record {
        node: usize::MAX,
        metric: 0,
        query: 10_000_000,
        hour: ts(2016, 2, 29, 23),
        value: b"-1.25e-7".to_vec(),
        disruption: 3,
    };
    let enc = encode_record(&r);
    let back = parse_record(&enc).expect("an encoded record parses back");
    assert_eq!(back, r);
}

#[test]
fn parse_rejects_garbage() {
    assert!(parse_record(&b"{}".to_vec()).is_none());
    assert!(parse_record(&Vec::new()).is_none());
    let mut tampered = encode_record(&sample_record());
    tampered[0] = b'X';
    assert!(parse_record(&tampered).is_none());
    let mut truncated = encode_record(&sample_record());
    truncated.pop();
    assert!(parse_record(&truncated).is_none());
}

#[test]
fn timestamps_follow_the_calendar() {
    let fmt = |t: &Timestamp| String::from_utf8(format_timestamp(t)).unwrap();
    assert_eq!(fmt(&record_timestamp(0)), "2015-10-20T00:00:00");
    assert_eq!(fmt(&record_timestamp(100)), "2015-10-24T04:00:00");
    // into the next month
    assert_eq!(fmt(&record_timestamp(288)), "2015-11-01T00:00:00");
    // 2016 is a leap year: 132 days after the epoch is February 29
    assert_eq!(fmt(&record_timestamp(132 * 24)), "2016-02-29T00:00:00");
    assert_eq!(fmt(&record_timestamp(133 * 24)), "2016-03-01T00:00:00");
    let base = ts(2015, 12, 31, 23);
    assert_eq!(fmt(&add_hours(&base, 1)), "2016-01-01T00:00:00");
    // the largest admitted hour count still lands on a four-digit year
    let far = record_timestamp(69939695);
    assert!(far.year >= 9990 && far.year <= 9999);
}

#[test]
fn search_params_window() {
    let p = SearchParams::new(0);
    assert_eq!(String::from_utf8(p.start).unwrap(), "2014-12-31T00:00:00");
    assert_eq!(String::from_utf8(p.end).unwrap(), "2015-01-01T00:00:00");
    let p = SearchParams::new(25);
    assert_eq!(String::from_utf8(p.start).unwrap(), "2015-01-01T01:00:00");
    assert_eq!(String::from_utf8(p.end).unwrap(), "2015-01-02T01:00:00");
}

#[test]
fn query_body_parts() {
    let t = SearchTemplate::new();
    assert_eq!(t.id, "hotcloud");
    let q = HotCloudQuery::new(48);
    assert_eq!(q.template.id, "hotcloud");
    assert_eq!(String::from_utf8(q.params.end).unwrap(), "2015-01-03T00:00:00");
}

#[test]
fn bulk_framing() {
    let r = sample_record();
    let line = String::from_utf8(encode_record(&r)).unwrap();
    let records = vec![r.clone(), r];
    let bulk = String::from_utf8(encode_bulk(&records)).unwrap();
    let expected = format!("{{\"index\":{{}}}}\n{}\n{{\"index\":{{}}}}\n{}\n", line, line);
    assert_eq!(bulk, expected);
    assert_eq!(encode_bulk(&Vec::new()), Vec::<u8>::new());
}

#[test]
fn batch_fills_and_drains() {
    let a = Assignment {
        node: 0,
        query: 1,
        metric: 1,
        hour: 7,
        disruption_tag: 2,
        disrupted: false,
        mean: 30,
        std: 4,
    };
    let rec = make_record(&a, ts(2015, 10, 20, 7), b"31.5".to_vec());
    assert_eq!(rec.node, 0);
    assert_eq!(rec.query, 1);
    assert_eq!(rec.metric, 1);
    assert_eq!(rec.disruption, 2);
    assert_eq!(rec.value, b"31.5".to_vec());
    let mut batch = Batch::new(2);
    assert!(!batch.push(rec.clone()));
    assert!(batch.push(rec.clone()));
    let drained = batch.take();
    assert_eq!(drained.len(), 2);
    assert!(!batch.push(rec));
    assert_eq!(batch.records.len(), 1);
}

#[test]
fn throttle_admits_below_limit() {
    assert!(dispatch_admitted(0, 2));
    assert!(dispatch_admitted(1, 2));
    assert!(!dispatch_admitted(2, 2));
    assert!(!dispatch_admitted(5, 2));
    assert!(!dispatch_admitted(0, 0));
}
