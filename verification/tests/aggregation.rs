use minavgmax::aggregate::AggregateMap;
use minavgmax::parse::parse_line;
use minavgmax::parse::parse_value;
use minavgmax::partition::split_chunks;
use minavgmax::pipeline::aggregate_slice;
use minavgmax::render::render;
use minavgmax::stats::Stats;

#[test]
fn three_records_scenario() {
    let m = aggregate_slice(b"a;10.0\nb;20.0\na;30.0\n");
    let a = m.get(b"a").unwrap();
    assert_eq!(a.min, 100);
    assert_eq!(a.avg(), 200);
    assert_eq!(a.max, 300);
    assert_eq!(a.count, 2);
    let b = m.get(b"b").unwrap();
    assert_eq!(b.min, 200);
    assert_eq!(b.avg(), 200);
    assert_eq!(b.max, 200);
    assert_eq!(b.count, 1);
    assert_eq!(m.len(), 2);
    let out = render(&m);
    assert_eq!(out, b"a=10.0/20.0/30.0\nb=20.0/20.0/20.0\n".to_vec());
}

#[test]
fn malformed_line_dropped_without_effect() {
    let clean = aggregate_slice(b"a;10.0\nb;20.0\na;30.0\n");
    let noisy = aggregate_slice(b"a;10.0\ngarbage_no_separator\nb;20.0\na;30.0\n");
    assert_eq!(noisy.len(), 2);
    assert_eq!(render(&noisy), render(&clean));
}

#[test]
fn non_numeric_value_dropped() {
    let m = aggregate_slice(b"a;1.0\nb;not_a_number\n");
    assert_eq!(m.len(), 1);
    assert!(m.get(b"b").is_none());
}

#[test]
fn invalid_utf8_key_dropped() {
    let mut buf: Vec<u8> = Vec::new();
    buf.extend_from_slice(&[0xff, 0xfe]);
    buf.extend_from_slice(b";1.0\nok;2.0\n");
    let m = aggregate_slice(&buf);
    assert_eq!(m.len(), 1);
    assert!(m.get(b"ok").is_some());
    assert!(m.get(&[0xff, 0xfe]).is_none());
}

#[test]
fn empty_and_trailing_lines_tolerated() {
    let m = aggregate_slice(b"\n\na;1.0\n\n");
    assert_eq!(m.len(), 1);
    assert_eq!(m.get(b"a").unwrap().count, 1);
    let empty = aggregate_slice(b"");
    assert_eq!(empty.len(), 0);
    assert_eq!(render(&empty), Vec::<u8>::new());
}

#[test]
fn merge_with_empty_is_identity() {
    let mut m = aggregate_slice(b"a;10.0\nb;20.0\n");
    let before = render(&m);
    let empty = AggregateMap::new();
    assert!(m.merge_from(&empty));
    assert_eq!(render(&m), before);
    let mut e2 = AggregateMap::new();
    assert!(e2.merge_from(&m));
    assert_eq!(render(&e2), before);
}

#[test]
fn partitioned_aggregation_matches_single_pass() {
    let whole = aggregate_slice(b"a;10.0\nb;20.0\na;30.0\nc;5.0\nb;-2.5\n");
    let mut left = aggregate_slice(b"a;10.0\nb;20.0\n");
    let right = aggregate_slice(b"a;30.0\nc;5.0\nb;-2.5\n");
    assert!(left.merge_from(&right));
    assert_eq!(render(&left), render(&whole));
}

#[test]
fn merge_order_does_not_matter() {
    let p1 = aggregate_slice(b"a;1.0\nb;2.0\n");
    let p2 = aggregate_slice(b"a;3.0\nc;4.0\n");
    let mut forward = AggregateMap::new();
    assert!(forward.merge_from(&p1));
    assert!(forward.merge_from(&p2));
    let mut backward = AggregateMap::new();
    assert!(backward.merge_from(&p2));
    assert!(backward.merge_from(&p1));
    assert_eq!(render(&forward), render(&backward));
}

#[test]
fn record_order_does_not_matter() {
    let m1 = aggregate_slice(b"a;1.0\na;2.0\na;4.0\n");
    let m2 = aggregate_slice(b"a;4.0\na;1.0\na;2.0\n");
    assert_eq!(render(&m1), render(&m2));
}

#[test]
fn output_is_sorted_with_unique_keys() {
    let m = aggregate_slice(b"pear;1.0\napple;2.0\nfig;3.0\napple;4.0\nbanana;0.5\n");
    let mut keys: Vec<Vec<u8>> = Vec::new();
    for t in 0..m.len() {
        keys.push(m.key_at(t).clone());
    }
    for w in keys.windows(2) {
        assert!(w[0] < w[1]);
    }
    assert_eq!(keys.len(), 4);
}

#[test]
fn averages_round_to_nearest_tenth() {
    // mean of 10.1 and 10.2 is 10.15, which rounds away from zero to 10.2
    let m = aggregate_slice(b"k;10.1\nk;10.2\n");
    assert_eq!(m.get(b"k").unwrap().avg(), 102);
    // mean of -10.1 and -10.2 rounds away from zero to -10.2
    let n = aggregate_slice(b"k;-10.1\nk;-10.2\n");
    assert_eq!(n.get(b"k").unwrap().avg(), -102);
}

#[test]
fn negative_values_flow_through() {
    let m = aggregate_slice(b"k;-5.5\nk;2.0\n");
    let st = m.get(b"k").unwrap();
    assert_eq!(st.min, -55);
    assert_eq!(st.max, 20);
    assert_eq!(st.count, 2);
    assert_eq!(render(&m), b"k=-5.5/-1.8/2.0\n".to_vec());
}

#[test]
fn parse_value_grammar() {
    assert_eq!(parse_value(b"10.0"), Some(100));
    assert_eq!(parse_value(b"-3.2"), Some(-32));
    assert_eq!(parse_value(b"+7"), Some(70));
    assert_eq!(parse_value(b"42"), Some(420));
    assert_eq!(parse_value(b"3."), Some(30));
    assert_eq!(parse_value(b".5"), Some(5));
    assert_eq!(parse_value(b"10.09"), Some(100));
    assert_eq!(parse_value(b""), None);
    assert_eq!(parse_value(b"-"), None);
    assert_eq!(parse_value(b"."), None);
    assert_eq!(parse_value(b"1.2.3"), None);
    assert_eq!(parse_value(b"1e5"), None);
    assert_eq!(parse_value(b"nan"), None);
    assert_eq!(parse_value(b" 1"), None);
    // the largest representable magnitude, then one digit too many
    assert_eq!(parse_value(b"99999999999999.9"), Some(999_999_999_999_999));
    assert_eq!(parse_value(b"999999999999999"), None);
}

#[test]
fn parse_line_splits_at_first_separator() {
    let rec = parse_line(b"a;b;1.0");
    assert!(rec.is_none()); // the value field "b;1.0" is not numeric
    let rec = parse_line(b"city name;3.5").unwrap();
    assert_eq!(rec.key, b"city name".to_vec());
    assert_eq!(rec.value, 35);
    let rec = parse_line(b";1.0").unwrap();
    assert_eq!(rec.key, Vec::<u8>::new());
    assert_eq!(rec.value, 10);
    assert!(parse_line(b"no_separator").is_none());
    assert!(parse_line(b"").is_none());
}

#[test]
fn split_chunks_covers_buffer() {
    let buf = b"ab\n\ncd";
    let ranges = split_chunks(buf, b'\n');
    assert_eq!(ranges, vec![(0usize, 2usize), (3, 3), (4, 6)]);
    let one = split_chunks(b"abc", b'\n');
    assert_eq!(one, vec![(0usize, 3usize)]);
    let empty = split_chunks(b"", b'\n');
    assert_eq!(empty, vec![(0usize, 0usize)]);
}

#[test]
fn stats_fold_and_merge_agree() {
    let mut s = Stats::new(100);
    s.observe(300);
    let mut t = Stats::new(200);
    t.observe(-50);
    let mut merged = s;
    merged.merge_with(&t);
    assert_eq!(merged.min, -50);
    assert_eq!(merged.max, 300);
    assert_eq!(merged.count, 4);
    assert_eq!(merged.sum, 550);
    // same readings folded one by one
    let mut all = Stats::new(100);
    all.observe(300);
    all.observe(200);
    all.observe(-50);
    assert_eq!(all, merged);
}

#[test]
fn observe_updates_map_in_place() {
    let mut m = AggregateMap::new();
    assert!(m.observe(b"x".to_vec(), 10));
    assert!(m.observe(b"x".to_vec(), 30));
    let st = m.get(b"x").unwrap();
    assert_eq!(st.min, 10);
    assert_eq!(st.max, 30);
    assert_eq!(st.avg(), 20);
    assert_eq!(st.count, 2);
    assert_eq!(m.stats_at(0), st);
}
