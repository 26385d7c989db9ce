use station_agg::engine::aggregate_buffer;
use station_agg::engine::partition;
use station_agg::engine::process_chunk;
use station_agg::engine::EngineError;
use station_agg::table::FastMap;
use station_agg::table::CAP;

fn same_aggregates(t1: &FastMap, t2: &FastMap, keys: &[&[u8]]) {
    assert_eq!(t1.distinct_keys(), t2.distinct_keys());
    assert_eq!(t1.observations(), t2.observations());
    for k in keys {
        assert_eq!(t1.get(k), t2.get(k));
    }
}

#[test]
fn scenario_tokyo_paris() {
    let input = b"Tokyo;23.4\nTokyo;18.1\nParis;5.0\n";
    let t = process_chunk(input).unwrap();
    assert_eq!(t.distinct_keys(), 2);
    let tokyo = t.get(b"Tokyo").unwrap();
    assert_eq!(tokyo.min, 181);
    assert_eq!(tokyo.max, 234);
    assert_eq!(tokyo.count, 2);
    assert_eq!(tokyo.sum, 415);
    // Mean in hundredths of a unit: 41.5 / 2 == 20.75, shown as 20.8.
    assert_eq!(tokyo.sum * 10 / tokyo.count as i128, 2075);
    let paris = t.get(b"Paris").unwrap();
    assert_eq!(paris.min, 50);
    assert_eq!(paris.max, 50);
    assert_eq!(paris.count, 1);
    assert_eq!(paris.sum, 50);
}

#[test]
fn partitioned_run_equals_single_worker() {
    let mut input = String::new();
    let names = ["Tokyo", "Paris", "Oslo", "Quito", "Hamburg", "Accra"];
    for i in 0..200 {
        let name = names[i % names.len()];
        let whole = (i * 7) % 99;
        let tenth = i % 10;
        let sign = if i % 3 == 0 { "-" } else { "" };
        input.push_str(&format!("{};{}{}.{}\n", name, sign, whole, tenth));
    }
    let buf = input.as_bytes();
    let t1 = aggregate_buffer(buf, 1).unwrap();
    let t8 = aggregate_buffer(buf, 8).unwrap();
    let keys: Vec<&[u8]> = names.iter().map(|n| n.as_bytes()).collect();
    same_aggregates(&t1, &t8, &keys);
    let whole = process_chunk(buf).unwrap();
    same_aggregates(&t1, &whole, &keys);
}

#[test]
fn partition_boundaries_are_line_aligned() {
    let input = b"alpha;1.0\nbeta;2.5\ngamma;-3.0\ndelta;44.4\nepsilon;0.1\n";
    for n in 1..10 {
        let parts = partition(input, n);
        assert!(parts.len() >= 1);
        assert!(parts.len() <= n);
        assert_eq!(parts[0].0, 0);
        assert_eq!(parts[parts.len() - 1].1, input.len());
        for w in parts.windows(2) {
            assert_eq!(w[0].1, w[1].0);
        }
        for &(s, e) in &parts {
            assert!(s < e && e <= input.len());
            if e < input.len() {
                // The boundary was moved to just after a line break.
                assert_eq!(input[e - 1], b'\n');
            }
        }
    }
}

#[test]
fn mid_line_split_point_moves_to_line_break() {
    // Two long lines; an even split for two workers lands mid-line and
    // must advance, so the first range holds the whole first line.
    let input = b"a-rather-long-station-name;10.0\nb;2.0\n";
    let parts = partition(input, 2);
    assert_eq!(parts.len(), 2);
    assert_eq!(input[parts[0].1 - 1], b'\n');
    let t = aggregate_buffer(input, 2).unwrap();
    assert_eq!(t.get(b"a-rather-long-station-name").unwrap().sum, 100);
    assert_eq!(t.get(b"b").unwrap().sum, 20);
    assert_eq!(t.observations(), 2);
}

#[test]
fn no_trailing_line_break_on_final_line() {
    let t = process_chunk(b"x;1.0\ny;-2.0").unwrap();
    assert_eq!(t.distinct_keys(), 2);
    assert_eq!(t.get(b"y").unwrap().sum, -20);
}

#[test]
fn empty_input_yields_empty_table() {
    let t = process_chunk(b"").unwrap();
    assert_eq!(t.distinct_keys(), 0);
    assert_eq!(t.observations(), 0);
    let t2 = aggregate_buffer(b"", 4).unwrap();
    assert_eq!(t2.distinct_keys(), 0);
}

#[test]
fn more_workers_than_lines() {
    let input = b"a;1.0\nb;2.0\n";
    let t = aggregate_buffer(input, 64).unwrap();
    assert_eq!(t.distinct_keys(), 2);
    assert_eq!(t.observations(), 2);
}

#[test]
fn missing_delimiter_is_malformed() {
    assert!(matches!(
        process_chunk(b"Tokyo23.4\n"),
        Err(EngineError::MalformedRecord)
    ));
}

#[test]
fn malformed_value_is_not_truncated() {
    assert!(matches!(
        process_chunk(b"Tokyo;12.34\n"),
        Err(EngineError::MalformedRecord)
    ));
}

#[test]
fn empty_line_in_the_middle_is_malformed() {
    assert!(matches!(
        process_chunk(b"a;1.0\n\nb;2.0\n"),
        Err(EngineError::MalformedRecord)
    ));
}

#[test]
fn capacity_exceeded_is_reported() {
    let mut input = String::new();
    for i in 0..(CAP + 1) {
        input.push_str(&format!("station-{};1.0\n", i));
    }
    assert!(matches!(
        process_chunk(input.as_bytes()),
        Err(EngineError::CapacityExceeded)
    ));
}

#[test]
fn partitioned_run_reports_malformed() {
    assert!(matches!(
        aggregate_buffer(b"a;1.0\nbad-line\nb;2.0\n", 4),
        Err(EngineError::MalformedRecord)
    ));
}

#[test]
fn empty_buffer_has_no_partitions() {
    assert!(partition(b"", 3).is_empty());
}
