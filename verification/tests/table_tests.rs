use station_agg::table::FastMap;
use station_agg::table::StationData;
use station_agg::table::CAP;

#[test]
fn default_is_sentinel_state() {
    let d = StationData::default();
    assert_eq!(d.min, i16::MAX);
    assert_eq!(d.max, i16::MIN);
    assert_eq!(d.count, 0);
    assert_eq!(d.sum, 0);
}

#[test]
fn same_key_many_times_has_exact_aggregate() {
    let mut t = FastMap::new();
    let values: [i16; 5] = [234, 181, -50, 999, 0];
    for v in values {
        assert!(t.observe(b"Tokyo", v).is_ok());
    }
    let sd = t.get(b"Tokyo").unwrap();
    assert_eq!(sd.count, 5);
    assert_eq!(sd.sum, 234 + 181 - 50 + 999 + 0);
    assert_eq!(sd.min, -50);
    assert_eq!(sd.max, 999);
    assert_eq!(t.distinct_keys(), 1);
    assert_eq!(t.observations(), 5);
}

#[test]
fn single_observation_is_degenerate() {
    let mut t = FastMap::new();
    assert!(t.observe(b"Oslo", 52).is_ok());
    let sd = t.get(b"Oslo").unwrap();
    assert_eq!(sd.count, 1);
    assert_eq!(sd.min, sd.max);
    assert_eq!(sd.sum, sd.min as i128);
    assert_eq!(sd.sum / sd.count as i128, sd.min as i128);
}

#[test]
fn absent_key_is_none() {
    let mut t = FastMap::new();
    assert!(t.observe(b"Oslo", 52).is_ok());
    assert!(t.get(b"Tokyo").is_none());
    assert!(t.get(b"Osl").is_none());
    assert!(t.get(b"Oslo2").is_none());
    assert!(t.get(b"").is_none());
}

#[test]
fn keys_compare_by_bytes_not_identity() {
    let mut t = FastMap::new();
    let key_a = vec![79u8, 115, 108, 111];
    let key_b = b"Oslo".to_vec();
    assert!(t.observe(&key_a, 10).is_ok());
    assert!(t.observe(&key_b, 20).is_ok());
    let sd = t.get(b"Oslo").unwrap();
    assert_eq!(sd.count, 2);
    assert_eq!(sd.sum, 30);
    assert_eq!(t.distinct_keys(), 1);
}

#[test]
fn entries_cover_every_key_once() {
    let mut t = FastMap::new();
    assert!(t.observe(b"a", 1).is_ok());
    assert!(t.observe(b"b", 2).is_ok());
    assert!(t.observe(b"c", 3).is_ok());
    assert!(t.observe(b"b", 4).is_ok());
    let es = t.entries();
    assert_eq!(es.len(), 3);
    let mut seen_a = 0;
    let mut seen_b = 0;
    let mut seen_c = 0;
    for (k, sd) in &es {
        if k.as_slice() == b"a" {
            seen_a += 1;
            assert_eq!(sd.sum, 1);
        } else if k.as_slice() == b"b" {
            seen_b += 1;
            assert_eq!(sd.sum, 6);
            assert_eq!(sd.count, 2);
        } else if k.as_slice() == b"c" {
            seen_c += 1;
            assert_eq!(sd.sum, 3);
        } else {
            panic!("unexpected key");
        }
    }
    assert_eq!((seen_a, seen_b, seen_c), (1, 1, 1));
}

fn table_of(pairs: &[(&[u8], i16)]) -> FastMap {
    let mut t = FastMap::new();
    for (k, v) in pairs {
        assert!(t.observe(k, *v).is_ok());
    }
    t
}

fn same_aggregates(t1: &FastMap, t2: &FastMap, keys: &[&[u8]]) {
    assert_eq!(t1.distinct_keys(), t2.distinct_keys());
    assert_eq!(t1.observations(), t2.observations());
    for k in keys {
        assert_eq!(t1.get(k), t2.get(k));
    }
}

#[test]
fn merge_is_commutative() {
    let a = table_of(&[(b"x", 10), (b"y", -20), (b"x", 30)]);
    let b = table_of(&[(b"y", 5), (b"z", 7)]);
    let mut ab = FastMap::new();
    assert!(ab.absorb(&a).is_ok());
    assert!(ab.absorb(&b).is_ok());
    let mut ba = FastMap::new();
    assert!(ba.absorb(&b).is_ok());
    assert!(ba.absorb(&a).is_ok());
    same_aggregates(&ab, &ba, &[b"x", b"y", b"z"]);
    let x = ab.get(b"x").unwrap();
    assert_eq!((x.count, x.sum, x.min, x.max), (2, 40, 10, 30));
    let y = ab.get(b"y").unwrap();
    assert_eq!((y.count, y.sum, y.min, y.max), (2, -15, -20, 5));
}

#[test]
fn merge_pairwise_equals_all_at_once() {
    let a = table_of(&[(b"x", 1), (b"y", 2)]);
    let b = table_of(&[(b"x", 3)]);
    let c = table_of(&[(b"z", 4), (b"y", 5)]);
    // ((a + b) + c)
    let mut left = FastMap::new();
    assert!(left.absorb(&a).is_ok());
    assert!(left.absorb(&b).is_ok());
    assert!(left.absorb(&c).is_ok());
    // (a + (b + c))
    let mut bc = FastMap::new();
    assert!(bc.absorb(&b).is_ok());
    assert!(bc.absorb(&c).is_ok());
    let mut right = FastMap::new();
    assert!(right.absorb(&a).is_ok());
    assert!(right.absorb(&bc).is_ok());
    same_aggregates(&left, &right, &[b"x", b"y", b"z"]);
}

#[test]
fn table_full_is_reported() {
    let mut t = FastMap::new();
    for i in 0..CAP {
        let key = format!("station-{}", i);
        assert!(t.observe(key.as_bytes(), 7).is_ok());
    }
    assert_eq!(t.distinct_keys() as usize, CAP);
    // A key already present is still accepted.
    assert!(t.observe(b"station-0", 9).is_ok());
    // A new key no longer fits.
    assert!(t.observe(b"one-station-too-many", 1).is_err());
}
