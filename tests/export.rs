use libcantal::meta::{decimal_bytes, parse_usize, trim_bytes};
use libcantal::{
    identity, plan_recovery, read_and_map, Collection, Counter, Integer, Labels, LevelKind,
    MetaError, RawType, Target, Value,
};
use memmap2::MmapMut;

fn name(metric: &str) -> Labels {
    Labels::new(vec![("metric".to_string(), metric.to_string())])
}

fn region(size: usize) -> MmapMut {
    MmapMut::map_anon(size).expect("anonymous map")
}

fn word(bytes: &[u8], off: usize) -> u64 {
    let mut b = [0u8; 8];
    b.copy_from_slice(&bytes[off..off + 8]);
    u64::from_le_bytes(b)
}

/// A counter "c" at 5 and a signed gauge "g" at -3.
fn two_metrics() -> (Collection, Counter, Integer) {
    let mut coll = Collection::new();
    let c = Counter::new(&mut coll, &name("c"));
    let g = Integer::new(&mut coll, &name("g"));
    c.incr(&mut coll, 5);
    g.set(&mut coll, -3);
    (coll, c, g)
}

#[test]
fn type_words() {
    let signed = RawType::Level(LevelKind::Signed);
    let float = RawType::Level(LevelKind::Float);
    assert_eq!(signed.main_type(), "level");
    assert_eq!(signed.as_json_str(), "level");
    assert_eq!(signed.type_suffix(), Some("signed"));
    assert_eq!(float.type_suffix(), Some("float"));
    assert_eq!(RawType::Counter.main_type(), "counter");
    assert_eq!(RawType::Counter.as_json_str(), "counter");
    assert_eq!(RawType::Counter.type_suffix(), None);
    assert_eq!(RawType::State.main_type(), "state");
    assert_eq!(RawType::State.as_json_str(), "state");
    assert_eq!(RawType::State.type_suffix(), None);
}

#[test]
fn identity_sorts_keys() {
    let n = Labels::new(vec![
        ("metric".to_string(), "c".to_string()),
        ("group".to_string(), "a b".to_string()),
    ]);
    assert_eq!(identity(&n), br#"{"group":"a b","metric":"c"}"#.to_vec());
    assert_eq!(identity(&name("c")), br#"{"metric":"c"}"#.to_vec());
    assert_eq!(identity(&Labels::new(vec![])), b"{}".to_vec());
}

#[test]
fn identity_escapes_newline() {
    let n = Labels::new(vec![("metric".to_string(), "a\nb".to_string())]);
    assert_eq!(identity(&n), br#"{"metric":"a\nb"}"#.to_vec());
}

#[test]
fn values_describe_themselves() {
    let mut coll = Collection::new();
    let c = Counter::new(&mut coll, &name("c"));
    let g = Integer::new(&mut coll, &name("g"));
    assert_eq!(c.raw_type(), RawType::Counter);
    assert_eq!(g.raw_type(), RawType::Level(LevelKind::Signed));
    assert_eq!(c.raw_size(), 8);
    assert_eq!(g.raw_size(), 8);
    assert_eq!(coll.kind_at(1), RawType::Level(LevelKind::Signed));
    assert_eq!(coll.identity_at(0), &br#"{"metric":"c"}"#.to_vec());
}

#[test]
fn counter_counts_locally() {
    let mut coll = Collection::new();
    let c = Counter::new(&mut coll, &name("c"));
    assert_eq!(c.get(&coll), 0);
    c.incr(&mut coll, 5);
    c.incr(&mut coll, 4);
    assert_eq!(c.get(&coll), 9);
    c.incr(&mut coll, u64::MAX);
    assert_eq!(c.get(&coll), 8);
    assert!(!coll.exported());
    assert_eq!(coll.count(), 1);
}

#[test]
fn integer_gauge_moves() {
    let mut coll = Collection::new();
    let g = Integer::new(&mut coll, &name("g"));
    g.incr(&mut coll, 10);
    g.decr(&mut coll, 13);
    assert_eq!(g.get(&coll), -3);
    g.set(&mut coll, 42);
    assert_eq!(g.get(&coll), 42);
    g.set(&mut coll, i64::MAX);
    g.incr(&mut coll, 1);
    assert_eq!(g.get(&coll), i64::MIN);
}

#[test]
fn metrics_do_not_share_slots() {
    let (mut coll, c, g) = two_metrics();
    assert_eq!(c.get(&coll), 5);
    assert_eq!(g.get(&coll), -3);
    assert!(coll.attach(region(4096)));
    c.incr(&mut coll, 1);
    assert_eq!(c.get(&coll), 6);
    assert_eq!(g.get(&coll), -3);
    g.decr(&mut coll, 1);
    assert_eq!(c.get(&coll), 6);
    assert_eq!(g.get(&coll), -4);
}

#[test]
fn values_size_rounds_to_pages() {
    let mut coll = Collection::new();
    assert_eq!(coll.values_size(), 4096);
    for i in 0..512 {
        Counter::new(&mut coll, &name(&format!("m{}", i)));
    }
    assert_eq!(coll.values_size(), 4096);
    Counter::new(&mut coll, &name("one more"));
    assert_eq!(coll.values_size(), 8192);
    assert_eq!(coll.values_size() % 4096, 0);
}

#[test]
fn empty_metadata_is_empty() {
    let coll = Collection::new();
    assert_eq!(coll.metadata(), Vec::<u8>::new());
}

#[test]
fn publish_two_metrics() {
    let (mut coll, c, g) = two_metrics();
    let meta = coll.metadata();
    assert_eq!(
        String::from_utf8(meta).unwrap(),
        "counter 8: {\"metric\":\"c\"}\nlevel 8 signed: {\"metric\":\"g\"}\n"
    );
    let size = coll.values_size();
    assert_eq!(size, 4096);
    assert!(coll.attach(region(size)));
    assert!(coll.exported());
    assert_eq!(c.get(&coll), 5);
    assert_eq!(g.get(&coll), -3);
    let back = coll.detach().expect("region");
    assert_eq!(back.len(), 4096);
    assert_eq!(word(&back, 0), 5);
    assert_eq!(word(&back, 8), (-3i64) as u64);
}

#[test]
fn published_lines_account_for_slots() {
    let (mut coll, _c, _g) = two_metrics();
    Counter::new(&mut coll, &name("h"));
    let meta = String::from_utf8(coll.metadata()).unwrap();
    let mut total = 0usize;
    for line in meta.lines() {
        let size: usize = line.split(' ').nth(1).unwrap().trim_end_matches(':').parse().unwrap();
        total += size;
    }
    assert_eq!(total, 24);
    assert!(coll.values_size() >= total);
    assert_eq!(coll.values_size() % 4096, 0);
}

#[test]
fn attach_refuses_small_region() {
    let (mut coll, c, _g) = two_metrics();
    assert!(!coll.attach(region(8)));
    assert!(!coll.exported());
    assert_eq!(c.get(&coll), 5);
}

#[test]
fn recovery_keeps_values() {
    let (mut old, c, _g) = two_metrics();
    let meta = old.metadata();
    assert!(old.attach(region(old.values_size())));
    c.incr(&mut old, 4);
    assert_eq!(c.get(&old), 9);
    let left = old.detach().expect("region");

    let mut coll = Collection::new();
    let c2 = Counter::new(&mut coll, &name("c"));
    let g2 = Integer::new(&mut coll, &name("g"));
    assert_eq!(read_and_map(&mut coll, &meta, left), Ok(true));
    assert!(coll.exported());
    assert_eq!(c2.get(&coll), 9);
    assert_eq!(g2.get(&coll), -3);
    c2.incr(&mut coll, 1);
    assert_eq!(c2.get(&coll), 10);
}

#[test]
fn recovery_matches_by_identity() {
    let (mut old, _c, _g) = two_metrics();
    let meta = old.metadata();
    assert!(old.attach(region(4096)));
    let left = old.detach().expect("region");

    let mut coll = Collection::new();
    let g2 = Integer::new(&mut coll, &name("g"));
    let c2 = Counter::new(&mut coll, &name("c"));
    assert_eq!(plan_recovery(&coll, &meta, 4096), Ok(Some(vec![8, 0])));
    assert_eq!(read_and_map(&mut coll, &meta, left), Ok(true));
    assert_eq!(c2.get(&coll), 5);
    assert_eq!(g2.get(&coll), -3);
}

#[test]
fn recovery_rejects_new_metric() {
    let (mut old, c, _g) = two_metrics();
    let meta = old.metadata();
    assert!(old.attach(region(4096)));
    c.incr(&mut old, 4);
    let left = old.detach().expect("region");

    let mut coll = Collection::new();
    let c2 = Counter::new(&mut coll, &name("c"));
    let _g2 = Integer::new(&mut coll, &name("g"));
    let h2 = Counter::new(&mut coll, &name("h"));
    assert_eq!(read_and_map(&mut coll, &meta, left), Ok(false));
    assert!(!coll.exported());
    assert_eq!(c2.get(&coll), 0);
    assert!(coll.attach(region(coll.values_size())));
    assert_eq!(c2.get(&coll), 0);
    assert_eq!(h2.get(&coll), 0);
}

#[test]
fn recovery_rejects_missing_metric() {
    let (old, _c, _g) = two_metrics();
    let meta = old.metadata();
    let mut coll = Collection::new();
    let c2 = Counter::new(&mut coll, &name("c"));
    assert_eq!(plan_recovery(&coll, &meta, 4096), Ok(None));
    assert_eq!(read_and_map(&mut coll, &meta, region(4096)), Ok(false));
    assert_eq!(c2.get(&coll), 0);
}

#[test]
fn recovery_rejects_type_change() {
    let (old, _c, _g) = two_metrics();
    let meta = old.metadata();
    let mut coll = Collection::new();
    let c2 = Integer::new(&mut coll, &name("c"));
    let _g2 = Integer::new(&mut coll, &name("g"));
    assert_eq!(read_and_map(&mut coll, &meta, region(4096)), Ok(false));
    assert_eq!(c2.get(&coll), 0);
    assert!(!coll.exported());
}

#[test]
fn recovery_rejects_other_size() {
    let meta = b"counter 4: {\"metric\":\"c\"}\n".to_vec();
    let mut coll = Collection::new();
    Counter::new(&mut coll, &name("c"));
    assert_eq!(plan_recovery(&coll, &meta, 4096), Ok(None));
}

#[test]
fn recovery_skips_padding() {
    let meta = b"pad 8\ncounter 8: {\"metric\":\"c\"}\r\n".to_vec();
    let mut coll = Collection::new();
    let c = Counter::new(&mut coll, &name("c"));
    let mut r = region(4096);
    r[8..16].copy_from_slice(&77u64.to_le_bytes());
    assert_eq!(plan_recovery(&coll, &meta, 4096), Ok(Some(vec![8])));
    assert_eq!(read_and_map(&mut coll, &meta, r), Ok(true));
    assert_eq!(c.get(&coll), 77);
}

#[test]
fn recovery_of_nothing_from_empty_meta() {
    let mut coll = Collection::new();
    assert_eq!(read_and_map(&mut coll, &Vec::new(), region(4096)), Ok(true));
    assert!(coll.exported());
}

#[test]
fn recovery_meta_errors() {
    let mut coll = Collection::new();
    let c = Counter::new(&mut coll, &name("c"));
    c.incr(&mut coll, 3);
    assert_eq!(plan_recovery(&coll, &b"counter\n".to_vec(), 4096), Err(MetaError::UnsizedType));
    assert_eq!(plan_recovery(&coll, &b"\n".to_vec(), 4096), Err(MetaError::UnsizedType));
    assert_eq!(
        plan_recovery(&coll, &b"counter x: {\"metric\":\"c\"}\n".to_vec(), 4096),
        Err(MetaError::BadSize)
    );
    assert_eq!(
        plan_recovery(&coll, &b"counter 8: {\"metric\":\"c\"}\n".to_vec(), 4),
        Err(MetaError::OutOfRange)
    );
    assert_eq!(plan_recovery(&coll, &b"counter 8\n".to_vec(), 4096), Err(MetaError::NoDescription));
    assert_eq!(
        plan_recovery(&coll, &b"counter 8: {\"metric\":\"x\"}\ncounter\n".to_vec(), 4096),
        Err(MetaError::UnsizedType)
    );
    assert_eq!(
        read_and_map(&mut coll, &b"counter 8\n".to_vec(), region(4096)),
        Err(MetaError::NoDescription)
    );
    assert_eq!(c.get(&coll), 3);
    assert!(!coll.exported());
}

#[test]
fn recovery_counts_extra_lines() {
    let meta = b"counter 8: {\"metric\":\"c\"}\ncounter 8: {\"metric\":\"x\"}\n".to_vec();
    let mut coll = Collection::new();
    Counter::new(&mut coll, &name("c"));
    assert_eq!(plan_recovery(&coll, &meta, 4096), Ok(None));
}

#[test]
fn recovery_rejects_duplicate_names() {
    let mut old = Collection::new();
    let a = Counter::new(&mut old, &name("c"));
    let b = Counter::new(&mut old, &name("c"));
    a.incr(&mut old, 1);
    b.incr(&mut old, 2);
    let meta = old.metadata();
    assert!(old.attach(region(4096)));
    let left = old.detach().expect("region");
    let mut coll = Collection::new();
    let a2 = Counter::new(&mut coll, &name("c"));
    let b2 = Counter::new(&mut coll, &name("c"));
    assert_eq!(read_and_map(&mut coll, &meta, left), Ok(false));
    assert!(!coll.exported());
    assert_eq!(a2.get(&coll), 0);
    assert_eq!(b2.get(&coll), 0);
}

#[test]
fn recovery_rejects_repeated_line() {
    let meta = b"counter 8: {\"metric\":\"c\"}\ncounter 8: {\"metric\":\"c\"}\n".to_vec();
    let mut coll = Collection::new();
    Counter::new(&mut coll, &name("c"));
    assert_eq!(plan_recovery(&coll, &meta, 4096), Ok(None));
}

#[test]
fn recovery_outcome_ignores_metric_order() {
    let meta = b"counter 8: {\"metric\":\"c\"}\nlevel 8 signed: {\"metric\":\"c\"}\n".to_vec();
    let mut first = Collection::new();
    Counter::new(&mut first, &name("c"));
    Integer::new(&mut first, &name("c"));
    let mut second = Collection::new();
    Integer::new(&mut second, &name("c"));
    Counter::new(&mut second, &name("c"));
    assert_eq!(plan_recovery(&first, &meta, 4096), Ok(None));
    assert_eq!(plan_recovery(&second, &meta, 4096), Ok(None));
}

#[test]
fn write_changes_only_its_slot() {
    let (mut coll, c, g) = two_metrics();
    assert!(coll.attach(region(4096)));
    c.incr(&mut coll, 1);
    g.set(&mut coll, 9);
    let back = coll.detach().expect("region");
    assert_eq!(word(&back, 0), 6);
    assert_eq!(word(&back, 8), 9);
    assert!(back[16..].iter().all(|b| *b == 0));
}

#[test]
fn release_detaches_values() {
    let (mut coll, c, g) = two_metrics();
    assert!(coll.attach(region(4096)));
    c.incr(&mut coll, 2);
    let back = coll.detach();
    assert!(back.is_some());
    drop(back);
    assert!(!coll.exported());
    for i in 0..coll.count() {
        assert_eq!(coll.target_at(i), Target::Local);
    }
    assert_eq!(c.get(&coll), 7);
    c.incr(&mut coll, 1);
    assert_eq!(c.get(&coll), 8);
    assert_eq!(g.get(&coll), -3);
    assert!(coll.detach().is_none());
}

#[test]
fn decimal_round_trip() {
    assert_eq!(decimal_bytes(0), b"0".to_vec());
    assert_eq!(decimal_bytes(8), b"8".to_vec());
    assert_eq!(decimal_bytes(4096), b"4096".to_vec());
    assert_eq!(parse_usize(&b"4096".to_vec()), Some(4096));
    assert_eq!(parse_usize(&b"".to_vec()), None);
    assert_eq!(parse_usize(&b"-1".to_vec()), None);
    assert_eq!(parse_usize(&b"99999999999999999999999".to_vec()), None);
    assert_eq!(parse_usize(&format!("{}", usize::MAX).into_bytes()), Some(usize::MAX));
}

#[test]
fn trim_strips_ascii_space() {
    assert_eq!(trim_bytes(&b" \t{x} \r".to_vec()), b"{x}".to_vec());
    assert_eq!(trim_bytes(&b"   ".to_vec()), Vec::<u8>::new());
}
