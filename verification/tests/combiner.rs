use ipcheck::combiner::Combiner;
use ipcheck::range::IpRange;

#[test]
fn empty_covers_nothing() {
    let c = Combiner::new();
    assert_eq!(c.size(), 0);
    assert!(!c.contains(0));
    assert!(!c.contains(0xffff_ffff));
}

#[test]
fn contains_hits_bounds() {
    let mut c = Combiner::new();
    c.insert(IpRange { start: 10, end: 20 });
    assert!(!c.contains(9));
    assert!(c.contains(10));
    assert!(c.contains(15));
    assert!(c.contains(20));
    assert!(!c.contains(21));
}

#[test]
fn insert_disjoint_keeps_both() {
    let mut c = Combiner::new();
    c.insert(IpRange { start: 10, end: 20 });
    c.insert(IpRange { start: 30, end: 40 });
    assert_eq!(c.size(), 2);
    assert_eq!(
        c.ranges(),
        vec![IpRange { start: 10, end: 20 }, IpRange { start: 30, end: 40 }]
    );
}

#[test]
fn insert_adjacent_merges() {
    let mut c = Combiner::new();
    c.insert(IpRange { start: 10, end: 20 });
    c.insert(IpRange { start: 21, end: 30 });
    assert_eq!(c.ranges(), vec![IpRange { start: 10, end: 30 }]);
}

#[test]
fn insert_overlapping_merges() {
    let mut c = Combiner::new();
    c.insert(IpRange { start: 10, end: 20 });
    c.insert(IpRange { start: 15, end: 30 });
    assert_eq!(c.ranges(), vec![IpRange { start: 10, end: 30 }]);
}

#[test]
fn insert_spans_several() {
    let mut c = Combiner::new();
    c.insert(IpRange { start: 0, end: 10 });
    c.insert(IpRange { start: 20, end: 30 });
    c.insert(IpRange { start: 40, end: 50 });
    c.insert(IpRange { start: 5, end: 41 });
    assert_eq!(c.ranges(), vec![IpRange { start: 0, end: 50 }]);
}

#[test]
fn insert_contained_changes_nothing() {
    let mut c = Combiner::new();
    c.insert(IpRange { start: 10, end: 40 });
    c.insert(IpRange { start: 20, end: 30 });
    assert_eq!(c.ranges(), vec![IpRange { start: 10, end: 40 }]);
}

#[test]
fn insert_twice_is_insert_once() {
    let mut once = Combiner::new();
    once.insert(IpRange { start: 10, end: 20 });
    let mut twice = Combiner::new();
    twice.insert(IpRange { start: 10, end: 20 });
    twice.insert(IpRange { start: 10, end: 20 });
    assert_eq!(once.ranges(), twice.ranges());
}

#[test]
fn ranges_stay_disjoint_and_sorted() {
    let mut c = Combiner::new();
    c.insert(IpRange { start: 100, end: 200 });
    c.insert(IpRange { start: 0, end: 10 });
    c.insert(IpRange { start: 150, end: 300 });
    c.insert(IpRange { start: 12, end: 20 });
    c.insert(IpRange { start: 400, end: 400 });
    let rs = c.ranges();
    for w in rs.windows(2) {
        assert!(w[0].start <= w[0].end);
        assert!((w[0].end as u64) + 1 < w[1].start as u64);
    }
}

#[test]
fn clear_resets() {
    let mut c = Combiner::new();
    c.insert(IpRange { start: 10, end: 20 });
    c.clear();
    assert_eq!(c.size(), 0);
    assert!(!c.contains(15));
}

#[test]
fn full_address_space() {
    let mut c = Combiner::new();
    c.insert(IpRange { start: 0, end: 0xffff_ffff });
    assert!(c.contains(0));
    assert!(c.contains(0x8000_0000));
    assert!(c.contains(0xffff_ffff));
    assert_eq!(c.size(), 1);
}

#[test]
fn load_merges_adjacent_blocks() {
    let mut c = Combiner::new();
    c.load(b"10.0.0.0/24\n10.0.1.0/24");
    assert_eq!(
        c.ranges(),
        vec![IpRange { start: 0x0a00_0000, end: 0x0a00_01ff }]
    );
}

#[test]
fn load_skips_invalid_lines() {
    let mut c = Combiner::new();
    c.load(b"not-a-cidr\n10.0.0.0/24\n\n999.9.9.9/8");
    assert_eq!(c.size(), 1);
    assert!(c.contains(0x0a00_0001));
}

#[test]
fn load_order_does_not_matter() {
    let mut c1 = Combiner::new();
    c1.load(b"10.0.0.0/24\n192.168.1.0/24\n10.0.1.0/24");
    let mut c2 = Combiner::new();
    c2.load(b"192.168.1.0/24\n10.0.1.0/24\n10.0.0.0/24");
    assert_eq!(c1.ranges(), c2.ranges());
}

#[test]
fn load_empty_text() {
    let mut c = Combiner::new();
    c.load(b"");
    assert_eq!(c.size(), 0);
}

#[test]
fn load_trailing_newline() {
    let mut c = Combiner::new();
    c.load(b"10.0.0.0/24\n");
    assert_eq!(c.size(), 1);
}
