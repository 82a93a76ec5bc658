use ipcheck::slot::{CombinerSlot, OpError};

#[test]
fn adjacent_blocks_become_one_range() {
    let mut s = CombinerSlot::new();
    assert_eq!(s.load(b"10.0.0.0/24\n10.0.1.0/24"), Ok(1));
    assert_eq!(s.contains(b"10.0.0.5"), Ok(true));
    assert_eq!(s.contains(b"10.0.1.255"), Ok(true));
    assert_eq!(s.contains(b"10.0.2.1"), Ok(false));
}

#[test]
fn disjoint_blocks_stay_apart() {
    let mut s = CombinerSlot::new();
    assert_eq!(s.load(b"192.168.1.0/24\n10.0.0.0/8"), Ok(2));
    assert_eq!(s.contains(b"192.168.1.200"), Ok(true));
    assert_eq!(s.contains(b"10.200.0.1"), Ok(true));
    // one past the broadcast address of 10.0.0.0/8
    assert_eq!(s.contains(b"11.0.0.1"), Ok(false));
    assert_eq!(s.contains(b"172.16.0.1"), Ok(false));
}

#[test]
fn invalid_line_is_skipped() {
    let mut s = CombinerSlot::new();
    assert_eq!(s.load(b"not-a-cidr\n10.0.0.0/24"), Ok(1));
    assert_eq!(s.contains(b"10.0.0.1"), Ok(true));
}

#[test]
fn malformed_address_is_an_error() {
    let s = CombinerSlot::new();
    assert_eq!(s.contains(b"999.1.1.1"), Err(OpError::MalformedAddress));
}

#[test]
fn clear_then_nothing_is_contained() {
    let mut s = CombinerSlot::new();
    assert_eq!(s.load(b"10.0.0.0/24"), Ok(1));
    s.clear();
    assert_eq!(s.contains(b"10.0.0.1"), Ok(false));
    assert_eq!(s.load(b""), Ok(0));
}

#[test]
fn absent_slot_refuses_queries() {
    let mut s = CombinerSlot::new();
    s.teardown();
    assert_eq!(s.load(b"10.0.0.0/24"), Err(OpError::Unavailable));
    assert_eq!(s.contains(b"10.0.0.1"), Err(OpError::Unavailable));
}

#[test]
fn malformed_address_reported_before_absence() {
    let mut s = CombinerSlot::new();
    s.teardown();
    assert_eq!(s.contains(b"999.1.1.1"), Err(OpError::MalformedAddress));
}

#[test]
fn clear_revives_an_absent_slot() {
    let mut s = CombinerSlot::new();
    s.teardown();
    s.clear();
    assert_eq!(s.contains(b"10.0.0.1"), Ok(false));
    assert_eq!(s.load(b"10.0.0.0/24"), Ok(1));
    assert_eq!(s.contains(b"10.0.0.1"), Ok(true));
}

#[test]
fn load_reports_range_count_after_merge() {
    let mut s = CombinerSlot::new();
    assert_eq!(s.load(b"1.0.0.0/8"), Ok(1));
    assert_eq!(s.load(b"3.0.0.0/8"), Ok(2));
    assert_eq!(s.load(b"2.0.0.0/8"), Ok(1));
}
