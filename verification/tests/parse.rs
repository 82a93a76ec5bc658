use ipcheck::parse::{parse_cidr, parse_ipv4};
use ipcheck::range::IpRange;

#[test]
fn ipv4_zero() {
    assert_eq!(parse_ipv4(b"0.0.0.0"), Some(0));
}

#[test]
fn ipv4_max() {
    assert_eq!(parse_ipv4(b"255.255.255.255"), Some(0xffff_ffff));
}

#[test]
fn ipv4_ordinary() {
    assert_eq!(parse_ipv4(b"10.0.0.1"), Some(0x0a00_0001));
    assert_eq!(parse_ipv4(b"192.168.1.200"), Some(0xc0a8_01c8));
    assert_eq!(parse_ipv4(b"172.16.0.1"), Some(0xac10_0001));
}

#[test]
fn ipv4_octet_out_of_range() {
    assert_eq!(parse_ipv4(b"999.1.1.1"), None);
    assert_eq!(parse_ipv4(b"256.0.0.0"), None);
    assert_eq!(parse_ipv4(b"1.2.3.256"), None);
}

#[test]
fn ipv4_wrong_shape() {
    assert_eq!(parse_ipv4(b""), None);
    assert_eq!(parse_ipv4(b"10.0.0"), None);
    assert_eq!(parse_ipv4(b"10.0.0.0.0"), None);
    assert_eq!(parse_ipv4(b"10..0.0"), None);
    assert_eq!(parse_ipv4(b".1.2.3"), None);
    assert_eq!(parse_ipv4(b"1.2.3."), None);
    assert_eq!(parse_ipv4(b"a.b.c.d"), None);
    assert_eq!(parse_ipv4(b"1.2.3.4 "), None);
}

#[test]
fn ipv4_leading_zero() {
    assert_eq!(parse_ipv4(b"01.2.3.4"), None);
    assert_eq!(parse_ipv4(b"1.2.3.04"), None);
    assert_eq!(parse_ipv4(b"0.2.3.4"), Some(0x0002_0304));
}

#[test]
fn cidr_ordinary() {
    assert_eq!(
        parse_cidr(b"10.0.0.0/24"),
        Some(IpRange { start: 0x0a00_0000, end: 0x0a00_00ff })
    );
    assert_eq!(
        parse_cidr(b"10.0.0.0/8"),
        Some(IpRange { start: 0x0a00_0000, end: 0x0aff_ffff })
    );
}

#[test]
fn cidr_whole_space() {
    assert_eq!(
        parse_cidr(b"0.0.0.0/0"),
        Some(IpRange { start: 0, end: 0xffff_ffff })
    );
}

#[test]
fn cidr_single_address() {
    assert_eq!(
        parse_cidr(b"1.2.3.4/32"),
        Some(IpRange { start: 0x0102_0304, end: 0x0102_0304 })
    );
}

#[test]
fn cidr_masks_host_bits() {
    // the network address is derived from the prefix length
    assert_eq!(
        parse_cidr(b"10.0.0.5/24"),
        Some(IpRange { start: 0x0a00_0000, end: 0x0a00_00ff })
    );
}

#[test]
fn cidr_bad_prefix() {
    assert_eq!(parse_cidr(b"10.0.0.0/33"), None);
    assert_eq!(parse_cidr(b"10.0.0.0/"), None);
    assert_eq!(parse_cidr(b"10.0.0.0/a"), None);
    assert_eq!(parse_cidr(b"10.0.0.0/08"), None);
    assert_eq!(parse_cidr(b"10.0.0.0/240"), None);
}

#[test]
fn cidr_wrong_shape() {
    assert_eq!(parse_cidr(b""), None);
    assert_eq!(parse_cidr(b"10.0.0.0"), None);
    assert_eq!(parse_cidr(b"/24"), None);
    assert_eq!(parse_cidr(b"10.0.0.0/24/3"), None);
    assert_eq!(parse_cidr(b"not-a-cidr"), None);
    assert_eq!(parse_cidr(b"999.1.1.1/24"), None);
}
