use tracker_core::bittorrent::IpVal;
use tracker_core::ip::{parse_ip, parse_ipv4, parse_ipv6, remote_ip};

#[test]
fn ipv4_dotted_quad() {
    assert_eq!(parse_ipv4(b"127.0.0.1"), Some(2130706433));
    assert_eq!(parse_ipv4(b"255.255.255.255"), Some(u32::MAX));
    assert_eq!(parse_ipv4(b"0.0.0.0"), Some(0));
}

#[test]
fn ipv4_rejects_bad_forms() {
    assert_eq!(parse_ipv4(b"256.1.1.1"), None);
    assert_eq!(parse_ipv4(b"1.2.3"), None);
    assert_eq!(parse_ipv4(b"1.2.3.4.5"), None);
    assert_eq!(parse_ipv4(b"a.b.c.d"), None);
    assert_eq!(parse_ipv4(b""), None);
}

#[test]
fn ipv4_rejects_leading_zeros() {
    assert_eq!(parse_ipv4(b"010.0.0.1"), None);
    assert_eq!(parse_ipv4(b"1.02.3.4"), None);
    assert_eq!(parse_ipv4(b"1.2.3.04"), None);
    // A lone zero octet is still fine.
    assert_eq!(parse_ipv4(b"0.0.0.0"), Some(0));
}

#[test]
fn ipv6_full_form() {
    assert_eq!(
        parse_ipv6(b"2001:0db8:85a3:0000:0000:8a2e:0370:7334"),
        Some(0x2001_0db8_85a3_0000_0000_8a2e_0370_7334)
    );
    assert_eq!(parse_ipv6(b"0:0:0:0:0:0:0:1"), Some(1));
}

#[test]
fn ipv6_compressed_forms() {
    assert_eq!(parse_ipv6(b"::"), Some(0));
    assert_eq!(parse_ipv6(b"::1"), Some(1));
    assert_eq!(parse_ipv6(b"1::"), Some(0x0001_0000_0000_0000_0000_0000_0000_0000));
    assert_eq!(
        parse_ipv6(b"fe80::1"),
        Some(0xfe80_0000_0000_0000_0000_0000_0000_0001)
    );
    assert_eq!(
        parse_ipv6(b"2001:db8::8a2e:370:7334"),
        Some(0x2001_0db8_0000_0000_0000_8a2e_0370_7334)
    );
}

#[test]
fn ipv6_rejects_bad_forms() {
    // Two compressions, a ninth group, a trailing colon, a fat group.
    assert_eq!(parse_ipv6(b"1::2::3"), None);
    assert_eq!(parse_ipv6(b"1:2:3:4:5:6:7:8:9"), None);
    assert_eq!(parse_ipv6(b"1:2:3:4:5:6:7:"), None);
    assert_eq!(parse_ipv6(b"12345::"), None);
    assert_eq!(parse_ipv6(b"1:2:3:4:5:6:7:8::"), None);
}

#[test]
fn ip_prefers_dotted_quad() {
    assert_eq!(parse_ip(b"10.0.0.1"), Some(IpVal::V4(0x0a000001)));
    assert_eq!(parse_ip(b"::1"), Some(IpVal::V6(1)));
    assert_eq!(parse_ip(b"not-an-address"), None);
}

#[test]
fn remote_endpoint_forms() {
    // IPv4 with and without a trailing port.
    assert_eq!(remote_ip(b"10.0.0.1:6881"), Some(IpVal::V4(0x0a000001)));
    assert_eq!(remote_ip(b"10.0.0.1"), Some(IpVal::V4(0x0a000001)));
    // Bracketed IPv6 with a port, and a bare IPv6 literal.
    assert_eq!(remote_ip(b"[2001:db8::1]:6881"), Some(IpVal::V6(0x2001_0db8_0000_0000_0000_0000_0000_0001)));
    assert_eq!(remote_ip(b"::1"), Some(IpVal::V6(1)));
    assert_eq!(remote_ip(b""), None);
}
