use etc_hosts::HostAddr;

#[test]
fn parse_v4_literal() {
    assert_eq!(
        HostAddr::parse("192.168.0.1"),
        Some(HostAddr::V4(192, 168, 0, 1))
    );
    assert_eq!(HostAddr::parse("0.0.0.0"), Some(HostAddr::V4(0, 0, 0, 0)));
    assert_eq!(
        HostAddr::parse("255.255.255.255"),
        Some(HostAddr::V4(255, 255, 255, 255))
    );
}

#[test]
fn reject_bad_v4_literals() {
    assert_eq!(HostAddr::parse("256.1.1.1"), None);
    assert_eq!(HostAddr::parse("1.2.3"), None);
    assert_eq!(HostAddr::parse("1.2.3.4.5"), None);
    assert_eq!(HostAddr::parse("01.2.3.4"), None);
    assert_eq!(HostAddr::parse("1.2.3.x"), None);
    assert_eq!(HostAddr::parse(""), None);
    assert_eq!(HostAddr::parse("notanip"), None);
}

#[test]
fn parse_v6_literals() {
    assert_eq!(
        HostAddr::parse("::1"),
        Some(HostAddr::V6(0, 0, 0, 0, 0, 0, 0, 1))
    );
    assert_eq!(HostAddr::parse("::"), Some(HostAddr::V6(0, 0, 0, 0, 0, 0, 0, 0)));
    assert_eq!(
        HostAddr::parse("2001:db8::ff00:42:8329"),
        Some(HostAddr::V6(0x2001, 0xdb8, 0, 0, 0, 0xff00, 0x42, 0x8329))
    );
    assert_eq!(
        HostAddr::parse("1:2:3:4:5:6:7:8"),
        Some(HostAddr::V6(1, 2, 3, 4, 5, 6, 7, 8))
    );
    assert_eq!(
        HostAddr::parse("1:2:3:4:5:6:7::"),
        Some(HostAddr::V6(1, 2, 3, 4, 5, 6, 7, 0))
    );
    assert_eq!(
        HostAddr::parse("fe00::0"),
        Some(HostAddr::V6(0xfe00, 0, 0, 0, 0, 0, 0, 0))
    );
    assert_eq!(
        HostAddr::parse("ABCD::ef01"),
        Some(HostAddr::V6(0xabcd, 0, 0, 0, 0, 0, 0, 0xef01))
    );
}

#[test]
fn parse_v6_with_embedded_v4_tail() {
    assert_eq!(
        HostAddr::parse("::ffff:192.168.0.1"),
        Some(HostAddr::V6(0, 0, 0, 0, 0, 0xffff, 0xc0a8, 0x0001))
    );
    assert_eq!(
        HostAddr::parse("1:2:3:4:5:6:1.2.3.4"),
        Some(HostAddr::V6(1, 2, 3, 4, 5, 6, 0x0102, 0x0304))
    );
}

#[test]
fn reject_bad_v6_literals() {
    assert_eq!(HostAddr::parse("1:::2"), None);
    assert_eq!(HostAddr::parse("1:2:3"), None);
    assert_eq!(HostAddr::parse("1:2:3:4:5:6:7:8:9"), None);
    assert_eq!(HostAddr::parse("1:2:3:4:5:6:7:8::"), None);
    assert_eq!(HostAddr::parse("::1:2:3:4:5:6:7:8"), None);
    assert_eq!(HostAddr::parse("12345::"), None);
    assert_eq!(HostAddr::parse(":1::2"), None);
    assert_eq!(HostAddr::parse("1.2.3.4::"), None);
}

#[test]
fn canonical_text_of_v4() {
    assert_eq!(HostAddr::V4(10, 0, 0, 2).to_text(), "10.0.0.2");
    assert_eq!(HostAddr::V4(0, 0, 0, 0).to_text(), "0.0.0.0");
    assert_eq!(HostAddr::V4(255, 255, 255, 255).to_text(), "255.255.255.255");
}

#[test]
fn canonical_text_of_v6_compresses_longest_earliest_run() {
    assert_eq!(HostAddr::V6(0, 0, 0, 0, 0, 0, 0, 1).to_text(), "::1");
    assert_eq!(HostAddr::V6(0, 0, 0, 0, 0, 0, 0, 0).to_text(), "::");
    assert_eq!(
        HostAddr::V6(0x2001, 0xdb8, 0, 0, 0, 0, 0, 1).to_text(),
        "2001:db8::1"
    );
    assert_eq!(HostAddr::V6(0xfe00, 0, 0, 0, 0, 0, 0, 0).to_text(), "fe00::");
    assert_eq!(
        HostAddr::V6(1, 0, 1, 1, 1, 1, 1, 1).to_text(),
        "1:0:1:1:1:1:1:1"
    );
    assert_eq!(HostAddr::V6(1, 0, 0, 1, 0, 0, 0, 1).to_text(), "1:0:0:1::1");
    assert_eq!(
        HostAddr::V6(1, 0, 0, 1, 1, 0, 0, 1).to_text(),
        "1::1:1:0:0:1"
    );
}

#[test]
fn canonical_text_parses_back() {
    let addrs = [
        HostAddr::V4(127, 0, 0, 1),
        HostAddr::V6(0, 0, 0, 0, 0, 0, 0, 1),
        HostAddr::V6(0xfe80, 0, 0, 0, 0x1234, 0, 0, 0xabcd),
        HostAddr::V6(0, 0, 0, 0, 0, 0xffff, 0xc0a8, 1),
    ];
    for a in addrs {
        assert_eq!(HostAddr::parse(&a.to_text()), Some(a));
    }
}
