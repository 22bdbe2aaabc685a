use narad::decimal::push_decimal;
use narad::ip_text::{format_ip_text, parse_ip_text};
use narad::port_text::{format_port_text, parse_port_text};
use narad::wire::IpAddress;

#[test]
fn decimal_numerals() {
    let mut v = Vec::new();
    push_decimal(&mut v, 0);
    push_decimal(&mut v, 4294967295);
    assert_eq!(v, b"04294967295".to_vec());
}

#[test]
fn port_text_is_decimal() {
    assert_eq!(format_port_text(0), b"0".to_vec());
    assert_eq!(format_port_text(8080), b"8080".to_vec());
    assert_eq!(format_port_text(65535), b"65535".to_vec());
}

#[test]
fn port_text_roundtrip() {
    for p in [0u16, 1, 9, 10, 80, 443, 1080, 9999, 10000, 65535] {
        assert_eq!(parse_port_text(&format_port_text(p)), Some(p));
    }
}

#[test]
fn port_text_is_trimmed() {
    assert_eq!(parse_port_text(b" 8080\r\n"), Some(8080));
    assert_eq!(parse_port_text("\u{a0}443\u{3000}".as_bytes()), Some(443));
    assert_eq!(parse_port_text(b"\t\x0b\x0c22"), Some(22));
}

#[test]
fn port_text_accepts_plus_and_leading_zeros() {
    assert_eq!(parse_port_text(b"+80"), Some(80));
    assert_eq!(parse_port_text(b"000080"), Some(80));
}

#[test]
fn bad_port_texts_are_refused() {
    assert_eq!(parse_port_text(b""), None);
    assert_eq!(parse_port_text(b"   "), None);
    assert_eq!(parse_port_text(b"+"), None);
    assert_eq!(parse_port_text(b"-1"), None);
    assert_eq!(parse_port_text(b"65536"), None);
    assert_eq!(parse_port_text(b"99999999999"), None);
    assert_eq!(parse_port_text(b"8 0"), None);
    assert_eq!(parse_port_text(b"80\xff"), None);
    assert_eq!(parse_port_text(b"0x50"), None);
}

#[test]
fn ipv4_text() {
    assert_eq!(format_ip_text(&IpAddress::V4([127, 0, 0, 1])), b"127.0.0.1".to_vec());
    assert_eq!(format_ip_text(&IpAddress::V4([255, 10, 0, 200])), b"255.10.0.200".to_vec());
}

#[test]
fn ipv6_text_compresses_the_first_longest_zero_run() {
    let cases: Vec<([u16; 8], &str)> = vec![
        ([0x2001, 0xdb8, 0, 0, 0, 0, 0, 1], "2001:db8::1"),
        ([0, 0, 0, 0, 0, 0, 0, 0], "::"),
        ([0, 0, 0, 0, 0, 0, 0, 1], "::1"),
        ([1, 0, 0, 0, 0, 0, 0, 0], "1::"),
        ([1, 0, 1, 0, 1, 0, 1, 0], "1:0:1:0:1:0:1:0"),
        ([1, 0, 0, 1, 0, 0, 1, 1], "1::1:0:0:1:1"),
        ([0, 0, 1, 0, 0, 0, 1, 0], "0:0:1::1:0"),
        ([0xabcd, 0xef01, 0x2345, 0x6789, 0xffff, 0x10, 0x100, 0x1000], "abcd:ef01:2345:6789:ffff:10:100:1000"),
        ([0, 0, 0, 0, 0, 0, 0xc000, 0x280], "::c000:280"),
    ];
    for (g, text) in cases {
        assert_eq!(format_ip_text(&IpAddress::V6(g)), text.as_bytes().to_vec());
    }
}

#[test]
fn ipv4_mapped_text() {
    assert_eq!(
        format_ip_text(&IpAddress::V6([0, 0, 0, 0, 0, 0xffff, 0xc000, 0x0280])),
        b"::ffff:192.0.2.128".to_vec()
    );
}

#[test]
fn ip_text_roundtrip() {
    let addrs = vec![
        IpAddress::V4([0, 0, 0, 0]),
        IpAddress::V4([192, 168, 1, 254]),
        IpAddress::V6([0, 0, 0, 0, 0, 0, 0, 0]),
        IpAddress::V6([0x2001, 0xdb8, 0, 0, 1, 0, 0, 1]),
        IpAddress::V6([0, 0, 0, 0, 0, 0xffff, 0x7f00, 1]),
        IpAddress::V6([1, 2, 3, 4, 5, 6, 7, 8]),
        IpAddress::V6([0xfe80, 0, 0, 0, 0x1ff, 0xfe23, 0x4567, 0x890a]),
    ];
    for a in addrs {
        assert_eq!(parse_ip_text(&format_ip_text(&a)), Some(a));
    }
}

#[test]
fn ip_texts_that_parse() {
    assert_eq!(parse_ip_text(b"10.0.0.1"), Some(IpAddress::V4([10, 0, 0, 1])));
    assert_eq!(parse_ip_text(b"::1"), Some(IpAddress::V6([0, 0, 0, 0, 0, 0, 0, 1])));
    assert_eq!(
        parse_ip_text(b"2001:DB8::1"),
        Some(IpAddress::V6([0x2001, 0xdb8, 0, 0, 0, 0, 0, 1]))
    );
    assert_eq!(
        parse_ip_text(b"::ffff:1.2.3.4"),
        Some(IpAddress::V6([0, 0, 0, 0, 0, 0xffff, 0x0102, 0x0304]))
    );
    assert_eq!(
        parse_ip_text(b"1:2:3:4:5:6:1.2.3.4"),
        Some(IpAddress::V6([1, 2, 3, 4, 5, 6, 0x0102, 0x0304]))
    );
    assert_eq!(parse_ip_text(b"1:2:3:4:5:6:7::"), Some(IpAddress::V6([1, 2, 3, 4, 5, 6, 7, 0])));
    assert_eq!(parse_ip_text(b"::1:2:3:4:5:6:7"), Some(IpAddress::V6([0, 1, 2, 3, 4, 5, 6, 7])));
    assert_eq!(parse_ip_text(b"0001:02::"), Some(IpAddress::V6([1, 2, 0, 0, 0, 0, 0, 0])));
}

#[test]
fn ip_texts_that_do_not_parse() {
    let bad: Vec<&[u8]> = vec![
        b"",
        b"01.2.3.4",
        b"256.1.1.1",
        b"1.2.3",
        b"1.2.3.4.5",
        b"1234.1.1.1",
        b"127.0.0.1 ",
        b" 127.0.0.1",
        b"1:2:3:4:5:6:7:8:9",
        b":::",
        b"1::2::3",
        b"12345::",
        b"1.2.3.4::",
        b"::1.2.3",
        b"g::",
        b"1:2:3:4:5:6:7",
        b"\xff::1",
    ];
    for b in bad {
        assert_eq!(parse_ip_text(b), None, "{:?}", b);
    }
}
