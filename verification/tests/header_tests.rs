use capture_the_ip::api::log_request_headers;
use capture_the_ip::client_ips::{
    client_ips_from_headers, get_forwarded, get_x_forwarded_for, get_x_real_ip, line_has_lone_quote_host,
    parse_ip, IpAddress,
};
use capture_the_ip::database::x509_certificates;
use capture_the_ip::ipv6::parse_ipv6;
use capture_the_ip::text::{split_on_commas, trim};

fn v4(a: u8, b: u8, c: u8, d: u8) -> u128 {
    u32::from_be_bytes([a, b, c, d]) as u128
}

fn key(a: &IpAddress) -> (bool, u128) {
    match a {
        IpAddress::V4(o) => (true, u32::from_be_bytes(*o) as u128),
        IpAddress::V6(n) => (false, *n),
    }
}

#[test]
fn ipv6_texts() {
    assert_eq!(parse_ipv6("::"), Some(0));
    assert_eq!(parse_ipv6("::1"), Some(1));
    assert_eq!(parse_ipv6("2001:db8::1"), Some(0x2001_0db8_0000_0000_0000_0000_0000_0001));
    assert_eq!(parse_ipv6("1:2:3:4:5:6:7:8"), Some(0x0001_0002_0003_0004_0005_0006_0007_0008));
    assert_eq!(parse_ipv6("1:2:3:4:5:6:7::"), Some(0x0001_0002_0003_0004_0005_0006_0007_0000));
    assert_eq!(parse_ipv6("::2:3:4:5:6:7:8"), Some(0x0000_0002_0003_0004_0005_0006_0007_0008));
    assert_eq!(parse_ipv6("ABCD::ef"), Some(0xabcd_0000_0000_0000_0000_0000_0000_00ef));
    assert_eq!(parse_ipv6("::ffff:1.2.3.4"), Some(0xffff_0102_0304));
    assert_eq!(parse_ipv6("::1.2.3.4"), Some(0x0102_0304));
    assert_eq!(parse_ipv6("1:2:3:4:5:6:1.2.3.4"), Some(0x0001_0002_0003_0004_0005_0006_0102_0304));
    assert_eq!(parse_ipv6("0000:0:0:0:0:0:0:00ff"), Some(0xff));
}

#[test]
fn ipv6_refusals() {
    for bad in [
        "", ":", ":::", "1::2::3", ":1::", "1:", "12345::", "1:2:3:4:5:6:7", "1:2:3:4:5:6:7:8:9",
        "1:2:3:4:5:6:7:8::", "1:2:3:4:5:6::7:8", "1.2.3.4::", "::1.2.3", "1:2:3:4:5:6:7:1.2.3.4",
        "::g", "1.2.3.4", " ::1", "::1 ", "[::1]",
    ] {
        assert_eq!(parse_ipv6(bad), None, "{bad:?}");
    }
}

#[test]
fn either_version() {
    assert_eq!(parse_ip("10.1.2.3").map(|a| key(&a)), Some((true, v4(10, 1, 2, 3))));
    assert_eq!(parse_ip("fe80::2").map(|a| key(&a)), Some((false, 0xfe80_0000_0000_0000_0000_0000_0000_0002)));
    assert!(parse_ip("example.com").is_none());
    assert!(parse_ip(" 1.2.3.4").is_none());
}

#[test]
fn trims_white_space() {
    assert_eq!(trim("  a b \t\n"), "a b");
    assert_eq!(trim("\u{3000}x\u{2003}"), "x");
    assert_eq!(trim("   "), "");
    assert_eq!(trim(""), "");
    assert_eq!(trim("x"), "x");
}

#[test]
fn splits_on_commas() {
    assert_eq!(split_on_commas("a,b,,c"), vec!["a", "b", "", "c"]);
    assert_eq!(split_on_commas(""), vec![""]);
    assert_eq!(split_on_commas(","), vec!["", ""]);
    assert_eq!(split_on_commas("1.2.3.4"), vec!["1.2.3.4"]);
}

#[test]
fn x_forwarded_for_list() {
    let got: Vec<(bool, u128)> = get_x_forwarded_for(Some(" 1.2.3.4, bogus ,::1,5.6.7.8 "))
        .iter()
        .map(key)
        .collect();
    assert_eq!(got, vec![(true, v4(1, 2, 3, 4)), (false, 1), (true, v4(5, 6, 7, 8))]);
    assert!(get_x_forwarded_for(None).is_empty());
}

#[test]
fn x_real_ip_is_not_trimmed() {
    assert_eq!(get_x_real_ip(Some("9.9.9.9")).map(|a| key(&a)), Some((true, v4(9, 9, 9, 9))));
    assert!(get_x_real_ip(Some(" 9.9.9.9")).is_none());
    assert!(get_x_real_ip(None).is_none());
}

#[test]
fn forwarded_lines() {
    let lines = vec![
        "for=192.0.2.60;proto=http;by=203.0.113.43",
        "for=\"[2001:db8:cafe::17]:4711\", for=unknown, for=198.51.100.17",
        "not a forwarded header ;;;",
    ];
    let got: Vec<(bool, u128)> = get_forwarded(&lines).iter().map(key).collect();
    assert_eq!(
        got,
        vec![
            (true, v4(192, 0, 2, 60)),
            (false, 0x2001_0db8_cafe_0000_0000_0000_0000_0017),
            (true, v4(198, 51, 100, 17)),
        ]
    );
}

#[test]
fn all_headers_in_order() {
    let ips = client_ips_from_headers(
        Some("::2"),
        Some("1.1.1.1"),
        &vec!["for=4.4.4.4", "for=1.1.1.1"],
        Some(IpAddress::V4([3, 3, 3, 3])),
    );
    assert_eq!(ips.ipv4_numbers(), vec![v4(1, 1, 1, 1), v4(4, 4, 4, 4), v4(3, 3, 3, 3)]);
    assert_eq!(ips.ipv6_numbers(), vec![2]);
}

#[test]
fn lone_quote_host_lines_are_skipped() {
    assert!(line_has_lone_quote_host("host=\""));
    assert!(line_has_lone_quote_host(" for=1.2.3.4, HoSt=\" ; proto=http"));
    assert!(!line_has_lone_quote_host("host=\"example.com\""));
    assert!(!line_has_lone_quote_host("host =\""));
    assert!(!line_has_lone_quote_host("for=1.2.3.4"));
    let lines = vec!["for=1.2.3.4;host=\"", "for=5.6.7.8"];
    let got: Vec<(bool, u128)> = get_forwarded(&lines).iter().map(key).collect();
    assert_eq!(got, vec![(true, v4(5, 6, 7, 8))]);
}

#[test]
fn pem_bundle_certificates() {
    let pem = b"junk before\n-----BEGIN CERTIFICATE-----\nAQID\n-----END CERTIFICATE-----\n\
-----BEGIN FOO-----\nAAAA\n-----END FOO-----\n\
-----BEGIN CERTIFICATE-----\nBAUG\n-----END CERTIFICATE-----\n";
    assert_eq!(x509_certificates(pem), vec![vec![1u8, 2, 3], vec![4u8, 5, 6]]);
    assert!(x509_certificates(b"").is_empty());
}

#[test]
fn header_logging_decision() {
    assert!(log_request_headers(Some("abc"), Some("abc")));
    assert!(!log_request_headers(Some("abc"), Some("abd")));
    assert!(!log_request_headers(Some("abc"), None));
    assert!(!log_request_headers(None, Some("abc")));
    assert!(log_request_headers(None, None));
}
