use capture_the_ip::capture::{i32_to_ip, Capture, NewCapture};
use capture_the_ip::ipv4::{format_ipv4, i32_from_octets, octets_from_i32, parse_ipv4};
use capture_the_ip::text::push_decimal;

#[test]
fn formats_dotted_decimal() {
    assert_eq!(format_ipv4([192, 168, 0, 1]), "192.168.0.1");
    assert_eq!(format_ipv4([0, 0, 0, 0]), "0.0.0.0");
    assert_eq!(format_ipv4([255, 255, 255, 255]), "255.255.255.255");
    assert_eq!(format_ipv4([10, 20, 100, 9]), "10.20.100.9");
}

#[test]
fn parses_dotted_decimal() {
    assert_eq!(parse_ipv4("192.168.0.1"), Some([192, 168, 0, 1]));
    assert_eq!(parse_ipv4("0.0.0.0"), Some([0, 0, 0, 0]));
    assert_eq!(parse_ipv4("255.255.255.255"), Some([255, 255, 255, 255]));
    assert_eq!(parse_ipv4("1.2.3.4"), Some([1, 2, 3, 4]));
}

#[test]
fn refuses_what_std_refuses() {
    for bad in [
        "", "1.2.3", "1.2.3.4.5", "256.1.1.1", "01.2.3.4", "1.2.3.04", "1..2.3", "1.2.3.4 ", " 1.2.3.4",
        "1.2.3.-4", "a.b.c.d", "::1", "2001:db8::1", "::ffff:1.2.3.4", "1.2.3.1000", "0001.2.3.4",
        "1.2.3.4.", ".1.2.3.4", "1,2,3,4", "１.2.3.4",
    ] {
        assert_eq!(parse_ipv4(bad), None, "{bad:?}");
    }
}

#[test]
fn parses_mixed_widths() {
    assert_eq!(parse_ipv4("8.8.8.8"), Some([8, 8, 8, 8]));
    assert_eq!(parse_ipv4("100.64.0.1"), Some([100, 64, 0, 1]));
    assert_eq!(parse_ipv4("172.16.254.3"), Some([172, 16, 254, 3]));
    assert_eq!(parse_ipv4("9.99.199.200"), Some([9, 99, 199, 200]));
}

#[test]
fn format_then_parse_gives_the_address() {
    for ip in [[0u8, 0, 0, 0], [1, 10, 100, 255], [127, 0, 0, 1], [99, 9, 199, 0]] {
        assert_eq!(parse_ipv4(&format_ipv4(ip)), Some(ip));
    }
}

#[test]
fn stored_numbers_are_big_endian_and_signed() {
    assert_eq!(i32_from_octets([0, 0, 1, 2]), 258);
    assert_eq!(i32_from_octets([127, 255, 255, 255]), i32::MAX);
    assert_eq!(i32_from_octets([128, 0, 0, 0]), i32::MIN);
    assert_eq!(i32_from_octets([255, 255, 255, 255]), -1);
    assert_eq!(i32_from_octets([192, 168, 0, 1]), i32::from_be_bytes([192, 168, 0, 1]));
    assert_eq!(octets_from_i32(-1), [255, 255, 255, 255]);
    assert_eq!(octets_from_i32(258), [0, 0, 1, 2]);
    assert_eq!(octets_from_i32(i32::MIN), [128, 0, 0, 0]);
}

#[test]
fn stored_numbers_round_trip() {
    for ip in [[0u8, 0, 0, 0], [1, 2, 3, 4], [200, 1, 2, 3], [255, 0, 255, 0]] {
        assert_eq!(octets_from_i32(i32_from_octets(ip)), ip);
    }
    for v in [i32::MIN, -123456, -1, 0, 1, 987654321, i32::MAX] {
        assert_eq!(i32_from_octets(octets_from_i32(v)), v);
    }
}

#[test]
fn new_capture_fields() {
    let c = NewCapture::create_from_ip_and_nick_at(
        [200, 1, 2, 3],
        "alice".to_string(),
        time::OffsetDateTime::UNIX_EPOCH,
    );
    assert_eq!(c.ip, i32::from_be_bytes([200, 1, 2, 3]));
    assert_eq!(c.blck, 200);
    assert_eq!(c.nick, "alice");
    assert_eq!(c.claimed_at, time::OffsetDateTime::UNIX_EPOCH);
    let now = NewCapture::create_from_ip_and_nick_now([7, 7, 7, 7], "bob".to_string());
    assert_eq!(now.blck, 7);
    assert_eq!(now.nick, "bob");
    assert!(now.claimed_at.year() >= 2024);
}

#[test]
fn capture_reads_back_its_address() {
    let c = Capture {
        ip: i32_from_octets([203, 0, 113, 7]),
        blck: 203,
        nick: "carol".to_string(),
        claimed_at: time::OffsetDateTime::UNIX_EPOCH,
    };
    assert_eq!(c.get_ip(), [203, 0, 113, 7]);
    assert_eq!(i32_to_ip(&c.ip), "203.0.113.7");
    assert_eq!(i32_to_ip(&-1), "255.255.255.255");
}

#[test]
fn decimal_text() {
    let mut s = String::from("port ");
    push_decimal(&mut s, 5432);
    assert_eq!(s, "port 5432");
    let mut z = String::new();
    push_decimal(&mut z, 0);
    assert_eq!(z, "0");
    let mut m = String::new();
    push_decimal(&mut m, u64::MAX);
    assert_eq!(m, u64::MAX.to_string());
}
