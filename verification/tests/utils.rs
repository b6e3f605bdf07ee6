use getmacrede::ipv4::Ipv4;
use getmacrede::utils::{parse_ip_range, ParseError};

#[test]
fn test_parse_valid_range() {
    let ips = parse_ip_range("192.168.1.1-5").unwrap();
    assert_eq!(ips.len(), 5);
    assert_eq!(ips[0], Ipv4::new(192, 168, 1, 1));
    assert_eq!(ips[4], Ipv4::new(192, 168, 1, 5));
}

#[test]
fn test_parse_invalid_format() {
    assert!(parse_ip_range("192.168.1.1").is_err());
}

#[test]
fn range_lists_every_address_in_ascending_order() {
    let ips = parse_ip_range("192.168.1.1-5").unwrap();
    assert_eq!(
        ips,
        vec![
            Ipv4::new(192, 168, 1, 1),
            Ipv4::new(192, 168, 1, 2),
            Ipv4::new(192, 168, 1, 3),
            Ipv4::new(192, 168, 1, 4),
            Ipv4::new(192, 168, 1, 5),
        ]
    );
}

#[test]
fn range_without_dash_is_a_format_error() {
    assert_eq!(parse_ip_range("192.168.1.1"), Err(ParseError::InvalidFormat));
    assert_eq!(parse_ip_range(""), Err(ParseError::InvalidFormat));
}

#[test]
fn range_with_two_dashes_is_a_format_error() {
    assert_eq!(parse_ip_range("192.168.1.1-5-9"), Err(ParseError::InvalidFormat));
}

#[test]
fn inverted_range_is_a_range_error() {
    assert_eq!(parse_ip_range("192.168.1.200-50"), Err(ParseError::InvalidRange));
}

#[test]
fn bad_start_address_is_an_ip_error() {
    assert_eq!(parse_ip_range("192.168.1-5"), Err(ParseError::InvalidIp));
    assert_eq!(parse_ip_range("192.168.1.256-5"), Err(ParseError::InvalidIp));
    assert_eq!(parse_ip_range("192.168.01.1-5"), Err(ParseError::InvalidIp));
    assert_eq!(parse_ip_range("-5"), Err(ParseError::InvalidIp));
}

#[test]
fn bad_end_is_a_range_error() {
    assert_eq!(parse_ip_range("192.168.1.1-abc"), Err(ParseError::InvalidRange));
    assert_eq!(parse_ip_range("192.168.1.1-256"), Err(ParseError::InvalidRange));
    assert_eq!(parse_ip_range("192.168.1.1-"), Err(ParseError::InvalidRange));
    assert_eq!(parse_ip_range("192.168.1.1- 5"), Err(ParseError::InvalidRange));
}

#[test]
fn range_of_one_address() {
    assert_eq!(parse_ip_range("10.0.0.7-7"), Ok(vec![Ipv4::new(10, 0, 0, 7)]));
}

#[test]
fn range_up_to_the_last_octet() {
    let ips = parse_ip_range("10.10.0.0-255").unwrap();
    assert_eq!(ips.len(), 256);
    assert_eq!(ips[0], Ipv4::new(10, 10, 0, 0));
    assert_eq!(ips[255], Ipv4::new(10, 10, 0, 255));
}

#[test]
fn end_may_carry_a_plus_sign_and_leading_zeros() {
    assert_eq!(parse_ip_range("10.0.0.1-+2").unwrap().len(), 2);
    assert_eq!(parse_ip_range("10.0.0.1-003").unwrap().len(), 3);
}

#[test]
fn error_messages() {
    assert_eq!(
        ParseError::InvalidFormat.to_string(),
        "Invalid format. Expected format: 192.168.1.1-254"
    );
    assert_eq!(ParseError::InvalidIp.to_string(), "Invalid IP address");
    assert_eq!(
        ParseError::InvalidRange.to_string(),
        "Invalid range. Start must be less than or equal to end, and within 0-255"
    );
}

#[test]
fn arguments_for_emptying_the_neighbour_cache() {
    assert_eq!(getmacrede::utils::flush_arguments(None), vec!["neigh", "flush", "all"]);
    assert_eq!(getmacrede::utils::flush_arguments(Some("eth0")), vec!["neigh", "flush", "dev", "eth0"]);
}

#[test]
fn rank_of_an_address() {
    assert_eq!(getmacrede::utils::rank_address("0.0.0.0"), 0);
    assert_eq!(getmacrede::utils::rank_address("0.0.1.2"), 258);
    assert_eq!(getmacrede::utils::rank_address("192.168.1.10"), 0xC0A8010A);
    assert_eq!(getmacrede::utils::rank_address("255.255.255.255"), u32::MAX);
    assert_eq!(getmacrede::utils::rank_address("not an address"), 0);
    assert!(getmacrede::utils::rank_address("10.0.0.9") < getmacrede::utils::rank_address("10.0.0.10"));
}
