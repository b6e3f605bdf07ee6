use getmacrede::ipv4::Ipv4;

#[test]
fn parses_dotted_decimal() {
    assert_eq!(Ipv4::parse("192.168.1.31"), Some(Ipv4::new(192, 168, 1, 31)));
    assert_eq!(Ipv4::parse("0.0.0.0"), Some(Ipv4::new(0, 0, 0, 0)));
    assert_eq!(Ipv4::parse("255.255.255.255"), Some(Ipv4::new(255, 255, 255, 255)));
    assert_eq!(Ipv4::parse("10.0.0.1"), Some(Ipv4::new(10, 0, 0, 1)));
}

#[test]
fn refuses_what_is_no_address() {
    for text in [
        "", "1.2.3", "1.2.3.4.5", "1..2.3", "256.1.1.1", "1.2.3.04", "01.2.3.4", "1.2.3.4 ",
        " 1.2.3.4", "a.b.c.d", "1.2.3.-4", "+1.2.3.4", "1.2.3.4.", ".1.2.3.4", "1.2.3.1000",
        "AA:BB:CC:DD:EE:FF", "١.2.3.4",
    ] {
        assert_eq!(Ipv4::parse(text), None, "{:?}", text);
    }
}

#[test]
fn text_and_parse_are_inverse() {
    for ip in [
        Ipv4::new(0, 0, 0, 0),
        Ipv4::new(9, 10, 99, 100),
        Ipv4::new(192, 168, 15, 31),
        Ipv4::new(255, 200, 109, 7),
    ] {
        assert_eq!(Ipv4::parse(&ip.to_text()), Some(ip));
    }
    assert_eq!(Ipv4::new(192, 168, 15, 31).to_text(), "192.168.15.31");
    assert_eq!(Ipv4::new(9, 10, 99, 100).to_text(), "9.10.99.100");
}

#[test]
fn octets_in_order() {
    assert_eq!(Ipv4::new(1, 2, 3, 4).octets(), [1, 2, 3, 4]);
}
