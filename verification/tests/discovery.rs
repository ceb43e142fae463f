use aliyunddns::error::DdnsError;
use aliyunddns::ip::parse_ipv4;
use aliyunddns::ip::second_field;
use aliyunddns::ip::IPOption;
use aliyunddns::ip::Ipv6Outcome;

fn s(text: &str) -> String {
    text.to_string()
}

#[test]
fn parse_ipv4_accepts_a_dotted_quad() {
    assert_eq!(parse_ipv4("203.0.113.5"), Some(s("203.0.113.5")));
    assert_eq!(parse_ipv4("0.0.0.0"), Some(s("0.0.0.0")));
    assert_eq!(parse_ipv4("255.255.255.255"), Some(s("255.255.255.255")));
}

#[test]
fn parse_ipv4_rejects_out_of_range_octets() {
    assert_eq!(parse_ipv4("256.0.0.1"), None);
    assert_eq!(parse_ipv4("1.2.3.999"), None);
}

#[test]
fn parse_ipv4_rejects_malformed_literals() {
    assert_eq!(parse_ipv4("1.2.3"), None);
    assert_eq!(parse_ipv4("1.2.3.4.5"), None);
    assert_eq!(parse_ipv4("01.2.3.4"), None);
    assert_eq!(parse_ipv4("1..3.4"), None);
    assert_eq!(parse_ipv4("a.b.c.d"), None);
    assert_eq!(parse_ipv4(""), None);
}

#[test]
fn combine_ipv4_requires_a_valid_literal() {
    assert_eq!(
        IPOption::combine_ipv4(s("203.0.113.5")),
        Ok(IPOption::IPV4(s("203.0.113.5")))
    );
    assert_eq!(
        IPOption::combine_ipv4(s("not-an-address")),
        Err(DdnsError::AddressParse(s("not-an-address")))
    );
}

#[test]
fn combine_ipv6_upgrades_to_dual_stack() {
    let ips = IPOption::IPV4(s("203.0.113.5"))
        .combine_ipv6(Ipv6Outcome::Literal(s("2001:db8::1")))
        .unwrap();
    assert_eq!(ips, IPOption::IPAll(s("203.0.113.5"), s("2001:db8::1")));
}

#[test]
fn combine_ipv6_keeps_ipv4_on_lookup_failure() {
    let ips = IPOption::IPV4(s("203.0.113.5"))
        .combine_ipv6(Ipv6Outcome::LookupFailed)
        .unwrap();
    assert_eq!(ips, IPOption::IPV4(s("203.0.113.5")));
}

#[test]
fn combine_ipv6_fails_the_cycle_on_an_unparsable_literal() {
    let r = IPOption::IPV4(s("203.0.113.5")).combine_ipv6(Ipv6Outcome::Invalid(s("zz::zz::1")));
    assert_eq!(r, Err(DdnsError::AddressParse(s("zz::zz::1"))));
}

#[test]
fn combine_needs_the_ipv4_lookup() {
    assert_eq!(
        IPOption::combine(None, Ipv6Outcome::LookupFailed),
        Err(DdnsError::Ipv4LookupFailed)
    );
}

#[test]
fn combine_rejects_a_body_without_an_address_field() {
    assert_eq!(
        IPOption::combine(Some(s("nocomma")), Ipv6Outcome::LookupFailed),
        Err(DdnsError::AddressParse(s("nocomma")))
    );
}

#[test]
fn combine_reads_the_second_field_of_the_body() {
    let ips = IPOption::combine(
        Some(s("198.51.100.7,203.0.113.5,v4")),
        Ipv6Outcome::Literal(s("2001:db8::1")),
    )
    .unwrap();
    assert_eq!(ips, IPOption::IPAll(s("203.0.113.5"), s("2001:db8::1")));
}

#[test]
fn combine_rejects_an_invalid_ipv4_field() {
    assert_eq!(
        IPOption::combine(Some(s("x,999.1.1.1,y")), Ipv6Outcome::LookupFailed),
        Err(DdnsError::AddressParse(s("999.1.1.1")))
    );
}

#[test]
fn second_field_is_the_address_slot() {
    assert_eq!(
        second_field("198.51.100.7,203.0.113.5,v4"),
        Some(s("203.0.113.5"))
    );
    assert_eq!(second_field("one-field-only"), None);
    assert_eq!(second_field("a,b"), Some(s("b")));
}
