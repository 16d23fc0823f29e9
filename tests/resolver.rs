use ipv6_literal::ipv6::parse_address;
use ipv6_literal::resolver::{Ipv6LiteralResolver, LiteralError, Resolution, Zone};

const LINK_LOCAL: [u16; 8] = [0xfe80, 0, 0, 0, 0x93aa, 0x4223, 0xe7a4, 0x9975];

fn segments_of(text: &str) -> Option<Vec<u16>> {
    let chars: Vec<char> = text.chars().collect();
    parse_address(&chars)
}

fn scope_and_segments(name: &str, interface_index: u32) -> Result<Option<(Vec<u16>, u32)>, LiteralError> {
    let resolver = Ipv6LiteralResolver::new();
    resolver
        .resolve(name, interface_index)
        .map(|r| r.map(|a| (a.address.segments, a.scope_id)))
}

#[test]
fn names_outside_the_domain_are_delegated() {
    let resolver = Ipv6LiteralResolver::new();
    for name in ["example.com", "fe80--1.ipv6-literal.org", "ipv6-literal.net", "", "x.ipv6-literal.net.com"] {
        assert!(matches!(resolver.plan(name), Ok(Resolution::Delegate)));
        assert!(matches!(resolver.resolve(name, 7), Ok(None)));
    }
}

#[test]
fn literal_without_zone() {
    let r = scope_and_segments("fe80--93aa-4223-e7a4-9975.ipv6-literal.net", 9).unwrap().unwrap();
    assert_eq!(r.0, LINK_LOCAL.to_vec());
    assert_eq!(r.1, 0);
}

#[test]
fn literal_with_numeric_zone() {
    let r = scope_and_segments("fe80--93aa-4223-e7a4-9975s5.ipv6-literal.net", 9).unwrap().unwrap();
    assert_eq!(r.0, LINK_LOCAL.to_vec());
    assert_eq!(r.1, 5);
}

#[test]
fn literal_with_interface_zone() {
    let resolver = Ipv6LiteralResolver::new();
    let query = match resolver.plan("fe80--93aa-4223-e7a4-9975seth0.ipv6-literal.net") {
        Ok(Resolution::Literal(q)) => q,
        _ => panic!("expected a literal query"),
    };
    match &query.zone {
        Zone::Interface(name) => assert_eq!(name.iter().collect::<String>(), "eth0"),
        _ => panic!("expected an interface name"),
    }
    let addr = resolver.finish(query, 2).unwrap();
    assert_eq!(addr.address.segments, LINK_LOCAL.to_vec());
    assert_eq!(addr.scope_id, 2);
    assert_eq!(addr.port, 0);
    assert_eq!(addr.flowinfo, 0);
}

#[test]
fn unknown_interface_is_rejected() {
    let r = scope_and_segments("fe80--93aa-4223-e7a4-9975snosuchiface0.ipv6-literal.net", 0);
    assert_eq!(r, Err(LiteralError::InvalidZone));
}

#[test]
fn malformed_address_is_rejected() {
    let r = scope_and_segments("zzzz-zzzz.ipv6-literal.net", 0);
    assert_eq!(r, Err(LiteralError::MalformedAddress));
}

#[test]
fn resolving_twice_gives_the_same_address() {
    let name = "fe80--93aa-4223-e7a4-9975s5.ipv6-literal.net";
    let first = scope_and_segments(name, 0);
    let second = scope_and_segments(name, 0);
    assert_eq!(first, second);
    assert_eq!(first, Ok(Some((LINK_LOCAL.to_vec(), 5))));
}

#[test]
fn missing_address_is_rejected() {
    assert_eq!(scope_and_segments("s5.ipv6-literal.net", 0), Err(LiteralError::MissingAddress));
    assert_eq!(scope_and_segments(".ipv6-literal.net", 0), Err(LiteralError::MissingAddress));
}

#[test]
fn interior_nul_in_zone_is_rejected() {
    let r = scope_and_segments("fe80--1seth\u{0}0.ipv6-literal.net", 3);
    assert_eq!(r, Err(LiteralError::InteriorNul));
}

#[test]
fn non_ascii_zone_is_rejected() {
    let r = scope_and_segments("fe80--1s\u{e9}th0.ipv6-literal.net", 3);
    assert_eq!(r, Err(LiteralError::InvalidZone));
}

#[test]
fn numeric_zone_edges() {
    let one = vec![0xfe80, 0, 0, 0, 0, 0, 0, 1];
    assert_eq!(scope_and_segments("fe80--1s+7.ipv6-literal.net", 0), Ok(Some((one.clone(), 7))));
    assert_eq!(
        scope_and_segments("fe80--1s4294967295.ipv6-literal.net", 0),
        Ok(Some((one.clone(), u32::MAX)))
    );
    // one past the largest number is read as an interface name
    assert_eq!(
        scope_and_segments("fe80--1s4294967296.ipv6-literal.net", 12),
        Ok(Some((one.clone(), 12)))
    );
    assert_eq!(scope_and_segments("fe80--1s.ipv6-literal.net", 0), Err(LiteralError::InvalidZone));
    assert_eq!(scope_and_segments("fe80--1s+.ipv6-literal.net", 4), Ok(Some((one, 4))));
}

#[test]
fn repeated_suffix_is_trimmed_once() {
    let r = scope_and_segments("--1.ipv6-literal.net.ipv6-literal.net", 0);
    assert_eq!(r, Err(LiteralError::MalformedAddress));
}

#[test]
fn address_forms() {
    assert_eq!(segments_of("1:2:3:4:5:6:7:8"), Some(vec![1, 2, 3, 4, 5, 6, 7, 8]));
    assert_eq!(segments_of("::"), Some(vec![0; 8]));
    assert_eq!(segments_of("::1"), Some(vec![0, 0, 0, 0, 0, 0, 0, 1]));
    assert_eq!(segments_of("1::"), Some(vec![1, 0, 0, 0, 0, 0, 0, 0]));
    assert_eq!(segments_of("::2:3:4:5:6:7:8"), Some(vec![0, 2, 3, 4, 5, 6, 7, 8]));
    assert_eq!(segments_of("1:2:3:4:5:6:7::"), Some(vec![1, 2, 3, 4, 5, 6, 7, 0]));
    assert_eq!(segments_of("1:2:3::5:6:7:8"), Some(vec![1, 2, 3, 0, 5, 6, 7, 8]));
    assert_eq!(segments_of("FFFF::aBcD"), Some(vec![0xffff, 0, 0, 0, 0, 0, 0, 0xabcd]));
    assert_eq!(segments_of("0000:00:0:1:2:3:4:5"), Some(vec![0, 0, 0, 1, 2, 3, 4, 5]));
}

#[test]
fn address_forms_rejected() {
    for text in [
        "",
        ":",
        ":::",
        "1:2:3:4:5:6:7",
        "1:2:3:4:5:6:7:8:9",
        "1:2:3:4:5:6:7:8::",
        "::1:2:3:4:5:6:7:8",
        "1::2::3",
        "1:::2",
        ":1:2:3:4:5:6:7:8",
        "1:2:3:4:5:6:7:8:",
        "12345::",
        "g::",
        "1:2:3:4:5:6:7:",
    ] {
        assert_eq!(segments_of(text), None, "{text}");
    }
}

#[test]
fn error_messages() {
    assert_eq!(LiteralError::InvalidZone.message(), "invalid IPv6 zone identifier");
    assert_eq!(
        LiteralError::InteriorNul.message(),
        "invalid IPv6 zone identifier (interior NUL)"
    );
    assert_eq!(
        LiteralError::MissingAddress.message(),
        "ipv6-literal.net address must contain an IPv6 address"
    );
    assert_eq!(LiteralError::MalformedAddress.message(), "invalid IPv6 address syntax");
}

#[test]
fn address_forms_with_ipv4_tail() {
    assert_eq!(
        segments_of("::ffff:1.2.3.4"),
        Some(vec![0, 0, 0, 0, 0, 0xffff, 0x0102, 0x0304])
    );
    assert_eq!(
        segments_of("1:2:3:4:5:6:1.2.3.4"),
        Some(vec![1, 2, 3, 4, 5, 6, 0x0102, 0x0304])
    );
    assert_eq!(segments_of("::1.2.3.4"), Some(vec![0, 0, 0, 0, 0, 0, 0x0102, 0x0304]));
    assert_eq!(segments_of("1::1.2.3.4"), Some(vec![1, 0, 0, 0, 0, 0, 0x0102, 0x0304]));
    assert_eq!(
        segments_of("64:ff9b::192.0.2.255"),
        Some(vec![0x64, 0xff9b, 0, 0, 0, 0, 0xc000, 0x02ff])
    );
    for text in [
        "1.2.3.4",
        "1.2.3.4::",
        "::1.2.3",
        "::1.2.3.256",
        "::01.2.3.4",
        "::1.2.3.4.5",
        "::1.2.3.4:5",
        "1:2:3:4:5:6:7:1.2.3.4",
        "1:2:3:4:5:6::1.2.3.4",
        "::1..3.4",
    ] {
        assert_eq!(segments_of(text), None, "{text}");
    }
}

#[test]
fn literal_name_with_ipv4_tail() {
    let r = scope_and_segments("--ffff-192.0.2.1s3.ipv6-literal.net", 0);
    assert_eq!(r, Ok(Some((vec![0, 0, 0, 0, 0, 0xffff, 0xc000, 0x0201], 3))));
}

#[test]
fn failures_carry_their_reason() {
    let resolver = Ipv6LiteralResolver::new();
    let unknown = resolver
        .resolve("fe80--93aa-4223-e7a4-9975snosuchiface0.ipv6-literal.net", 0)
        .err()
        .unwrap();
    assert_eq!(unknown.message(), "invalid IPv6 zone identifier");
    let missing = resolver.resolve("s5.ipv6-literal.net", 0).err().unwrap();
    assert_eq!(missing.message(), "ipv6-literal.net address must contain an IPv6 address");
    let nul = resolver.resolve("fe80--1seth\u{0}0.ipv6-literal.net", 0).err().unwrap();
    assert_eq!(nul.message(), "invalid IPv6 zone identifier (interior NUL)");
    let non_ascii = resolver.resolve("fe80--1s\u{e9}th0.ipv6-literal.net", 0).err().unwrap();
    assert_eq!(non_ascii.message(), "invalid IPv6 zone identifier");
}
