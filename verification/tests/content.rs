use hamsando::ipv4::Ipv4Address;
use hamsando::ipv6::Ipv6Address;
use hamsando::record::{Content, ContentError, Type};

#[test]
fn type_tags_render() {
    assert_eq!(Type::A.as_str(), "A");
    assert_eq!(Type::Mx.as_str(), "MX");
    assert_eq!(Type::Cname.as_str(), "CNAME");
    assert_eq!(Type::Alias.as_str(), "ALIAS");
    assert_eq!(Type::Txt.as_str(), "TXT");
    assert_eq!(Type::Ns.as_str(), "NS");
    assert_eq!(Type::Aaaa.as_str(), "AAAA");
    assert_eq!(Type::Srv.as_str(), "SRV");
    assert_eq!(Type::Tlsa.as_str(), "TLSA");
    assert_eq!(Type::Caa.as_str(), "CAA");
    assert_eq!(Type::Https.as_str(), "HTTPS");
    assert_eq!(Type::Svcb.as_str(), "SVCB");
}

#[test]
fn type_tags_are_distinct_and_parse_back() {
    let all = [
        Type::A,
        Type::Mx,
        Type::Cname,
        Type::Alias,
        Type::Txt,
        Type::Ns,
        Type::Aaaa,
        Type::Srv,
        Type::Tlsa,
        Type::Caa,
        Type::Https,
        Type::Svcb,
    ];
    for (i, a) in all.iter().enumerate() {
        assert_eq!(Type::from_tag(a.as_str()), Some(*a));
        for (j, b) in all.iter().enumerate() {
            if i != j {
                assert_ne!(a.as_str(), b.as_str());
            }
        }
    }
    assert_eq!(Type::from_tag("BOGUS"), None);
    assert_eq!(Type::from_tag(""), None);
    assert_eq!(Type::from_tag("a"), None);
}

#[test]
fn ipv4_parses_dotted_quad() {
    assert_eq!(
        Ipv4Address::parse("203.0.113.5"),
        Some(Ipv4Address { a: 203, b: 0, c: 113, d: 5 })
    );
    assert_eq!(
        Ipv4Address::parse("0.0.0.0"),
        Some(Ipv4Address { a: 0, b: 0, c: 0, d: 0 })
    );
    assert_eq!(
        Ipv4Address::parse("255.255.255.255"),
        Some(Ipv4Address { a: 255, b: 255, c: 255, d: 255 })
    );
}

#[test]
fn ipv4_rejects_malformed() {
    assert_eq!(Ipv4Address::parse(""), None);
    assert_eq!(Ipv4Address::parse("1.2.3"), None);
    assert_eq!(Ipv4Address::parse("1.2.3.4.5"), None);
    assert_eq!(Ipv4Address::parse("256.1.1.1"), None);
    assert_eq!(Ipv4Address::parse("01.2.3.4"), None);
    assert_eq!(Ipv4Address::parse("1.2.3.04"), None);
    assert_eq!(Ipv4Address::parse("1.2.3."), None);
    assert_eq!(Ipv4Address::parse(".1.2.3.4"), None);
    assert_eq!(Ipv4Address::parse("a.b.c.d"), None);
    assert_eq!(Ipv4Address::parse("1..2.3"), None);
}

#[test]
fn ipv4_round_trips() {
    for text in ["203.0.113.5", "0.0.0.0", "10.0.200.1", "255.255.255.255"] {
        let v = Ipv4Address::parse(text).unwrap();
        assert_eq!(v.render(), text);
        assert_eq!(Ipv4Address::parse(&v.render()), Some(v));
    }
}

#[test]
fn ipv6_parses_standard_forms() {
    assert_eq!(
        Ipv6Address::parse("1:2:3:4:5:6:7:8"),
        Some(Ipv6Address { s0: 1, s1: 2, s2: 3, s3: 4, s4: 5, s5: 6, s6: 7, s7: 8 })
    );
    assert_eq!(
        Ipv6Address::parse("::"),
        Some(Ipv6Address { s0: 0, s1: 0, s2: 0, s3: 0, s4: 0, s5: 0, s6: 0, s7: 0 })
    );
    assert_eq!(
        Ipv6Address::parse("::1"),
        Some(Ipv6Address { s0: 0, s1: 0, s2: 0, s3: 0, s4: 0, s5: 0, s6: 0, s7: 1 })
    );
    assert_eq!(
        Ipv6Address::parse("2001:db8::8a2e:370:7334"),
        Some(Ipv6Address {
            s0: 0x2001,
            s1: 0xdb8,
            s2: 0,
            s3: 0,
            s4: 0,
            s5: 0x8a2e,
            s6: 0x370,
            s7: 0x7334
        })
    );
    // Uppercase hex and leading zeros are accepted.
    assert_eq!(
        Ipv6Address::parse("2001:0DB8:0:0:0:0:0:0001"),
        Some(Ipv6Address { s0: 0x2001, s1: 0xdb8, s2: 0, s3: 0, s4: 0, s5: 0, s6: 0, s7: 1 })
    );
    // Trailing "::" stands for a single zero group.
    assert_eq!(
        Ipv6Address::parse("1:2:3:4:5:6:7::"),
        Some(Ipv6Address { s0: 1, s1: 2, s2: 3, s3: 4, s4: 5, s5: 6, s6: 7, s7: 0 })
    );
    // Embedded dotted-quad tail.
    assert_eq!(
        Ipv6Address::parse("::ffff:192.0.2.128"),
        Some(Ipv6Address {
            s0: 0,
            s1: 0,
            s2: 0,
            s3: 0,
            s4: 0,
            s5: 0xffff,
            s6: 0xc000,
            s7: 0x0280
        })
    );
}

#[test]
fn ipv6_rejects_malformed() {
    assert_eq!(Ipv6Address::parse(""), None);
    assert_eq!(Ipv6Address::parse(":"), None);
    assert_eq!(Ipv6Address::parse(":::"), None);
    assert_eq!(Ipv6Address::parse("1::2::3"), None);
    assert_eq!(Ipv6Address::parse("1:2:3:4:5:6:7"), None);
    assert_eq!(Ipv6Address::parse("1:2:3:4:5:6:7:8:9"), None);
    assert_eq!(Ipv6Address::parse("1:2:3:4:5:6:7:8::"), None);
    assert_eq!(Ipv6Address::parse("12345::"), None);
    assert_eq!(Ipv6Address::parse("g::1"), None);
    assert_eq!(Ipv6Address::parse("1.2.3.4"), None);
    assert_eq!(Ipv6Address::parse("::ffff:1.2.3.4:5"), None);
}

#[test]
fn ipv6_renders_canonical_compressed_form() {
    let cases = [
        ("2001:0DB8:0:0:0:0:0:0001", "2001:db8::1"),
        ("0:0:0:0:0:0:0:0", "::"),
        ("0:0:0:0:0:0:0:1", "::1"),
        ("1:2:3:4:5:6:7:8", "1:2:3:4:5:6:7:8"),
        // A single zero group is not compressed.
        ("1:0:2:3:4:5:6:7", "1:0:2:3:4:5:6:7"),
        // The longest run wins ...
        ("1:0:0:2:0:0:0:3", "1:0:0:2::3"),
        // ... and the leftmost on a tie.
        ("0:0:1:0:0:2:3:4", "::1:0:0:2:3:4"),
        ("1:2:3:4:5:6:7:0", "1:2:3:4:5:6:7:0"),
        ("1:2:3:4:5:6:0:0", "1:2:3:4:5:6::"),
        // An IPv4-mapped address keeps its dotted-quad tail.
        ("::ffff:192.0.2.128", "::ffff:192.0.2.128"),
        ("0:0:0:0:0:ffff:c000:280", "::ffff:192.0.2.128"),
        // ... but other embedded quads render in hex.
        ("::10.0.0.7", "::a00:7"),
    ];
    for (input, canonical) in cases {
        let v = Ipv6Address::parse(input).unwrap();
        assert_eq!(v.render(), canonical);
        // Round trip: the canonical form reads back to the same address.
        assert_eq!(Ipv6Address::parse(&v.render()), Some(v));
    }
}

#[test]
fn content_parse_accepts_each_type() {
    let c = Content::parse("A", "203.0.113.5").unwrap();
    assert_eq!(c.type_as_str(), "A");
    assert_eq!(c.value_to_string(), "203.0.113.5");

    let c = Content::parse("AAAA", "2001:db8::1").unwrap();
    assert_eq!(c.type_as_str(), "AAAA");
    assert_eq!(c.value_to_string(), "2001:db8::1");

    let c = Content::parse("TXT", "v=spf1 -all").unwrap();
    assert_eq!(c.type_as_str(), "TXT");
    assert_eq!(c.value_to_string(), "v=spf1 -all");

    let c = Content::parse("MX", "10 mail.example.com").unwrap();
    assert_eq!(c.type_as_str(), "MX");
    assert_eq!(c.value_to_string(), "10 mail.example.com");
}

#[test]
fn content_parse_reports_each_error() {
    assert_eq!(Content::parse("FOO", "x"), Err(ContentError::UnknownType));
    assert_eq!(Content::parse("", "x"), Err(ContentError::UnknownType));
    assert_eq!(
        Content::parse("A", "not-an-address"),
        Err(ContentError::MalformedAddress)
    );
    assert_eq!(
        Content::parse("A", "2001:db8::1"),
        Err(ContentError::MalformedAddress)
    );
    assert_eq!(
        Content::parse("AAAA", "203.0.113.5"),
        Err(ContentError::MalformedAddress)
    );
    // Free-form types never fail to parse.
    assert!(Content::parse("CNAME", "").is_ok());
}

#[test]
fn content_wire_round_trip() {
    // Rendering and re-parsing under the same tag gives equal content, even
    // from a non-canonical source string.
    for (tag, value) in [
        ("A", "203.0.113.5"),
        ("AAAA", "2001:0DB8:0:0:0:0:0:1"),
        ("AAAA", "::FFFF:10.0.0.7"),
        ("TXT", "hello world"),
        ("SRV", "0 5 5060 sip.example.com"),
    ] {
        let first = Content::parse(tag, value).unwrap();
        let again = Content::parse(tag, &first.value_to_string()).unwrap();
        assert_eq!(first, again);
    }
}

#[test]
fn content_equality_is_structural() {
    let a1 = Content::parse("A", "203.0.113.5").unwrap();
    let a2 = Content::A(Ipv4Address { a: 203, b: 0, c: 113, d: 5 });
    assert_eq!(a1, a2);
    let a3 = Content::A(Ipv4Address { a: 203, b: 0, c: 113, d: 6 });
    assert_ne!(a1, a3);
    // Same wire string under different types is different content.
    let t1 = Content::Txt(String::from("x"));
    let t2 = Content::Cname(String::from("x"));
    assert_ne!(t1, t2);
    assert_eq!(t1, Content::Txt(String::from("x")));
}

#[test]
fn content_type_agrees_with_tag() {
    let values = [
        Content::A(Ipv4Address { a: 1, b: 2, c: 3, d: 4 }),
        Content::Aaaa(Ipv6Address { s0: 0, s1: 0, s2: 0, s3: 0, s4: 0, s5: 0, s6: 0, s7: 1 }),
        Content::Mx(String::from("10 mail")),
        Content::Txt(String::from("x")),
        Content::Svcb(String::from("1 .")),
    ];
    for c in values {
        let t = Type::from(&c);
        assert_eq!(c.type_as_str(), t.as_str());
        assert_eq!(Type::from_tag(c.type_as_str()), Some(t));
    }
}
