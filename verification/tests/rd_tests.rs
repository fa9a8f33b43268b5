use bmp_rib::net::Ipv4Address;
use bmp_rib::rd::RouteDistinguisher;
use zettabgp::afi::BgpRD;

#[test]
fn decode_route_distingisher_from_string() {
    let default = RouteDistinguisher::parse(b"0:0");
    let rd_type0 = RouteDistinguisher::parse(b"1234:5678");
    let rd_type1 = RouteDistinguisher::parse(b"10.0.0.1:5678");
    let rd_type2 = RouteDistinguisher::parse(b"70000:1234");
    assert_eq!(default, Some(RouteDistinguisher::Default));
    assert_eq!(
        rd_type0,
        Some(RouteDistinguisher::Type0 {
            asn: 1234,
            value: 5678
        })
    );
    assert_eq!(
        rd_type1,
        Some(RouteDistinguisher::Type1 {
            ip: Ipv4Address::from_octets(10, 0, 0, 1),
            value: 5678
        })
    );
    assert_eq!(
        rd_type2,
        Some(RouteDistinguisher::Type2 {
            asn: 70000,
            value: 1234
        })
    );

    assert!(RouteDistinguisher::parse(b"70000:70000").is_none());
    assert!(RouteDistinguisher::parse(b"10.0.0.1:70000").is_none());
}

#[test]
fn encode_route_distingisher() {
    assert_eq!(
        b"1234:5678".to_vec(),
        RouteDistinguisher::Type0 {
            asn: 1234,
            value: 5678
        }
        .to_text()
    );
    assert_eq!(
        b"192.1.2.3:5678".to_vec(),
        RouteDistinguisher::Type1 {
            ip: Ipv4Address::from_octets(192, 1, 2, 3),
            value: 5678
        }
        .to_text()
    );
    assert_eq!(
        b"70000:1234".to_vec(),
        RouteDistinguisher::Type2 {
            asn: 70000,
            value: 1234
        }
        .to_text()
    );
}

#[test]
fn decode_route_distingisher_from_zettabgp_rd() {
    let rd = BgpRD {
        rdh: u32::from_be_bytes([0, 0, 0, 0]),
        rdl: u32::from_be_bytes([0, 0, 0, 0]),
    };
    let default = RouteDistinguisher::from_wire(rd.rdh, rd.rdl);
    assert_eq!(default, Ok(RouteDistinguisher::Default));

    let rd = BgpRD {
        rdh: u32::from_be_bytes([0, 0, 0x12, 0x34]),
        rdl: u32::from_be_bytes([0, 0, 0x56, 0x78]),
    };
    let rd_type0 = RouteDistinguisher::from_wire(rd.rdh, rd.rdl);
    assert_eq!(
        rd_type0,
        Ok(RouteDistinguisher::Type0 {
            asn: 0x1234,
            value: 0x5678
        })
    );

    let rd = BgpRD {
        rdh: u32::from_be_bytes([0, 1, 10, 0]),
        rdl: u32::from_be_bytes([0, 255, 0x56, 0x78]),
    };
    let rd_type1 = RouteDistinguisher::from_wire(rd.rdh, rd.rdl);
    assert_eq!(
        rd_type1,
        Ok(RouteDistinguisher::Type1 {
            ip: Ipv4Address::from_octets(10, 0, 0, 255),
            value: 0x5678
        })
    );

    let rd = BgpRD {
        rdh: u32::from_be_bytes([0, 2, 0x43, 0x21]),
        rdl: u32::from_be_bytes([0x98, 0x76, 0x54, 0x32]),
    };
    let rd_type2 = RouteDistinguisher::from_wire(rd.rdh, rd.rdl);
    assert_eq!(
        rd_type2,
        Ok(RouteDistinguisher::Type2 {
            asn: 0x43219876,
            value: 0x5432
        })
    );
}

#[test]
fn wire_round_trips() {
    // decode then re-encode reproduces the wire pair
    for (high, low) in [
        (0u32, 0u32),
        (0x0000_04d2, 0x0000_162e),
        (0x0001_0a00, 0x00ff_5678),
        (0x0002_4321, 0x9876_5432),
    ] {
        let rd = RouteDistinguisher::from_wire(high, low).unwrap();
        assert_eq!(rd.to_wire(), (high, low));
    }
    // an unknown type tag fails carrying the tag
    assert_eq!(
        RouteDistinguisher::from_wire(0x0007_0001, 5),
        Err(7u16)
    );
    // encode then decode reproduces the value
    let rd = RouteDistinguisher::Type2 {
        asn: 70000,
        value: 12,
    };
    let (h, l) = rd.to_wire();
    assert_eq!(RouteDistinguisher::from_wire(h, l), Ok(rd));
}

#[test]
fn text_round_trips() {
    for text in [
        &b"0:0"[..],
        b"1:4294967295",
        b"65535:0",
        b"70000:65535",
        b"0.0.0.0:0",
        b"255.255.255.255:65535",
    ] {
        let rd = RouteDistinguisher::parse(text).unwrap();
        assert_eq!(rd.to_text(), text.to_vec());
    }
    // a sixteen-bit left side parses as type zero even with a large right side
    assert_eq!(
        RouteDistinguisher::parse(b"2222:1000000"),
        Some(RouteDistinguisher::Type0 {
            asn: 2222,
            value: 1000000
        })
    );
    // rejected forms
    assert!(RouteDistinguisher::parse(b"").is_none());
    assert!(RouteDistinguisher::parse(b"12").is_none());
    assert!(RouteDistinguisher::parse(b"a:1").is_none());
    assert!(RouteDistinguisher::parse(b"1:a").is_none());
    assert!(RouteDistinguisher::parse(b"10.0.0:1").is_none());
    assert!(RouteDistinguisher::parse(b"4294967296:1").is_none());
}
