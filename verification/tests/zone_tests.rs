use mydns::query_type::QueryType;
use mydns::record::RecordData;
use mydns::zone::error::ParserErrorKind;
use mydns::zone::parser::Zone;

#[test]
fn zone_parse_records() {
    let lines: [&[u8]; 10] = [
        b"$ORIGIN example.com",
        b"$TTL 300",
        b"; the apex",
        b"example.com. IN SOA ns1.example.com. admin.example.com. ( 1 7200 3600 1209600 3600 )",
        b"www 60 IN A 10.0.0.1",
        b"     IN AAAA 2001:db8::1",
        b"mail IN MX 10 mx.example.com.",
        b"@ IN NS ns1",
        b"alias IN CNAME www",
        b"text IN TXT hello",
    ];
    let mut text: Vec<u8> = Vec::new();
    for line in lines {
        text.extend_from_slice(line);
        text.push(b'\n');
    }
    let zone = Zone::parse(text).unwrap();

    assert_eq!(zone.origin, b"example.com".to_vec());
    assert_eq!(zone.ttl, Some(300));
    assert_eq!(zone.records.len(), 7);

    assert_eq!(zone.records[0].rtype, QueryType::SOA);
    assert_eq!(zone.records[0].domain, b"example.com".to_vec());

    assert_eq!(zone.records[1].domain, b"www.example.com".to_vec());
    assert_eq!(zone.records[1].ttl, 60);
    match zone.records[1].data {
        RecordData::A(a) => assert_eq!(a, 0x0A000001),
        ref other => panic!("wrong data: {:?}", other),
    }

    // the leading whitespace reuses the previous owner
    assert_eq!(zone.records[2].domain, b"www.example.com".to_vec());
    assert_eq!(zone.records[2].rtype, QueryType::AAAA);
    assert_eq!(zone.records[2].ttl, 300);

    match &zone.records[3].data {
        RecordData::MX { preference, exchange } => {
            assert_eq!(*preference, 10);
            assert_eq!(exchange, &b"mx.example.com".to_vec());
        },
        other => panic!("wrong data: {:?}", other),
    }

    // `@` names the origin; a bare target is qualified by it
    assert_eq!(zone.records[4].domain, b"example.com".to_vec());
    match &zone.records[4].data {
        RecordData::NS(ns) => assert_eq!(ns, &b"ns1.example.com".to_vec()),
        other => panic!("wrong data: {:?}", other),
    }

    match &zone.records[5].data {
        RecordData::CNAME(c) => assert_eq!(c, &b"www.example.com".to_vec()),
        other => panic!("wrong data: {:?}", other),
    }

    match &zone.records[6].data {
        RecordData::TXT(t) => assert_eq!(t, &b"hello".to_vec()),
        other => panic!("wrong data: {:?}", other),
    }
}

#[test]
fn zone_without_soa_is_refused() {
    let text = b"$ORIGIN example.com\nwww IN A 10.0.0.1\n";
    let err = Zone::parse(text.to_vec()).unwrap_err();
    assert_eq!(err.err, ParserErrorKind::BadRecord);
}

#[test]
fn zone_errors() {
    // a class other than IN
    let text = b"$ORIGIN example.com\nwww IN SOA a. b. ( 1 2 3 4 5 )\nbad CH A 1.2.3.4\n";
    let err = Zone::parse(text.to_vec()).unwrap_err();
    assert_eq!(err.err, ParserErrorKind::BadRecord);

    // an unsupported directive
    let text = b"$INCLUDE other.zone\n";
    let err = Zone::parse(text.to_vec()).unwrap_err();
    assert_eq!(err.err, ParserErrorKind::BadDirective);

    // a truncated record
    let text = b"$ORIGIN example.com\nwww IN\n";
    let err = Zone::parse(text.to_vec()).unwrap_err();
    assert_eq!(err.err, ParserErrorKind::UnexpectedEOF);

    // `@` before any origin is set
    let text = b"@ IN A 1.2.3.4\n";
    let err = Zone::parse(text.to_vec()).unwrap_err();
    assert_eq!(err.err, ParserErrorKind::BadRecord);
}
