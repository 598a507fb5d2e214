use mydns::errors::DnsError;
use mydns::header::Header;
use mydns::packet::Packet;
use mydns::parser::PacketParser;
use mydns::query_class::QueryClass;
use mydns::query_type::QueryType;
use mydns::question::Question;
use mydns::record::{Record, RecordData};
use mydns::writer::{write_domain, PacketWriter};

fn a_record(owner: &[u8], addr: u32, ttl: u32) -> Record {
    Record {
        domain: owner.to_vec(),
        rtype: QueryType::A,
        rclass: QueryClass::IN,
        ttl,
        len: 0,
        data: RecordData::A(addr),
    }
}

#[test]
fn plain_domain_encoding() {
    let encoded = write_domain(&b"www.example.com".to_vec()).unwrap();
    let mut expected = vec![3u8];
    expected.extend_from_slice(b"www");
    expected.push(7);
    expected.extend_from_slice(b"example");
    expected.push(3);
    expected.extend_from_slice(b"com");
    expected.push(0);
    assert_eq!(encoded, expected);

    // a label longer than 63 bytes is refused
    let long = vec![b'a'; 64];
    assert_eq!(write_domain(&long), Err(DnsError::BadLabel));
}

#[test]
fn header_round_trip() {
    let mut packet = Packet::new();
    packet.header.id = 0x1234;
    packet.header.response = true;
    packet.header.opcode = 2;
    packet.header.authoritative = true;
    packet.header.recursion_desired = true;
    packet.header.recursion_available = true;
    packet.header.code = 3;

    let bytes = PacketWriter::from(packet).write().unwrap();
    assert_eq!(bytes.len(), 12);

    let parsed = PacketParser::new(&bytes).parse().unwrap();
    let h: Header = parsed.header;
    assert_eq!(h.id, 0x1234);
    assert!(h.response);
    assert_eq!(h.opcode, 2);
    assert!(h.authoritative);
    assert!(!h.truncation);
    assert!(h.recursion_desired);
    assert!(h.recursion_available);
    assert_eq!(h.code, 3);
}

#[test]
fn name_compression_on_write() {
    // two records with the same owner: the second owner must be a
    // two-byte pointer to the first's offset
    let mut packet = Packet::new();
    packet.header.answer_count = 2;
    packet.answers.push(a_record(b"x.y.z", 0x01020304, 60));
    packet.answers.push(a_record(b"x.y.z", 0x05060708, 60));

    let bytes = PacketWriter::from(packet).write().unwrap();

    // header(12) + name(7) + type(2) + class(2) + ttl(4) + rdlen(2) + rdata(4)
    let second = 12 + 7 + 2 + 2 + 4 + 2 + 4;
    assert_eq!(bytes[second], 0xC0);
    assert_eq!(bytes[second + 1], 12);

    // and the datagram still decodes to both records
    let parsed = PacketParser::new(&bytes).parse().unwrap();
    assert_eq!(parsed.answers.len(), 2);
    assert_eq!(parsed.answers[0].domain, b"x.y.z".to_vec());
    assert_eq!(parsed.answers[1].domain, b"x.y.z".to_vec());
}

#[test]
fn codec_round_trip_many_types() {
    let mut packet = Packet::new();
    packet.header.id = 77;
    packet.header.question_count = 1;
    packet.header.answer_count = 5;
    packet.header.authority_count = 1;
    packet.header.resource_count = 1;
    packet.questions.push(Question::new(b"example.com".to_vec(), QueryType::A));
    packet.answers.push(a_record(b"example.com", 0xC0A80101, 300));
    packet.answers.push(Record {
        domain: b"example.com".to_vec(),
        rtype: QueryType::AAAA,
        rclass: QueryClass::IN,
        ttl: 300,
        len: 0,
        data: RecordData::AAAA(0x20010DB8_00000000_00000000_00000001),
    });
    packet.answers.push(Record {
        domain: b"example.com".to_vec(),
        rtype: QueryType::MX,
        rclass: QueryClass::IN,
        ttl: 300,
        len: 0,
        data: RecordData::MX { preference: 10, exchange: b"mail.example.com".to_vec() },
    });
    packet.answers.push(Record {
        domain: b"example.com".to_vec(),
        rtype: QueryType::TXT,
        rclass: QueryClass::IN,
        ttl: 300,
        len: 0,
        data: RecordData::TXT(b"hello world".to_vec()),
    });
    packet.answers.push(Record {
        domain: b"example.com".to_vec(),
        rtype: QueryType::SRV,
        rclass: QueryClass::IN,
        ttl: 300,
        len: 0,
        data: RecordData::SRV {
            priority: 1,
            weight: 5,
            port: 8080,
            host: b"svc.example.com".to_vec(),
        },
    });
    packet.authorities.push(Record {
        domain: b"example.com".to_vec(),
        rtype: QueryType::SOA,
        rclass: QueryClass::IN,
        ttl: 300,
        len: 0,
        data: RecordData::SOA {
            mname: b"ns1.example.com".to_vec(),
            rname: b"admin.example.com".to_vec(),
            serial: 1,
            refresh: 2,
            retry: 3,
            expire: 4,
            minimum: 5,
        },
    });
    packet.resources.push(Record {
        domain: b"ns1.example.com".to_vec(),
        rtype: QueryType::NS,
        rclass: QueryClass::IN,
        ttl: 300,
        len: 0,
        data: RecordData::NS(b"ns2.example.com".to_vec()),
    });

    let bytes = PacketWriter::from(packet).write().unwrap();
    let parsed = PacketParser::new(&bytes).parse().unwrap();

    // decode(encode(m)) equals m: re-encoding gives identical bytes
    let bytes2 = PacketWriter::from(parsed).write().unwrap();
    assert_eq!(bytes, bytes2);

    // and the decoded fields match the originals
    let parsed = PacketParser::new(&bytes).parse().unwrap();
    assert_eq!(parsed.header.id, 77);
    assert_eq!(parsed.questions.len(), 1);
    assert_eq!(parsed.questions[0].domain, b"example.com".to_vec());
    assert_eq!(parsed.answers.len(), 5);
    match &parsed.answers[1].data {
        RecordData::AAAA(v) => assert_eq!(*v, 0x20010DB8_00000000_00000000_00000001),
        other => panic!("wrong data: {:?}", other),
    }
    match &parsed.answers[2].data {
        RecordData::MX { preference, exchange } => {
            assert_eq!(*preference, 10);
            assert_eq!(exchange, &b"mail.example.com".to_vec());
        },
        other => panic!("wrong data: {:?}", other),
    }
    match &parsed.authorities[0].data {
        RecordData::SOA { serial, minimum, .. } => {
            assert_eq!(*serial, 1);
            assert_eq!(*minimum, 5);
        },
        other => panic!("wrong data: {:?}", other),
    }
}

#[test]
fn parser_lowercases_names() {
    let mut packet = Packet::new();
    packet.header.question_count = 1;
    packet.questions.push(Question::new(b"ExAmPlE.CoM".to_vec(), QueryType::A));
    let bytes = PacketWriter::from(packet).write().unwrap();
    let parsed = PacketParser::new(&bytes).parse().unwrap();
    assert_eq!(parsed.questions[0].domain, b"example.com".to_vec());
}

#[test]
fn parse_error_variants() {
    // a truncated header
    let parsed = PacketParser::new(&[0u8; 5]).parse();
    assert_eq!(parsed.err(), Some(DnsError::EndOfBuffer));

    // a compression pointer pointing at itself never resolves
    let mut looped = vec![0u8; 12];
    looped[5] = 1; // QDCOUNT = 1
    looped.push(0xC0);
    looped.push(12);
    looped.push(0);
    looped.push(1);
    looped.push(0);
    looped.push(1);
    let parsed = PacketParser::new(&looped).parse();
    assert_eq!(parsed.err(), Some(DnsError::MaxJumps));

    // a label length above 63 that is not a pointer
    let mut bad = vec![0u8; 12];
    bad[5] = 1; // QDCOUNT = 1
    bad.push(70);
    for _ in 0..70 {
        bad.push(b'a');
    }
    bad.push(0);
    bad.push(0);
    bad.push(1);
    bad.push(0);
    bad.push(1);
    let parsed = PacketParser::new(&bad).parse();
    assert_eq!(parsed.err(), Some(DnsError::BadLabel));
}

#[test]
fn probe_query_is_well_formed() {
    // the health probe writes as a parseable query: a twelve-byte
    // header, the root name as one zero byte, then type and class
    let probe = Packet::get_empty_packet();
    let bytes = PacketWriter::from(probe).write().unwrap();
    assert_eq!(bytes.len(), 12 + 1 + 2 + 2);
    assert_eq!(&bytes[12..], &[0, 0, 1, 0, 1]);

    let parsed = PacketParser::new(&bytes).parse().unwrap();
    assert_eq!(parsed.header.question_count, 1);
    assert_eq!(parsed.questions.len(), 1);
    assert_eq!(parsed.questions[0].domain, Vec::<u8>::new());
    assert!(parsed.header.recursion_desired);
    assert!(!parsed.header.response);
}
