use mydns::addr::SockAddr;
use mydns::errors::DnsError;
use mydns::handler::Handler;
use mydns::packet::Packet;
use mydns::parser::PacketParser;
use mydns::query_class::QueryClass;
use mydns::query_type::QueryType;
use mydns::question::Question;
use mydns::record::{Record, RecordData};
use mydns::resolver::{AuthoritativeResolver, ForwardResolver, RecursiveResolver, Resolver};
use mydns::writer::PacketWriter;
use mydns::zone::parser::Zone;

/// A scripted upstream: every send is answered with the same bytes.
struct MockUpstream {
    reply: Vec<u8>,
}

impl Handler for MockUpstream {
    fn send(&mut self, _buf: &[u8]) -> Result<Vec<u8>, DnsError> {
        Ok(self.reply.clone())
    }

    fn send_to(&mut self, _buf: &[u8], _addrs: &[SockAddr]) -> Result<Vec<u8>, DnsError> {
        Ok(self.reply.clone())
    }
}

/// An upstream where every target has failed.
struct DeadUpstream;

impl Handler for DeadUpstream {
    fn send(&mut self, _buf: &[u8]) -> Result<Vec<u8>, DnsError> {
        Err(DnsError::AllTargetsFailed)
    }

    fn send_to(&mut self, _buf: &[u8], _addrs: &[SockAddr]) -> Result<Vec<u8>, DnsError> {
        Err(DnsError::AllTargetsFailed)
    }
}

fn a_record(owner: &[u8], addr: u32, ttl: u32) -> Record {
    Record {
        domain: owner.to_vec(),
        rtype: QueryType::A,
        rclass: QueryClass::IN,
        ttl,
        len: 0,
        data: RecordData::A(addr),
    }
}

#[test]
fn empty_question_count_formerr() {
    // a 12-byte header with QDCOUNT=0 and RD=1
    let buf: Vec<u8> = vec![0xAB, 0xCD, 0x01, 0x00, 0, 0, 0, 0, 0, 0, 0, 0];

    let mut resolver = ForwardResolver::new(DeadUpstream);
    let reply = resolver.resolve(&buf).unwrap();

    let parsed = PacketParser::new(&reply).parse().unwrap();
    assert_eq!(parsed.header.id, 0xABCD);
    assert!(parsed.header.response);
    assert!(parsed.header.recursion_available);
    assert_eq!(parsed.header.code, 1);
    assert_eq!(parsed.header.question_count, 0);
    assert_eq!(parsed.header.answer_count, 0);
    assert_eq!(parsed.header.authority_count, 0);
    assert_eq!(parsed.header.resource_count, 0);
}

#[test]
fn forwarding_mode_a_record() {
    // the upstream replies with one A record for example.com
    let mut upstream = Packet::new();
    upstream.header.id = 0x9999;
    upstream.header.response = true;
    upstream.header.question_count = 1;
    upstream.header.answer_count = 1;
    upstream.questions.push(Question::new(b"example.com".to_vec(), QueryType::A));
    upstream.answers.push(a_record(b"example.com", 0x5DB8D822, 300));
    let reply_bytes = PacketWriter::from(upstream).write().unwrap();

    // the query: id 0x1234, one question, example.com A IN
    let mut query = Packet::new();
    query.header.id = 0x1234;
    query.header.recursion_desired = true;
    query.header.question_count = 1;
    query.questions.push(Question::new(b"example.com".to_vec(), QueryType::A));
    let query_bytes = PacketWriter::from(query).write().unwrap();

    let mut resolver = ForwardResolver::new(MockUpstream { reply: reply_bytes });
    let reply = resolver.resolve(&query_bytes).unwrap();

    let parsed = PacketParser::new(&reply).parse().unwrap();
    assert_eq!(parsed.header.id, 0x1234);
    assert!(parsed.header.response);
    assert!(parsed.header.recursion_available);
    assert_eq!(parsed.header.answer_count, 1);
    assert_eq!(parsed.answers.len(), 1);
    assert_eq!(parsed.answers[0].domain, b"example.com".to_vec());
    assert_eq!(parsed.answers[0].ttl, 300);
    match parsed.answers[0].data {
        RecordData::A(addr) => assert_eq!(addr, 0x5DB8D822),  // 93.184.216.34
        ref other => panic!("wrong data: {:?}", other),
    }
}

#[test]
fn forwarding_failure_servfail() {
    let mut query = Packet::new();
    query.header.id = 7;
    query.header.question_count = 1;
    query.questions.push(Question::new(b"example.com".to_vec(), QueryType::A));
    let query_bytes = PacketWriter::from(query).write().unwrap();

    let mut resolver = ForwardResolver::new(DeadUpstream);
    let reply = resolver.resolve(&query_bytes).unwrap();

    let parsed = PacketParser::new(&reply).parse().unwrap();
    assert_eq!(parsed.header.code, 2);
}

#[test]
fn authoritative_nxdomain() {
    let zone_text = b"$ORIGIN example.com\nexample.com. 3600 IN SOA ns1.example.com. admin.example.com. ( 1 7200 3600 1209600 3600 )\n";
    let zone = Zone::parse(zone_text.to_vec()).unwrap();
    assert_eq!(zone.origin, b"example.com".to_vec());

    let mut resolver = AuthoritativeResolver::new();
    resolver.load_zone_at(&zone.origin, zone.records, 1000);

    // query unknown.example.com A
    let mut query = Packet::new();
    query.header.id = 0x0042;
    query.header.question_count = 1;
    query.questions.push(Question::new(b"unknown.example.com".to_vec(), QueryType::A));
    let query_bytes = PacketWriter::from(query).write().unwrap();

    let reply = resolver.resolve_at(&query_bytes, 1000).unwrap();
    let parsed = PacketParser::new(&reply).parse().unwrap();
    assert!(parsed.header.response);
    assert!(parsed.header.authoritative);
    assert!(!parsed.header.recursion_available);
    assert_eq!(parsed.header.code, 3);
    assert_eq!(parsed.header.answer_count, 0);
}

#[test]
fn authoritative_soa_fallback_and_known_name() {
    // the zone store is keyed by the origin: a question for the origin
    // name serves the zone's records
    let zone_text = b"$ORIGIN example.com\n$TTL 120\nexample.com. IN SOA ns1.example.com. admin.example.com. ( 1 7200 3600 1209600 3600 )\nwww IN A 1.2.3.4\n";
    let zone = Zone::parse(zone_text.to_vec()).unwrap();

    let mut resolver = AuthoritativeResolver::new();
    resolver.load_zone_at(&zone.origin, zone.records, 1000);

    // the zone's non-SOA record answers; the SOA is held back
    let mut query = Packet::new();
    query.header.question_count = 1;
    query.questions.push(Question::new(b"example.com".to_vec(), QueryType::A));
    let query_bytes = PacketWriter::from(query).write().unwrap();
    let reply = resolver.resolve_at(&query_bytes, 1000).unwrap();
    let parsed = PacketParser::new(&reply).parse().unwrap();
    assert_eq!(parsed.header.code, 0);
    assert_eq!(parsed.answers.len(), 1);
    assert_eq!(parsed.answers[0].domain, b"www.example.com".to_vec());
    match parsed.answers[0].data {
        RecordData::A(addr) => assert_eq!(addr, 0x01020304),
        ref other => panic!("wrong data: {:?}", other),
    }

    // with only an SOA stored, it is appended as the negative-caching
    // hint
    let soa_only = b"$ORIGIN soa-only.com\nsoa-only.com. IN SOA ns1.soa-only.com. admin.soa-only.com. ( 1 7200 3600 1209600 3600 )\n";
    let zone = Zone::parse(soa_only.to_vec()).unwrap();
    let mut resolver = AuthoritativeResolver::new();
    resolver.load_zone_at(&zone.origin, zone.records, 1000);

    let mut query = Packet::new();
    query.header.question_count = 1;
    query.questions.push(Question::new(b"soa-only.com".to_vec(), QueryType::A));
    let query_bytes = PacketWriter::from(query).write().unwrap();
    let reply = resolver.resolve_at(&query_bytes, 1000).unwrap();
    let parsed = PacketParser::new(&reply).parse().unwrap();
    assert_eq!(parsed.header.code, 0);
    assert_eq!(parsed.answers.len(), 1);
    assert_eq!(parsed.answers[0].rtype, QueryType::SOA);
}

#[test]
fn cname_following() {
    // the upstream returns the chain www.a.com CNAME a.com, a.com A 1.2.3.4
    let mut upstream = Packet::new();
    upstream.header.response = true;
    upstream.header.question_count = 1;
    upstream.header.answer_count = 2;
    upstream.questions.push(Question::new(b"www.a.com".to_vec(), QueryType::A));
    upstream.answers.push(Record {
        domain: b"www.a.com".to_vec(),
        rtype: QueryType::CNAME,
        rclass: QueryClass::IN,
        ttl: 60,
        len: 0,
        data: RecordData::CNAME(b"a.com".to_vec()),
    });
    upstream.answers.push(a_record(b"a.com", 0x01020304, 60));
    let reply_bytes = PacketWriter::from(upstream).write().unwrap();

    let mut query = Packet::new();
    query.header.id = 0x7777;
    query.header.recursion_desired = true;
    query.header.question_count = 1;
    query.questions.push(Question::new(b"www.a.com".to_vec(), QueryType::A));
    let query_bytes = PacketWriter::from(query).write().unwrap();

    let mut resolver = RecursiveResolver::new(MockUpstream { reply: reply_bytes }, 10);
    let reply = resolver.resolve(&query_bytes).unwrap();

    let parsed = PacketParser::new(&reply).parse().unwrap();
    assert_eq!(parsed.header.id, 0x7777);
    assert_eq!(parsed.answers.len(), 2);
    assert_eq!(parsed.answers[0].rtype, QueryType::CNAME);
    assert_eq!(parsed.answers[0].domain, b"www.a.com".to_vec());
    assert_eq!(parsed.answers[1].rtype, QueryType::A);
    assert_eq!(parsed.answers[1].domain, b"a.com".to_vec());
}

/// An upstream that serves scripted replies one send at a time.
struct SequencedUpstream {
    replies: Vec<Vec<u8>>,
    next: usize,
}

impl Handler for SequencedUpstream {
    fn send(&mut self, _buf: &[u8]) -> Result<Vec<u8>, DnsError> {
        let i = self.next;
        self.next += 1;
        match self.replies.get(i) {
            Some(r) => Ok(r.clone()),
            None => Err(DnsError::AllTargetsFailed),
        }
    }

    fn send_to(&mut self, buf: &[u8], _addrs: &[SockAddr]) -> Result<Vec<u8>, DnsError> {
        self.send(buf)
    }
}

#[test]
fn cname_following_across_two_replies() {
    // the chain arrives in two replies: first only the CNAME, then —
    // after the resolver restarts at the target — the A record; both
    // records belong in the final answer section
    let mut first = Packet::new();
    first.header.response = true;
    first.header.answer_count = 1;
    first.answers.push(Record {
        domain: b"www.a.com".to_vec(),
        rtype: QueryType::CNAME,
        rclass: QueryClass::IN,
        ttl: 60,
        len: 0,
        data: RecordData::CNAME(b"a.com".to_vec()),
    });
    let first_bytes = PacketWriter::from(first).write().unwrap();

    let mut second = Packet::new();
    second.header.response = true;
    second.header.answer_count = 1;
    second.answers.push(a_record(b"a.com", 0x01020304, 60));
    let second_bytes = PacketWriter::from(second).write().unwrap();

    let mut query = Packet::new();
    query.header.id = 0x2222;
    query.header.recursion_desired = true;
    query.header.question_count = 1;
    query.questions.push(Question::new(b"www.a.com".to_vec(), QueryType::A));
    let query_bytes = PacketWriter::from(query).write().unwrap();

    let upstream = SequencedUpstream { replies: vec![first_bytes, second_bytes], next: 0 };
    let mut resolver = RecursiveResolver::new(upstream, 10);
    let reply = resolver.resolve(&query_bytes).unwrap();

    let parsed = PacketParser::new(&reply).parse().unwrap();
    assert_eq!(parsed.answers.len(), 2);
    assert_eq!(parsed.answers[0].rtype, QueryType::CNAME);
    assert_eq!(parsed.answers[0].domain, b"www.a.com".to_vec());
    assert_eq!(parsed.answers[1].rtype, QueryType::A);
    assert_eq!(parsed.answers[1].domain, b"a.com".to_vec());
    match parsed.answers[1].data {
        RecordData::A(addr) => assert_eq!(addr, 0x01020304),
        ref other => panic!("wrong data: {:?}", other),
    }
}

#[test]
fn recursion_depth_limit() {
    let mut resolver = RecursiveResolver::new(DeadUpstream, 10);
    let q = Question::new(b"example.com".to_vec(), QueryType::A);
    let r = resolver.recursive_lookup(&q, None, 10);
    assert_eq!(r.err(), Some(DnsError::MaxDepthExceeded));
}
