use vstd::prelude::*;
use crate::errors::DnsError;
use crate::parser::{
    spec_can_read_n, spec_parse_cstr, spec_parse_name, spec_read_u16, spec_read_u32, PacketParser,
};
use crate::query_class::QueryClass;
use crate::query_type::QueryType;

verus! {

/// The data carried by one resource record.  Addresses are held as
/// plain integers in network order: a 32-bit value for IPv4 and a
/// 128-bit value for IPv6.
#[derive(Debug)]
pub enum RecordData {
    A(u32),
    NS(Vec<u8>),
    CNAME(Vec<u8>),
    SOA {
        mname: Vec<u8>,
        rname: Vec<u8>,
        serial: u32,
        refresh: u32,
        retry: u32,
        expire: u32,
        minimum: u32,
    },
    PTR(Vec<u8>),
    HINFO { cpu: Vec<u8>, os: Vec<u8> },
    MX { preference: u16, exchange: Vec<u8> },
    TXT(Vec<u8>),
    AAAA(u128),
    SRV { priority: u16, weight: u16, port: u16, host: Vec<u8> },
    UNKNOWN(u16),
}

/// The mathematical shape of `RecordData`: byte strings as sequences.
pub enum RecordDataView {
    A(u32),
    NS(Seq<u8>),
    CNAME(Seq<u8>),
    SOA {
        mname: Seq<u8>,
        rname: Seq<u8>,
        serial: u32,
        refresh: u32,
        retry: u32,
        expire: u32,
        minimum: u32,
    },
    PTR(Seq<u8>),
    HINFO { cpu: Seq<u8>, os: Seq<u8> },
    MX { preference: u16, exchange: Seq<u8> },
    TXT(Seq<u8>),
    AAAA(u128),
    SRV { priority: u16, weight: u16, port: u16, host: Seq<u8> },
    UNKNOWN(u16),
}

impl View for RecordData {
    type V = RecordDataView;

    open spec fn view(&self) -> RecordDataView {
        match self {
            RecordData::A(addr) => RecordDataView::A(*addr),
            RecordData::NS(host) => RecordDataView::NS(host@),
            RecordData::CNAME(host) => RecordDataView::CNAME(host@),
            RecordData::SOA { mname, rname, serial, refresh, retry, expire, minimum } => (
                RecordDataView::SOA {
                    mname: mname@,
                    rname: rname@,
                    serial: *serial,
                    refresh: *refresh,
                    retry: *retry,
                    expire: *expire,
                    minimum: *minimum,
                }
            ),
            RecordData::PTR(host) => RecordDataView::PTR(host@),
            RecordData::HINFO { cpu, os } => (RecordDataView::HINFO { cpu: cpu@, os: os@ }),
            RecordData::MX { preference, exchange } => (
                RecordDataView::MX { preference: *preference, exchange: exchange@ }
            ),
            RecordData::TXT(text) => RecordDataView::TXT(text@),
            RecordData::AAAA(addr) => RecordDataView::AAAA(*addr),
            RecordData::SRV { priority, weight, port, host } => (
                RecordDataView::SRV {
                    priority: *priority,
                    weight: *weight,
                    port: *port,
                    host: host@,
                }
            ),
            RecordData::UNKNOWN(n) => RecordDataView::UNKNOWN(*n),
        }
    }
}

impl Default for RecordData {
    fn default() -> (r: Self)
        ensures
            r@ == RecordDataView::UNKNOWN(0),
    {
        RecordData::UNKNOWN(0)
    }
}

/// Copies a byte vector; the copy holds the same bytes.
pub fn clone_bytes(v: &Vec<u8>) -> (r: Vec<u8>)
    ensures
        r@ == v@,
{
    let r = v.clone();
    proof {
        assert(r@ =~= v@);
    }
    r
}

impl Clone for RecordData {
    fn clone(&self) -> (r: Self)
        ensures
            r@ == self@,
    {
        match self {
            RecordData::A(addr) => RecordData::A(*addr),
            RecordData::NS(host) => RecordData::NS(clone_bytes(host)),
            RecordData::CNAME(host) => RecordData::CNAME(clone_bytes(host)),
            RecordData::SOA { mname, rname, serial, refresh, retry, expire, minimum } => (
                RecordData::SOA {
                    mname: clone_bytes(mname),
                    rname: clone_bytes(rname),
                    serial: *serial,
                    refresh: *refresh,
                    retry: *retry,
                    expire: *expire,
                    minimum: *minimum,
                }
            ),
            RecordData::PTR(host) => RecordData::PTR(clone_bytes(host)),
            RecordData::HINFO { cpu, os } => (
                RecordData::HINFO { cpu: clone_bytes(cpu), os: clone_bytes(os) }
            ),
            RecordData::MX { preference, exchange } => (
                RecordData::MX { preference: *preference, exchange: clone_bytes(exchange) }
            ),
            RecordData::TXT(text) => RecordData::TXT(clone_bytes(text)),
            RecordData::AAAA(addr) => RecordData::AAAA(*addr),
            RecordData::SRV { priority, weight, port, host } => (
                RecordData::SRV {
                    priority: *priority,
                    weight: *weight,
                    port: *port,
                    host: clone_bytes(host),
                }
            ),
            RecordData::UNKNOWN(n) => RecordData::UNKNOWN(*n),
        }
    }
}

/// One resource record.  `len` is the rdata length read off the wire;
/// on serialisation the length prefix is recomputed instead.
#[derive(Debug)]
pub struct Record {
    /// Lowercased dotted owner name, without a trailing dot.
    pub domain: Vec<u8>,
    pub rtype: QueryType,
    pub rclass: QueryClass,
    pub ttl: u32,
    pub len: u16,
    pub data: RecordData,
}

/// The mathematical shape of a record.
pub struct RecordView {
    pub domain: Seq<u8>,
    pub rtype: QueryType,
    pub rclass: QueryClass,
    pub ttl: u32,
    pub len: u16,
    pub data: RecordDataView,
}

impl View for Record {
    type V = RecordView;

    open spec fn view(&self) -> RecordView {
        RecordView {
            domain: self.domain@,
            rtype: self.rtype,
            rclass: self.rclass,
            ttl: self.ttl,
            len: self.len,
            data: self.data@,
        }
    }
}

/// Parsing the rdata of a record of type `rtype` at `pos`.  Types the
/// codec does not model skip `rdlen` bytes (capped at the datagram
/// bound) and read back as `UNKNOWN`.
pub open spec fn spec_parse_rdata(buf: Seq<u8>, pos: int, rtype: QueryType, rdlen: u16) -> Result<
    (RecordDataView, int),
    DnsError,
> {
    match rtype {
        QueryType::A => if spec_can_read_n(buf, pos, 4) {
            Ok((RecordDataView::A(spec_read_u32(buf, pos)), pos + 4))
        } else {
            Err(DnsError::EndOfBuffer)
        },
        QueryType::NS => match spec_parse_name(buf, pos) {
            Ok((name, end)) => Ok((RecordDataView::NS(name), end)),
            Err(e) => Err(e),
        },
        QueryType::CNAME => match spec_parse_name(buf, pos) {
            Ok((name, end)) => Ok((RecordDataView::CNAME(name), end)),
            Err(e) => Err(e),
        },
        QueryType::PTR => match spec_parse_name(buf, pos) {
            Ok((name, end)) => Ok((RecordDataView::PTR(name), end)),
            Err(e) => Err(e),
        },
        QueryType::TXT => match spec_parse_cstr(buf, pos) {
            Ok((text, end)) => Ok((RecordDataView::TXT(text), end)),
            Err(e) => Err(e),
        },
        QueryType::HINFO => match spec_parse_cstr(buf, pos) {
            Ok((cpu, p1)) => match spec_parse_cstr(buf, p1) {
                Ok((os, end)) => Ok((RecordDataView::HINFO { cpu, os }, end)),
                Err(e) => Err(e),
            },
            Err(e) => Err(e),
        },
        QueryType::SOA => match spec_parse_name(buf, pos) {
            Ok((mname, p1)) => match spec_parse_name(buf, p1) {
                Ok((rname, p2)) => if spec_can_read_n(buf, p2, 20) {
                    Ok(
                        (
                            RecordDataView::SOA {
                                mname,
                                rname,
                                serial: spec_read_u32(buf, p2),
                                refresh: spec_read_u32(buf, p2 + 4),
                                retry: spec_read_u32(buf, p2 + 8),
                                expire: spec_read_u32(buf, p2 + 12),
                                minimum: spec_read_u32(buf, p2 + 16),
                            },
                            p2 + 20,
                        ),
                    )
                } else {
                    Err(DnsError::EndOfBuffer)
                },
                Err(e) => Err(e),
            },
            Err(e) => Err(e),
        },
        QueryType::MX => if spec_can_read_n(buf, pos, 2) {
            match spec_parse_name(buf, pos + 2) {
                Ok((exchange, end)) => Ok(
                    (
                        RecordDataView::MX { preference: spec_read_u16(buf, pos), exchange },
                        end,
                    ),
                ),
                Err(e) => Err(e),
            }
        } else {
            Err(DnsError::EndOfBuffer)
        },
        QueryType::AAAA => if spec_can_read_n(buf, pos, 16) {
            Ok(
                (
                    RecordDataView::AAAA(
                        (spec_read_u32(buf, pos) * 0x1000000000000000000000000 + spec_read_u32(
                            buf,
                            pos + 4,
                        ) * 0x10000000000000000 + spec_read_u32(buf, pos + 8) * 0x100000000
                            + spec_read_u32(buf, pos + 12)) as u128,
                    ),
                    pos + 16,
                ),
            )
        } else {
            Err(DnsError::EndOfBuffer)
        },
        QueryType::SRV => if spec_can_read_n(buf, pos, 6) {
            match spec_parse_name(buf, pos + 6) {
                Ok((host, end)) => Ok(
                    (
                        RecordDataView::SRV {
                            priority: spec_read_u16(buf, pos),
                            weight: spec_read_u16(buf, pos + 2),
                            port: spec_read_u16(buf, pos + 4),
                            host,
                        },
                        end,
                    ),
                ),
                Err(e) => Err(e),
            }
        } else {
            Err(DnsError::EndOfBuffer)
        },
        _ => Ok(
            (
                RecordDataView::UNKNOWN(rdlen),
                if pos + rdlen <= 512 {
                    pos + rdlen
                } else {
                    512
                },
            ),
        ),
    }
}

/// Parsing one record at `pos`: the owner name, the fixed fields, and
/// the rdata as its type dictates.
pub open spec fn spec_parse_record(buf: Seq<u8>, pos: int) -> Result<(RecordView, int), DnsError> {
    match spec_parse_name(buf, pos) {
        Ok((domain, p1)) => if spec_can_read_n(buf, p1, 10) {
            let rtype = QueryType::spec_from(spec_read_u16(buf, p1));
            let rclass = QueryClass::spec_from(spec_read_u16(buf, p1 + 2));
            let ttl = spec_read_u32(buf, p1 + 4);
            let rdlen = spec_read_u16(buf, p1 + 8);
            match spec_parse_rdata(buf, p1 + 10, rtype, rdlen) {
                Ok((data, end)) => Ok(
                    (RecordView { domain, rtype, rclass, ttl, len: rdlen, data }, end),
                ),
                Err(e) => Err(e),
            }
        } else {
            Err(DnsError::EndOfBuffer)
        },
        Err(e) => Err(e),
    }
}

impl Record {
    /// Reads one record off the parser's stream.
    #[verifier::rlimit(60)]
    pub fn parse(parser: &mut PacketParser) -> (r: Result<Record, DnsError>)
        ensures
            final(parser).spec_buf() == old(parser).spec_buf(),
            ({
                match spec_parse_record(old(parser).spec_buf(), old(parser).spec_offset() as int) {
                    Ok((rv, end)) => {
                        &&& r matches Ok(rec) && rec@ == rv
                        &&& final(parser).spec_offset() == end
                    },
                    Err(e) => r matches Err(e2) && e2 == e,
                }
            }),
    {
        let domain = parser.parse_domain_name()?;

        let rtype = QueryType::from(parser.next_u16()?);
        let rclass = QueryClass::from(parser.next_u16()?);
        let ttl = parser.next_u32()?;
        let len = parser.next_u16()?;

        let data = match rtype {
            QueryType::A => RecordData::A(parser.next_u32()?),
            QueryType::NS => RecordData::NS(parser.parse_domain_name()?),
            QueryType::CNAME => RecordData::CNAME(parser.parse_domain_name()?),
            QueryType::PTR => RecordData::PTR(parser.parse_domain_name()?),
            QueryType::TXT => RecordData::TXT(parser.next_cstring()?),
            QueryType::HINFO => {
                let cpu = parser.next_cstring()?;
                let os = parser.next_cstring()?;
                RecordData::HINFO { cpu, os }
            },
            QueryType::SOA => {
                let mname = parser.parse_domain_name()?;
                let rname = parser.parse_domain_name()?;
                RecordData::SOA {
                    mname,
                    rname,
                    serial: parser.next_u32()?,
                    refresh: parser.next_u32()?,
                    retry: parser.next_u32()?,
                    expire: parser.next_u32()?,
                    minimum: parser.next_u32()?,
                }
            },
            QueryType::MX => {
                let preference = parser.next_u16()?;
                let exchange = parser.parse_domain_name()?;
                RecordData::MX { preference, exchange }
            },
            QueryType::AAAA => {
                let a = parser.next_u32()?;
                let b = parser.next_u32()?;
                let c = parser.next_u32()?;
                let d = parser.next_u32()?;
                let addr: u128 = ((a as u128) << 96) | ((b as u128) << 64) | ((c as u128) << 32)
                    | (d as u128);
                proof {
                    let x = a as u128;
                    let y = b as u128;
                    let z = c as u128;
                    let w = d as u128;
                    assert(x < 0x100000000 && y < 0x100000000 && z < 0x100000000 && w < 0x100000000
                        ==> ((x << 96) | (y << 64) | (z << 32) | w) == x
                        * 0x1000000000000000000000000 + y * 0x10000000000000000 + z * 0x100000000
                        + w) by (bit_vector);
                }
                RecordData::AAAA(addr)
            },
            QueryType::SRV => {
                let priority = parser.next_u16()?;
                let weight = parser.next_u16()?;
                let port = parser.next_u16()?;
                let host = parser.parse_domain_name()?;
                RecordData::SRV { priority, weight, port, host }
            },
            _ => {
                // an unmodelled type: skip its rdata so the records
                // after it stay aligned
                let end32: u32 = (parser.offset() as u32) + (len as u32);
                let end: u16 = if end32 > 512 {
                    512
                } else {
                    end32 as u16
                };
                parser.seek(end)?;
                RecordData::UNKNOWN(len)
            },
        };

        Ok(Record { domain, rtype, rclass, ttl, len, data })
    }
}

impl Clone for Record {
    fn clone(&self) -> (r: Self)
        ensures
            r@ == self@,
    {
        Record {
            domain: clone_bytes(&self.domain),
            rtype: self.rtype,
            rclass: self.rclass,
            ttl: self.ttl,
            len: self.len,
            data: self.data.clone(),
        }
    }
}

impl Default for Record {
    fn default() -> (r: Self)
        ensures
            r@.domain == Seq::<u8>::empty(),
            r@.rtype == QueryType::A,
            r@.rclass == QueryClass::IN,
            r@.ttl == 0,
            r@.len == 0,
            r@.data == RecordDataView::UNKNOWN(0),
    {
        Record {
            domain: Vec::new(),
            rtype: QueryType::A,
            rclass: QueryClass::IN,
            ttl: 0,
            len: 0,
            data: RecordData::UNKNOWN(0),
        }
    }
}

} // verus!
