use vstd::prelude::*;
use crate::errors::DnsError;
use crate::header::Header;
use crate::packet::{spec_questions, spec_records, Packet, PacketView};
use crate::query_class::QueryClass;
use crate::query_type::QueryType;
use crate::question::{Question, QuestionView};
use crate::record::{spec_parse_record, Record, RecordView};
use crate::util::u16_to_u8;

verus! {

/// ASCII uppercase letters fold to lowercase; all other bytes stay.
pub open spec fn spec_lower(b: u8) -> u8 {
    if 65 <= b <= 90 {
        (b + 32) as u8
    } else {
        b
    }
}

pub open spec fn spec_lower_seq(s: Seq<u8>) -> Seq<u8> {
    s.map_values(|b: u8| spec_lower(b))
}

/// A single byte is readable: inside the buffer and inside the 512-byte
/// datagram bound.
pub open spec fn spec_can_read(buf: Seq<u8>, pos: int) -> bool {
    0 <= pos < 512 && pos < buf.len()
}

/// The big-endian 16-bit value at `pos`.
pub open spec fn spec_read_u16(buf: Seq<u8>, pos: int) -> u16 {
    (buf[pos] * 256 + buf[pos + 1]) as u16
}

/// The big-endian 32-bit value at `pos`.
pub open spec fn spec_read_u32(buf: Seq<u8>, pos: int) -> u32 {
    (buf[pos] * 0x1000000 + buf[pos + 1] * 0x10000 + buf[pos + 2] * 0x100 + buf[pos + 3]) as u32
}

/// What reading a name at `pos` yields, `jumps` pointer follows deep,
/// with `acc` holding the labels already gathered.  On success the
/// second component is where the parser's stream continues: just past
/// the name, or just past the first pointer once one was followed.
///
/// A length byte with both top bits set is a 14-bit pointer; a zero
/// byte ends the name; any other length up to 63 prefixes a label,
/// which is lowercased and joined to `acc` with a dot.  More than six
/// pointer follows fail with `MaxJumps`, a length above 63 with
/// `BadLabel`, and any read outside the buffer with `EndOfBuffer`.
pub open spec fn spec_parse_name_at(buf: Seq<u8>, pos: int, jumps: int, acc: Seq<u8>) -> Result<
    (Seq<u8>, int),
    DnsError,
>
    decreases 7 - jumps, (if 0 <= pos < 0x4000 { 0x4000 - pos } else { 0 }),
{
    if jumps > 6 {
        Err(DnsError::MaxJumps)
    } else if !spec_can_read(buf, pos) {
        Err(DnsError::EndOfBuffer)
    } else {
        let len = buf[pos];
        if len >= 0xC0 {
            if !spec_can_read(buf, pos + 1) {
                Err(DnsError::EndOfBuffer)
            } else {
                let ptr = (len - 0xC0) * 256 + buf[pos + 1];
                match spec_parse_name_at(buf, ptr as int, jumps + 1, acc) {
                    Ok((name, end)) => if jumps == 0 {
                        Ok((name, pos + 2))
                    } else {
                        Ok((name, end))
                    },
                    Err(e) => Err(e),
                }
            }
        } else if len == 0 {
            Ok((acc, pos + 1))
        } else if len > 63 {
            Err(DnsError::BadLabel)
        } else if pos + 1 + len > 512 || pos + 1 + len > buf.len() {
            Err(DnsError::EndOfBuffer)
        } else {
            let lab = spec_lower_seq(buf.subrange(pos + 1, pos + 1 + len));
            let acc2 = if acc.len() == 0 {
                lab
            } else {
                acc + seq![46u8] + lab
            };
            spec_parse_name_at(buf, pos + 1 + len, jumps, acc2)
        }
    }
}

/// Reading a name from `pos` with a fresh stream.
pub open spec fn spec_parse_name(buf: Seq<u8>, pos: int) -> Result<(Seq<u8>, int), DnsError> {
    spec_parse_name_at(buf, pos, 0, seq![])
}

/// The header a 12-byte prefix decodes to.
pub open spec fn spec_header_from_bytes(buf: Seq<u8>) -> Header {
    Header {
        id: spec_read_u16(buf, 0),
        response: (buf[2] / 128) % 2 == 1,
        opcode: ((buf[2] / 8) % 16) as u8,
        authoritative: (buf[2] / 4) % 2 == 1,
        truncation: (buf[2] / 2) % 2 == 1,
        recursion_desired: buf[2] % 2 == 1,
        recursion_available: (buf[3] / 128) % 2 == 1,
        reserved: ((buf[3] / 16) % 8) as u8,
        code: (buf[3] % 16) as u8,
        question_count: spec_read_u16(buf, 4),
        answer_count: spec_read_u16(buf, 6),
        authority_count: spec_read_u16(buf, 8),
        resource_count: spec_read_u16(buf, 10),
    }
}

/// Parsing the header: the first 12 bytes, or `EndOfBuffer`.
pub open spec fn spec_parse_header(buf: Seq<u8>) -> Result<Header, DnsError> {
    if buf.len() < 12 {
        Err(DnsError::EndOfBuffer)
    } else {
        Ok(spec_header_from_bytes(buf))
    }
}

/// The next `n` bytes are all readable.
pub open spec fn spec_can_read_n(buf: Seq<u8>, pos: int, n: int) -> bool {
    0 <= pos && pos + n <= 512 && pos + n <= buf.len()
}

/// Parsing a question at `pos`: a name, then type and class codes.
pub open spec fn spec_parse_question_at(buf: Seq<u8>, pos: int) -> Result<
    (QuestionView, int),
    DnsError,
> {
    match spec_parse_name(buf, pos) {
        Ok((name, end)) => if spec_can_read_n(buf, end, 4) {
            Ok(
                (
                    QuestionView {
                        domain: name,
                        qtype: QueryType::spec_from(spec_read_u16(buf, end)),
                        qclass: QueryClass::spec_from(spec_read_u16(buf, end + 2)),
                    },
                    end + 4,
                ),
            )
        } else {
            Err(DnsError::EndOfBuffer)
        },
        Err(e) => Err(e),
    }
}

/// Parsing `n` questions one after another from `pos`.
pub open spec fn spec_parse_questions(buf: Seq<u8>, pos: int, n: int) -> Result<
    (Seq<QuestionView>, int),
    DnsError,
>
    decreases n,
{
    if n <= 0 {
        Ok((seq![], pos))
    } else {
        match spec_parse_question_at(buf, pos) {
            Ok((q, p)) => match spec_parse_questions(buf, p, n - 1) {
                Ok((qs, end)) => Ok((seq![q] + qs, end)),
                Err(e) => Err(e),
            },
            Err(e) => Err(e),
        }
    }
}

/// Parsing `n` records one after another from `pos`.
pub open spec fn spec_parse_records(buf: Seq<u8>, pos: int, n: int) -> Result<
    (Seq<RecordView>, int),
    DnsError,
>
    decreases n,
{
    if n <= 0 {
        Ok((seq![], pos))
    } else {
        match spec_parse_record(buf, pos) {
            Ok((rec, p)) => match spec_parse_records(buf, p, n - 1) {
                Ok((rs, end)) => Ok((seq![rec] + rs, end)),
                Err(e) => Err(e),
            },
            Err(e) => Err(e),
        }
    }
}

/// Parsing a whole message: the header, then as many questions and
/// records as its counts announce.
#[verifier::opaque]
pub open spec fn spec_parse_packet(buf: Seq<u8>) -> Result<PacketView, DnsError> {
    match spec_parse_header(buf) {
        Err(e) => Err(e),
        Ok(h) => match spec_parse_questions(buf, 12, h.question_count as int) {
            Err(e) => Err(e),
            Ok((qs, p1)) => match spec_parse_records(buf, p1, h.answer_count as int) {
                Err(e) => Err(e),
                Ok((ans, p2)) => match spec_parse_records(buf, p2, h.authority_count as int) {
                    Err(e) => Err(e),
                    Ok((auth, p3)) => match spec_parse_records(buf, p3, h.resource_count as int) {
                        Err(e) => Err(e),
                        Ok((res, _p4)) => Ok(
                            PacketView {
                                header: h,
                                questions: qs,
                                answers: ans,
                                authorities: auth,
                                resources: res,
                            },
                        ),
                    },
                },
            },
        },
    }
}

/// Parsing a character-string at `pos`: one length byte, then that
/// many raw bytes.
pub open spec fn spec_parse_cstr(buf: Seq<u8>, pos: int) -> Result<(Seq<u8>, int), DnsError> {
    if !spec_can_read(buf, pos) {
        Err(DnsError::EndOfBuffer)
    } else {
        let n = buf[pos];
        if pos + 1 + n > 512 || pos + 1 + n > buf.len() {
            Err(DnsError::EndOfBuffer)
        } else {
            Ok((buf.subrange(pos + 1, pos + 1 + n), pos + 1 + n))
        }
    }
}

/// Lowercases every byte of a label.
pub fn lower_bytes(s: &[u8]) -> (r: Vec<u8>)
    ensures
        r@ == spec_lower_seq(s@),
{
    let mut r: Vec<u8> = Vec::new();
    let mut i: usize = 0;
    while i < s.len()
        invariant
            0 <= i <= s@.len(),
            r@.len() == i,
            forall|k: int| 0 <= k < i ==> #[trigger] r@[k] == spec_lower(s@[k]),
        decreases s@.len() - i,
    {
        let b: u8 = s[i];
        if 65 <= b && b <= 90 {
            r.push(b + 32);
        } else {
            r.push(b);
        }
        i = i + 1;
    }
    proof {
        assert(r@ =~= spec_lower_seq(s@));
    }
    r
}

/// A cursor over one received datagram.
pub struct PacketParser {
    buf: Vec<u8>,
    offset: u16,
}

impl PacketParser {
    /// The bytes under the cursor.
    pub closed spec fn spec_buf(&self) -> Seq<u8> {
        self.buf@
    }

    /// The cursor's position.
    pub closed spec fn spec_offset(&self) -> u16 {
        self.offset
    }

    pub fn new(data: &[u8]) -> (r: PacketParser)
        ensures
            r.spec_buf() == data@,
            r.spec_offset() == 0,
    {
        let mut buf: Vec<u8> = Vec::new();
        let mut i: usize = 0;
        while i < data.len()
            invariant
                0 <= i <= data@.len(),
                buf@ == data@.subrange(0, i as int),
            decreases data@.len() - i,
        {
            buf.push(data[i]);
            proof {
                assert(buf@ =~= data@.subrange(0, i as int + 1));
            }
            i = i + 1;
        }
        proof {
            assert(buf@ =~= data@);
        }
        PacketParser { buf, offset: 0 }
    }

    pub fn bytes(&self) -> (r: &[u8])
        ensures
            r@ == self.spec_buf(),
    {
        self.buf.as_slice()
    }

    pub fn offset(&self) -> (r: u16)
        ensures
            r == self.spec_offset(),
    {
        self.offset
    }

    pub fn seek(&mut self, n: u16) -> (r: Result<(), DnsError>)
        ensures
            final(self).spec_buf() == old(self).spec_buf(),
            final(self).spec_offset() == n,
            r matches Ok(v) && v == (),
    {
        self.offset = n;

        Ok(())
    }

    pub fn next(&mut self) -> (r: Result<u8, DnsError>)
        ensures
            final(self).spec_buf() == old(self).spec_buf(),
            spec_can_read(old(self).spec_buf(), old(self).spec_offset() as int) ==> {
                &&& r matches Ok(b) && b == old(self).spec_buf()[old(self).spec_offset() as int]
                &&& final(self).spec_offset() == old(self).spec_offset() + 1
            },
            !spec_can_read(old(self).spec_buf(), old(self).spec_offset() as int) ==> {
                &&& r matches Err(e) && e == DnsError::EndOfBuffer
                &&& final(self).spec_offset() == old(self).spec_offset()
            },
    {
        if self.offset >= 512 {
            return Err(DnsError::EndOfBuffer);
        }
        if (self.offset as usize) >= self.buf.len() {
            return Err(DnsError::EndOfBuffer);
        }

        let res = self.buf[self.offset as usize];
        self.offset = self.offset + 1;

        Ok(res)
    }

    pub fn next_u16(&mut self) -> (r: Result<u16, DnsError>)
        ensures
            final(self).spec_buf() == old(self).spec_buf(),
            ({
                let buf = old(self).spec_buf();
                let pos = old(self).spec_offset() as int;
                if spec_can_read(buf, pos) && spec_can_read(buf, pos + 1) {
                    &&& r matches Ok(v) && v == spec_read_u16(buf, pos)
                    &&& final(self).spec_offset() == pos + 2
                } else {
                    r matches Err(e) && e == DnsError::EndOfBuffer
                }
            }),
    {
        let a = self.next()?;
        let b = self.next()?;

        let res: u16 = ((a as u16) << 8) | (b as u16);
        proof {
            let x = a as u16;
            let y = b as u16;
            assert(x < 0x100 && y < 0x100 ==> ((x << 8) | y) == x * 256 + y) by (bit_vector);
        }

        Ok(res)
    }

    pub fn next_u32(&mut self) -> (r: Result<u32, DnsError>)
        ensures
            final(self).spec_buf() == old(self).spec_buf(),
            ({
                let buf = old(self).spec_buf();
                let pos = old(self).spec_offset() as int;
                if spec_can_read(buf, pos) && spec_can_read(buf, pos + 1) && spec_can_read(
                    buf,
                    pos + 2,
                ) && spec_can_read(buf, pos + 3) {
                    &&& r matches Ok(v) && v == spec_read_u32(buf, pos)
                    &&& final(self).spec_offset() == pos + 4
                } else {
                    r matches Err(e) && e == DnsError::EndOfBuffer
                }
            }),
    {
        let a = self.next()?;
        let b = self.next()?;
        let c = self.next()?;
        let d = self.next()?;

        let res: u32 = ((a as u32) << 24) | ((b as u32) << 16) | ((c as u32) << 8) | (d as u32);
        proof {
            let x = a as u32;
            let y = b as u32;
            let z = c as u32;
            let w = d as u32;
            assert(x < 0x100 && y < 0x100 && z < 0x100 && w < 0x100 ==> ((x << 24) | (y << 16) | (
            z << 8) | w) == x * 0x1000000 + y * 0x10000 + z * 0x100 + w) by (bit_vector);
        }

        Ok(res)
    }

    pub fn get(&self, n: u16) -> (r: Result<u8, DnsError>)
        ensures
            spec_can_read(self.spec_buf(), n as int) ==> (r matches Ok(b) && b == self.spec_buf()[n as int]),
            !spec_can_read(self.spec_buf(), n as int) ==> (r matches Err(e) && e
                == DnsError::EndOfBuffer),
    {
        if n >= 512 {
            return Err(DnsError::EndOfBuffer);
        }
        if (n as usize) >= self.buf.len() {
            return Err(DnsError::EndOfBuffer);
        }

        let res = self.buf[n as usize];

        Ok(res)
    }

    pub fn range(&self, start: u16, len: u16) -> (r: Result<&[u8], DnsError>)
        ensures
            (start + len <= 512 && start + len <= self.spec_buf().len()) ==> (r matches Ok(s)
                && s@ == self.spec_buf().subrange(start as int, start as int + len as int)),
            !(start + len <= 512 && start + len <= self.spec_buf().len()) ==> (r matches Err(e)
                && e == DnsError::EndOfBuffer),
    {
        let end: u32 = (start as u32) + (len as u32);
        if end > 512 {
            return Err(DnsError::EndOfBuffer);
        }
        if (end as usize) > self.buf.len() {
            return Err(DnsError::EndOfBuffer);
        }

        let res = &self.buf.as_slice()[(start as usize)..((start + len) as usize)];

        Ok(res)
    }

    /// Reads one possibly compressed name and leaves the stream just
    /// past it, or just past the first pointer if one was followed.
    #[verifier::loop_isolation(false)]
    pub fn parse_domain_name(&mut self) -> (r: Result<Vec<u8>, DnsError>)
        ensures
            final(self).spec_buf() == old(self).spec_buf(),
            ({
                let overall = spec_parse_name(
                    old(self).spec_buf(),
                    old(self).spec_offset() as int,
                );
                match overall {
                    Ok((name, end)) => {
                        &&& r matches Ok(v) && v@ == name
                        &&& final(self).spec_offset() == end
                    },
                    Err(e) => r matches Err(e2) && e2 == e,
                }
            }),
    {
        let ghost buf = self.buf@;
        let ghost pos0 = self.offset as int;
        let ghost overall = spec_parse_name(buf, pos0);

        let mut res: Vec<u8> = Vec::new();
        let mut pos: u16 = self.offset;
        let mut total_jumps: u16 = 0;
        let mut saved: u16 = 0;

        loop
            invariant
                self.buf@ == buf,
                self.offset == old(self).spec_offset(),
                overall == spec_parse_name(buf, pos0),
                total_jumps <= 7,
                total_jumps == 0 ==> spec_parse_name_at(buf, pos as int, 0, res@) == overall,
                total_jumps >= 1 ==> match spec_parse_name_at(
                    buf,
                    pos as int,
                    total_jumps as int,
                    res@,
                ) {
                    Ok((name, end)) => overall == Ok::<_, DnsError>((name, saved as int)),
                    Err(e) => overall == Err::<(Seq<u8>, int), _>(e),
                },
            decreases 7 - total_jumps, (if pos < 0x4000 { 0x4000 - pos as int } else { 0 }),
        {
            if total_jumps > 6 {
                return Err(DnsError::MaxJumps);
            }

            let len = match self.get(pos) {
                Ok(b) => b,
                Err(e) => {
                    return Err(e);
                },
            };

            if len >= 0xC0 {
                let next_byte = match self.get(pos + 1) {
                    Ok(b) => b,
                    Err(e) => {
                        return Err(e);
                    },
                };

                if total_jumps == 0 {
                    saved = pos + 2;
                }

                let ptr: u16 = (((len as u16) ^ 0xC0) << 8) | (next_byte as u16);
                proof {
                    let l = len as u16;
                    let nb = next_byte as u16;
                    assert(l >= 0xC0 && l < 0x100 && nb < 0x100 ==> ((l ^ 0xC0) << 8) | nb == (l
                        - 0xC0) * 256 + nb) by (bit_vector);
                    assert(ptr < 0x4000) by {
                        assert((len - 0xC0) * 256 + buf[pos as int + 1] < 0x4000);
                    }
                }
                pos = ptr;
                total_jumps = total_jumps + 1;
            } else if len == 0 {
                let end: u16 = if total_jumps == 0 {
                    pos + 1
                } else {
                    saved
                };
                self.offset = end;
                return Ok(res);
            } else if len > 63 {
                return Err(DnsError::BadLabel);
            } else {
                let start: u16 = pos + 1;
                let bytes = match self.range(start, len as u16) {
                    Ok(s) => s,
                    Err(e) => {
                        return Err(e);
                    },
                };
                let mut lowered = lower_bytes(bytes);
                let ghost acc_old = res@;
                if res.len() > 0 {
                    res.push(46);
                }
                res.append(&mut lowered);
                proof {
                    let lab = spec_lower_seq(buf.subrange(pos as int + 1, pos as int + 1 + len as int));
                    let acc2 = if acc_old.len() == 0 {
                        lab
                    } else {
                        acc_old + seq![46u8] + lab
                    };
                    assert(res@ =~= acc2);
                }
                pos = start + len as u16;
            }
        }
    }

    /// Reads one length-prefixed character-string.
    pub fn next_cstring(&mut self) -> (r: Result<Vec<u8>, DnsError>)
        ensures
            final(self).spec_buf() == old(self).spec_buf(),
            ({
                match spec_parse_cstr(old(self).spec_buf(), old(self).spec_offset() as int) {
                    Ok((s, end)) => {
                        &&& r matches Ok(v) && v@ == s
                        &&& final(self).spec_offset() == end
                    },
                    Err(e) => {
                        &&& r matches Err(e2) && e2 == e
                        &&& final(self).spec_offset() == old(self).spec_offset()
                    },
                }
            }),
    {
        let pos = self.offset;
        let n = match self.get(pos) {
            Ok(b) => b,
            Err(e) => {
                return Err(e);
            },
        };
        let bytes = match self.range(pos + 1, n as u16) {
            Ok(s) => s,
            Err(e) => {
                return Err(e);
            },
        };
        let mut v: Vec<u8> = Vec::new();
        let mut i: usize = 0;
        while i < bytes.len()
            invariant
                0 <= i <= bytes@.len(),
                v@ == bytes@.subrange(0, i as int),
            decreases bytes@.len() - i,
        {
            v.push(bytes[i]);
            proof {
                assert(v@ =~= bytes@.subrange(0, i as int + 1));
            }
            i = i + 1;
        }
        proof {
            assert(v@ =~= bytes@);
        }
        self.offset = pos + 1 + (n as u16);
        Ok(v)
    }

    /// Decodes the two flag bytes into `header`, leaving its id and
    /// counts untouched.
    pub fn parse_header_flags(&mut self, header: &mut Header) -> (r: Result<(), DnsError>)
        ensures
            final(self).spec_buf() == old(self).spec_buf(),
            ({
                let buf = old(self).spec_buf();
                let pos = old(self).spec_offset() as int;
                if spec_can_read(buf, pos) && spec_can_read(buf, pos + 1) {
                    &&& r matches Ok(v) && v == ()
                    &&& final(self).spec_offset() == pos + 2
                    &&& *final(header) == (Header {
                        response: (buf[pos] / 128) % 2 == 1,
                        opcode: ((buf[pos] / 8) % 16) as u8,
                        authoritative: (buf[pos] / 4) % 2 == 1,
                        truncation: (buf[pos] / 2) % 2 == 1,
                        recursion_desired: buf[pos] % 2 == 1,
                        recursion_available: (buf[pos + 1] / 128) % 2 == 1,
                        reserved: ((buf[pos + 1] / 16) % 8) as u8,
                        code: (buf[pos + 1] % 16) as u8,
                        ..*old(header)
                    })
                } else {
                    &&& r matches Err(e) && e == DnsError::EndOfBuffer
                    &&& *final(header) == *old(header)
                }
            }),
    {
        let v = self.next_u16()?;
        let (first, second) = u16_to_u8(v);

        proof {
            let buf = old(self).spec_buf();
            let pos = old(self).spec_offset() as int;
            assert(spec_read_u16(buf, pos) / 256 == buf[pos] && spec_read_u16(buf, pos) % 256
                == buf[pos + 1]) by {
                assert(buf[pos] * 256 + buf[pos + 1] < 0x10000);
            }
        }

        header.response = (first & (1u8 << 7)) != 0;
        header.opcode = (first >> 3) & 0x0F;
        header.authoritative = (first & (1u8 << 2)) != 0;
        header.truncation = (first & (1u8 << 1)) != 0;
        header.recursion_desired = (first & 1u8) != 0;

        header.recursion_available = (second & (1u8 << 7)) != 0;
        header.reserved = (second >> 4) & 0x07;
        header.code = second & 0x0F;

        proof {
            let f = first;
            let s = second;
            assert(((f & (1u8 << 7)) != 0) == ((f / 128) % 2 == 1)) by (bit_vector);
            assert((f >> 3) & 0x0F == (f / 8) % 16) by (bit_vector);
            assert(((f & (1u8 << 2)) != 0) == ((f / 4) % 2 == 1)) by (bit_vector);
            assert(((f & (1u8 << 1)) != 0) == ((f / 2) % 2 == 1)) by (bit_vector);
            assert(((f & 1u8) != 0) == (f % 2 == 1)) by (bit_vector);
            assert(((s & (1u8 << 7)) != 0) == ((s / 128) % 2 == 1)) by (bit_vector);
            assert((s >> 4) & 0x07 == (s / 16) % 8) by (bit_vector);
            assert(s & 0x0F == s % 16) by (bit_vector);
        }

        Ok(())
    }

    /// Reads the 12-byte header from the start of the datagram.
    pub fn parse_header(&mut self) -> (r: Result<Header, DnsError>)
        ensures
            final(self).spec_buf() == old(self).spec_buf(),
            ({
                match spec_parse_header(old(self).spec_buf()) {
                    Ok(h) => {
                        &&& r matches Ok(h2) && h2 == h
                        &&& final(self).spec_offset() == 12
                    },
                    Err(e) => r matches Err(e2) && e2 == e,
                }
            }),
    {
        let mut header = Header::new();

        // parsing always starts from the beginning of the datagram
        if self.offset != 0 {
            self.seek(0)?;
        }

        header.id = self.next_u16()?;
        self.parse_header_flags(&mut header)?;
        header.question_count = self.next_u16()?;
        header.answer_count = self.next_u16()?;
        header.authority_count = self.next_u16()?;
        header.resource_count = self.next_u16()?;

        Ok(header)
    }

    /// Reads `n` consecutive questions.
    #[verifier::loop_isolation(false)]
    fn parse_questions(&mut self, n: u16) -> (r: Result<Vec<Question>, DnsError>)
        ensures
            final(self).spec_buf() == old(self).spec_buf(),
            ({
                match spec_parse_questions(
                    old(self).spec_buf(),
                    old(self).spec_offset() as int,
                    n as int,
                ) {
                    Ok((qs, end)) => {
                        &&& r matches Ok(v) && spec_questions(v@) == qs
                        &&& final(self).spec_offset() == end
                    },
                    Err(e) => r matches Err(e2) && e2 == e,
                }
            }),
    {
        let ghost buf = self.buf@;
        let ghost overall = spec_parse_questions(buf, self.offset as int, n as int);
        let mut res: Vec<Question> = Vec::new();
        let mut i: u16 = 0;

        while i < n
            invariant
                self.buf@ == buf,
                0 <= i <= n,
                match spec_parse_questions(buf, self.offset as int, n - i) {
                    Ok((qs, end)) => overall == Ok::<_, DnsError>(
                        (spec_questions(res@) + qs, end),
                    ),
                    Err(e) => overall == Err::<(Seq<QuestionView>, int), _>(e),
                },
            decreases n - i,
        {
            let ghost acc = spec_questions(res@);
            let q = self.parse_question()?;
            res.push(q);
            i = i + 1;
            proof {
                assert(spec_questions(res@) =~= acc + seq![q@]);
                if let Ok((qs, end)) = spec_parse_questions(buf, self.offset as int, n - i) {
                    assert((acc + seq![q@]) + qs =~= acc + (seq![q@] + qs));
                }
            }
        }

        proof {
            assert(spec_parse_questions(buf, self.offset as int, 0) == Ok::<_, DnsError>(
                (Seq::<QuestionView>::empty(), self.offset as int),
            ));
            assert(spec_questions(res@) + Seq::<QuestionView>::empty() =~= spec_questions(res@));
        }

        Ok(res)
    }

    /// Reads `n` consecutive records.
    #[verifier::loop_isolation(false)]
    fn parse_records(&mut self, n: u16) -> (r: Result<Vec<Record>, DnsError>)
        ensures
            final(self).spec_buf() == old(self).spec_buf(),
            ({
                match spec_parse_records(
                    old(self).spec_buf(),
                    old(self).spec_offset() as int,
                    n as int,
                ) {
                    Ok((rs, end)) => {
                        &&& r matches Ok(v) && spec_records(v@) == rs
                        &&& final(self).spec_offset() == end
                    },
                    Err(e) => r matches Err(e2) && e2 == e,
                }
            }),
    {
        let ghost buf = self.buf@;
        let ghost overall = spec_parse_records(buf, self.offset as int, n as int);
        let mut res: Vec<Record> = Vec::new();
        let mut i: u16 = 0;

        while i < n
            invariant
                self.buf@ == buf,
                0 <= i <= n,
                match spec_parse_records(buf, self.offset as int, n - i) {
                    Ok((rs, end)) => overall == Ok::<_, DnsError>((spec_records(res@) + rs, end)),
                    Err(e) => overall == Err::<(Seq<RecordView>, int), _>(e),
                },
            decreases n - i,
        {
            let ghost acc = spec_records(res@);
            let rec = Record::parse(self)?;
            res.push(rec);
            i = i + 1;
            proof {
                assert(spec_records(res@) =~= acc + seq![rec@]);
                if let Ok((rs, end)) = spec_parse_records(buf, self.offset as int, n - i) {
                    assert((acc + seq![rec@]) + rs =~= acc + (seq![rec@] + rs));
                }
            }
        }

        proof {
            assert(spec_parse_records(buf, self.offset as int, 0) == Ok::<_, DnsError>(
                (Seq::<RecordView>::empty(), self.offset as int),
            ));
            assert(spec_records(res@) + Seq::<RecordView>::empty() =~= spec_records(res@));
        }

        Ok(res)
    }

    /// Decodes a whole datagram into a message.
    pub fn parse(&mut self) -> (r: Result<Packet, DnsError>)
        ensures
            final(self).spec_buf() == old(self).spec_buf(),
            ({
                match spec_parse_packet(old(self).spec_buf()) {
                    Ok(pv) => r matches Ok(p) && p@ == pv,
                    Err(e) => r matches Err(e2) && e2 == e,
                }
            }),
    {
        proof {
            reveal(spec_parse_packet);
        }
        let header = self.parse_header()?;

        let questions = self.parse_questions(header.question_count)?;
        let answers = self.parse_records(header.answer_count)?;
        let authorities = self.parse_records(header.authority_count)?;
        let resources = self.parse_records(header.resource_count)?;

        let packet = Packet { header, questions, answers, authorities, resources };

        Ok(packet)
    }

    /// Reads one question: a name, a type code and a class code.
    pub fn parse_question(&mut self) -> (r: Result<Question, DnsError>)
        ensures
            final(self).spec_buf() == old(self).spec_buf(),
            ({
                match spec_parse_question_at(old(self).spec_buf(), old(self).spec_offset() as int) {
                    Ok((q, end)) => {
                        &&& r matches Ok(qq) && qq@ == q
                        &&& final(self).spec_offset() == end
                    },
                    Err(e) => r matches Err(e2) && e2 == e,
                }
            }),
    {
        let name = self.parse_domain_name()?;
        let qtype = self.next_u16()?;
        let qclass = self.next_u16()?;

        Ok(Question::new_with_class(name, QueryType::from(qtype), QueryClass::from(qclass)))
    }
}

} // verus!
