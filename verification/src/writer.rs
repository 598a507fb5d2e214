use vstd::prelude::*;
use crate::bytes_util::{spec_u32_bytes, BytesUtil};
use crate::errors::DnsError;
use crate::header::Header;
use crate::packet::{clone_questions, clone_records, spec_questions, spec_records, Packet, PacketView};
use crate::pair::{spec_u16_bytes, BytesPair};
use crate::query_class::QueryClass;
use crate::query_type::QueryType;
use crate::question::{spec_write_question_plain, Question, QuestionView};
use crate::record::{clone_bytes, Record, RecordData, RecordDataView, RecordView};
use crate::util::bool_to_u8;

verus! {

// ---------------------------------------------------------------------------
// Names on the wire.
//
// A domain name is a dotted byte string ("www.example.com", no trailing
// dot).  Its plain wire form is each label prefixed by its length byte,
// closed by one zero byte.  Splitting on the dots follows `str::split`:
// the empty name holds one empty label, and consecutive dots produce
// empty labels.
// ---------------------------------------------------------------------------

/// The labels of `s` once `acc` holds the bytes of the label begun so far.
pub open spec fn spec_split_acc(s: Seq<u8>, acc: Seq<u8>) -> Seq<Seq<u8>>
    decreases s.len(),
{
    if s.len() == 0 {
        seq![acc]
    } else if s[0] == 46 {
        seq![acc] + spec_split_acc(s.drop_first(), seq![])
    } else {
        spec_split_acc(s.drop_first(), acc.push(s[0]))
    }
}

/// The dot-separated labels of a name.
pub open spec fn spec_labels(s: Seq<u8>) -> Seq<Seq<u8>> {
    spec_split_acc(s, seq![])
}

/// Every label fits in a six-bit length; longer labels are fatal on write.
pub open spec fn spec_labels_ok(s: Seq<u8>) -> bool {
    forall|i: int| 0 <= i < spec_labels(s).len() ==> #[trigger] spec_labels(s)[i].len() <= 63
}

/// Length-prefixed encoding of a list of labels.
pub open spec fn spec_enc_labels(labels: Seq<Seq<u8>>) -> Seq<u8>
    decreases labels.len(),
{
    if labels.len() == 0 {
        seq![]
    } else {
        seq![labels[0].len() as u8] + labels[0] + spec_enc_labels(labels.drop_first())
    }
}

/// The plain (uncompressed) wire form of a name: the root (empty) name
/// is the bare terminator, any other name its labels then the terminator.
pub open spec fn spec_write_domain_plain(name: Seq<u8>) -> Seq<u8> {
    if name.len() == 0 {
        seq![0u8]
    } else {
        spec_enc_labels(spec_labels(name)) + seq![0u8]
    }
}

pub proof fn lemma_enc_labels_append(a: Seq<Seq<u8>>, b: Seq<Seq<u8>>)
    ensures
        spec_enc_labels(a + b) == spec_enc_labels(a) + spec_enc_labels(b),
    decreases a.len(),
{
    if a.len() == 0 {
        assert(a + b =~= b);
        assert(spec_enc_labels(a) + spec_enc_labels(b) =~= spec_enc_labels(b));
    } else {
        assert((a + b).drop_first() =~= a.drop_first() + b);
        lemma_enc_labels_append(a.drop_first(), b);
        assert(spec_enc_labels(a + b) =~= spec_enc_labels(a) + spec_enc_labels(b));
    }
}

pub proof fn lemma_enc_single(l: Seq<u8>)
    ensures
        spec_enc_labels(seq![l]) == seq![l.len() as u8] + l,
{
    assert(seq![l].drop_first() =~= Seq::<Seq<u8>>::empty());
    assert(spec_enc_labels(Seq::<Seq<u8>>::empty()) =~= Seq::<u8>::empty());
    assert(spec_enc_labels(seq![l]) =~= seq![l.len() as u8] + l);
}

/// The split always yields at least one label, and the first one carries
/// the bytes accumulated so far.
pub proof fn lemma_split_first_len(s: Seq<u8>, acc: Seq<u8>)
    ensures
        spec_split_acc(s, acc).len() >= 1,
        spec_split_acc(s, acc)[0].len() >= acc.len(),
    decreases s.len(),
{
    if s.len() == 0 {
    } else if s[0] == 46 {
    } else {
        lemma_split_first_len(s.drop_first(), acc.push(s[0]));
    }
}

// ---------------------------------------------------------------------------
// Compression.
//
// While a message is written, a table maps each name already written to
// the offset of its first, plain occurrence.  A later occurrence of the
// same name is written as a two-byte pointer `0xC000 | offset` instead,
// provided the recorded offset fits the pointer's 14 bits.
// ---------------------------------------------------------------------------

/// The offset recorded for `name`, if any: the earliest entry wins.
pub open spec fn spec_dom_lookup(doms: Seq<(Seq<u8>, u16)>, name: Seq<u8>) -> Option<u16>
    decreases doms.len(),
{
    if doms.len() == 0 {
        None
    } else if doms[0].0 == name {
        Some(doms[0].1)
    } else {
        spec_dom_lookup(doms.drop_first(), name)
    }
}

/// The two bytes of a compression pointer to `off`.
pub open spec fn spec_ptr_bytes(off: u16) -> Seq<u8> {
    seq![(0xC0 + off / 256) as u8, (off % 256) as u8]
}

/// The offset table a list of (name, offset) pairs stands for.
pub open spec fn spec_doms(v: Seq<(Vec<u8>, u16)>) -> Seq<(Seq<u8>, u16)> {
    v.map_values(|p: (Vec<u8>, u16)| (p.0@, p.1))
}

/// Encoding one name at buffer position `start` under table `doms`:
/// a pointer to a recorded offset, or the plain labels, recorded.
pub open spec fn spec_enc_domain(start: int, doms: Seq<(Seq<u8>, u16)>, name: Seq<u8>) -> Result<
    (Seq<u8>, Seq<(Seq<u8>, u16)>),
    DnsError,
> {
    let hit = spec_dom_lookup(doms, name);
    if hit is Some && hit->Some_0 < 0x4000 {
        if start + 2 > 512 {
            Err(DnsError::EndOfBuffer)
        } else {
            Ok((spec_ptr_bytes(hit->Some_0), doms))
        }
    } else {
        if !spec_labels_ok(name) {
            Err(DnsError::BadLabel)
        } else if start + spec_write_domain_plain(name).len() > 512 {
            Err(DnsError::EndOfBuffer)
        } else {
            Ok((spec_write_domain_plain(name), doms.push((name, start as u16))))
        }
    }
}

/// An encoded name never runs past the datagram bound.
pub proof fn lemma_enc_domain_fits(start: int, doms: Seq<(Seq<u8>, u16)>, name: Seq<u8>)
    requires
        spec_enc_domain(start, doms, name) is Ok,
        start >= 0,
    ensures
        start + spec_enc_domain(start, doms, name)->Ok_0.0.len() <= 512,
        spec_enc_domain(start, doms, name)->Ok_0.0.len() >= 1,
        name.len() > 0 ==> spec_enc_domain(start, doms, name)->Ok_0.0.len() >= 2,
{
    let hit = spec_dom_lookup(doms, name);
    if hit is Some && hit->Some_0 < 0x4000 {
    } else if name.len() > 0 {
        lemma_split_first_len(name, seq![]);
        assert(spec_enc_labels(spec_labels(name)).len() >= 1);
    }
}

/// Appends one byte, within the 512-byte datagram bound.
pub fn put_byte(buf: &mut Vec<u8>, v: u8) -> (r: Result<(), DnsError>)
    ensures
        old(buf)@.len() < 512 ==> {
            &&& r matches Ok(u) && u == ()
            &&& final(buf)@ == old(buf)@.push(v)
        },
        old(buf)@.len() >= 512 ==> {
            &&& r matches Err(e) && e == DnsError::EndOfBuffer
            &&& final(buf)@ == old(buf)@
        },
{
    if buf.len() >= 512 {
        return Err(DnsError::EndOfBuffer);
    }
    buf.push(v);
    Ok(())
}

/// Appends a block of bytes, within the 512-byte datagram bound.
pub fn put_bytes(buf: &mut Vec<u8>, mut values: Vec<u8>) -> (r: Result<(), DnsError>)
    ensures
        old(buf)@.len() + values@.len() <= 512 ==> {
            &&& r matches Ok(u) && u == ()
            &&& final(buf)@ == old(buf)@ + values@
        },
        old(buf)@.len() + values@.len() > 512 ==> {
            &&& r matches Err(e) && e == DnsError::EndOfBuffer
            &&& final(buf)@ == old(buf)@
        },
{
    if values.len() > 512 || buf.len() > 512 - values.len() {
        return Err(DnsError::EndOfBuffer);
    }
    buf.append(&mut values);
    Ok(())
}

/// Appends a 16-bit value, big-endian.
pub fn put_u16(buf: &mut Vec<u8>, v: u16) -> (r: Result<(), DnsError>)
    ensures
        old(buf)@.len() + 2 <= 512 ==> {
            &&& r matches Ok(u) && u == ()
            &&& final(buf)@ == old(buf)@ + spec_u16_bytes(v)
        },
        old(buf)@.len() + 2 > 512 ==> {
            &&& r matches Err(e) && e == DnsError::EndOfBuffer
            &&& final(buf)@ == old(buf)@
        },
{
    if buf.len() > 510 {
        return Err(DnsError::EndOfBuffer);
    }
    let pair = BytesPair::from(v);
    buf.push(pair.0);
    buf.push(pair.1);
    proof {
        assert(buf@ =~= old(buf)@ + spec_u16_bytes(v));
    }
    Ok(())
}

/// Appends a 32-bit value, big-endian.
pub fn put_u32(buf: &mut Vec<u8>, v: u32) -> (r: Result<(), DnsError>)
    ensures
        old(buf)@.len() + 4 <= 512 ==> {
            &&& r matches Ok(u) && u == ()
            &&& final(buf)@ == old(buf)@ + spec_u32_bytes(v)
        },
        old(buf)@.len() + 4 > 512 ==> {
            &&& r matches Err(e) && e == DnsError::EndOfBuffer
            &&& final(buf)@ == old(buf)@
        },
{
    if buf.len() > 508 {
        return Err(DnsError::EndOfBuffer);
    }
    let bytes = BytesUtil::from_u32(v);
    buf.push(bytes[0]);
    buf.push(bytes[1]);
    buf.push(bytes[2]);
    buf.push(bytes[3]);
    proof {
        assert(buf@ =~= old(buf)@ + spec_u32_bytes(v));
    }
    Ok(())
}

/// Compares two byte strings.
pub fn bytes_eq(a: &Vec<u8>, b: &Vec<u8>) -> (r: bool)
    ensures
        r == (a@ == b@),
{
    if a.len() != b.len() {
        return false;
    }
    let mut i: usize = 0;
    while i < a.len()
        invariant
            0 <= i <= a@.len(),
            a@.len() == b@.len(),
            forall|k: int| 0 <= k < i ==> a@[k] == b@[k],
        decreases a@.len() - i,
    {
        if a[i] != b[i] {
            return false;
        }
        i = i + 1;
    }
    proof {
        assert(a@ =~= b@);
    }
    true
}

/// Encodes one name at position `start`: a pointer where the table
/// already holds the name, the recorded plain labels otherwise.
pub fn encode_domain(doms: &mut Vec<(Vec<u8>, u16)>, start: u16, name: &Vec<u8>) -> (r: Result<
    Vec<u8>,
    DnsError,
>)
    ensures
        ({
            match spec_enc_domain(start as int, spec_doms(old(doms)@), name@) {
                Ok((b, d2)) => {
                    &&& r matches Ok(v) && v@ == b
                    &&& spec_doms(final(doms)@) == d2
                },
                Err(e) => r matches Err(e2) && e2 == e,
            }
        }),
{
    let ghost dv = spec_doms(doms@);
    proof {
        assert(dv.skip(0) =~= dv);
    }

    // look the name up; the earliest recorded entry wins
    let mut i: usize = 0;
    let mut found: bool = false;
    let mut off: u16 = 0;
    while i < doms.len() && !found
        invariant
            0 <= i <= doms@.len(),
            dv == spec_doms(doms@),
            !found ==> spec_dom_lookup(dv, name@) == spec_dom_lookup(
                dv.skip(i as int),
                name@,
            ),
            found ==> spec_dom_lookup(dv, name@) == Some(off),
        decreases doms@.len() - i,
    {
        proof {
            assert(dv.skip(i as int).drop_first() =~= dv.skip(i as int + 1));
            assert(dv.skip(i as int)[0] == dv[i as int]);
        }
        if bytes_eq(&doms[i].0, name) {
            found = true;
            off = doms[i].1;
        }
        i = i + 1;
    }
    proof {
        if !found {
            assert(i == doms@.len());
            assert(dv.skip(doms@.len() as int) =~= Seq::<(Seq<u8>, u16)>::empty());
        }
    }

    if found && off < 0x4000 {
        if start > 510 {
            return Err(DnsError::EndOfBuffer);
        }
        let mut res: Vec<u8> = Vec::new();
        res.push(((off >> 8) as u8) | 0xC0);
        res.push((off & 0xFF) as u8);
        proof {
            assert(off < 0x4000 ==> (((off >> 8) as u8) | 0xC0) == (0xC0 + off / 256) as u8
                && (off & 0xFF) as u8 == (off % 256) as u8) by (bit_vector);
            assert(res@ =~= spec_ptr_bytes(off));
        }
        return Ok(res);
    }

    let plain = write_domain(name)?;
    if plain.len() > 512 || (start as usize) > 512 - plain.len() {
        return Err(DnsError::EndOfBuffer);
    }
    doms.push((clone_bytes(name), start));
    proof {
        assert(spec_doms(doms@) =~= spec_doms(old(doms)@).push((name@, start)));
    }
    Ok(plain)
}

/// Writes the labels of `domain` in plain form, refusing any label
/// longer than 63 bytes.
pub fn write_domain(domain: &Vec<u8>) -> (r: Result<Vec<u8>, DnsError>)
    ensures
        spec_labels_ok(domain@) ==> (r matches Ok(v) && v@ == spec_write_domain_plain(domain@)),
        !spec_labels_ok(domain@) ==> (r matches Err(e) && e == DnsError::BadLabel),
{
    if domain.len() == 0 {
        let mut root: Vec<u8> = Vec::new();
        root.push(0);
        proof {
            assert(spec_labels(domain@) =~= seq![Seq::<u8>::empty()]);
            assert(root@ =~= spec_write_domain_plain(domain@));
        }
        return Ok(root);
    }
    let mut res: Vec<u8> = Vec::new();
    let mut cur: Vec<u8> = Vec::new();
    let ghost mut done: Seq<Seq<u8>> = seq![];
    let mut i: usize = 0;

    proof {
        assert(domain@.skip(0) =~= domain@);
        assert(done + spec_split_acc(domain@.skip(0), cur@) =~= spec_labels(domain@));
    }

    while i < domain.len()
        invariant
            0 <= i <= domain@.len(),
            cur@.len() <= 63,
            spec_labels(domain@) == done + spec_split_acc(domain@.skip(i as int), cur@),
            res@ == spec_enc_labels(done),
            forall|k: int| 0 <= k < done.len() ==> #[trigger] done[k].len() <= 63,
        decreases domain@.len() - i,
    {
        let b: u8 = domain[i];
        proof {
            assert(domain@.skip(i as int).drop_first() =~= domain@.skip(i as int + 1));
            assert(domain@.skip(i as int)[0] == domain@[i as int]);
        }
        if b == 46 {
            let ghost lab_s = cur@;
            res.push(cur.len() as u8);
            let mut lab: Vec<u8> = cur;
            res.append(&mut lab);
            cur = Vec::new();
            proof {
                let done0 = done;
                lemma_enc_labels_append(done0, seq![lab_s]);
                lemma_enc_single(lab_s);
                done = done0 + seq![lab_s];
                assert(spec_split_acc(domain@.skip(i as int), lab_s)
                    == seq![lab_s] + spec_split_acc(domain@.skip(i as int + 1), seq![]));
                assert(done + spec_split_acc(domain@.skip(i as int + 1), seq![])
                    =~= done0 + spec_split_acc(domain@.skip(i as int), lab_s));
                assert(res@ =~= spec_enc_labels(done));
            }
        } else {
            if cur.len() == 63 {
                proof {
                    let rest = spec_split_acc(domain@.skip(i as int), cur@);
                    lemma_split_first_len(domain@.skip(i as int + 1), cur@.push(b));
                    assert(rest == spec_split_acc(domain@.skip(i as int + 1), cur@.push(b)));
                    assert(rest[0].len() >= 64);
                    assert(spec_labels(domain@)[done.len() as int] == rest[0]);
                    assert(!spec_labels_ok(domain@));
                }
                return Err(DnsError::BadLabel);
            }
            cur.push(b);
        }
        i = i + 1;
    }

    let ghost lab_s = cur@;
    res.push(cur.len() as u8);
    let mut lab: Vec<u8> = cur;
    res.append(&mut lab);
    res.push(0x00);
    proof {
        assert(domain@.skip(domain@.len() as int) =~= Seq::<u8>::empty());
        assert(spec_split_acc(Seq::<u8>::empty(), lab_s) == seq![lab_s]);
        lemma_enc_labels_append(done, seq![lab_s]);
        lemma_enc_single(lab_s);
        let labels = spec_labels(domain@);
        assert(labels == done + seq![lab_s]);
        assert(res@ =~= spec_enc_labels(done + seq![lab_s]) + seq![0u8]);
        assert forall|k: int| 0 <= k < labels.len()
            implies #[trigger] labels[k].len() <= 63 by {
            if k < done.len() {
                assert(labels[k] == done[k]);
            } else {
                assert(labels[k] == lab_s);
            }
        }
    }

    Ok(res)
}


// ---------------------------------------------------------------------------
// Record data and whole messages.
// ---------------------------------------------------------------------------

/// The sixteen big-endian bytes of a 128-bit value.
pub open spec fn spec_u128_bytes(v: u128) -> Seq<u8> {
    spec_u32_bytes((v / 0x1000000000000000000000000) as u32) + spec_u32_bytes(
        ((v / 0x10000000000000000) % 0x100000000) as u32,
    ) + spec_u32_bytes(((v / 0x100000000) % 0x100000000) as u32) + spec_u32_bytes(
        (v % 0x100000000) as u32,
    )
}

/// A character-string at position `start`: one length byte, then up to
/// 255 bytes.
pub open spec fn spec_enc_cstr(start: int, s: Seq<u8>) -> Result<Seq<u8>, DnsError> {
    if s.len() > 255 {
        Err(DnsError::BadLabel)
    } else if start + 1 + s.len() > 512 {
        Err(DnsError::EndOfBuffer)
    } else {
        Ok(seq![s.len() as u8] + s)
    }
}

/// Encoding the rdata of a record at position `start`: addresses as raw
/// octets, names compressed, texts as character-strings, and `UNKNOWN(n)`
/// as `n` zero bytes.
#[verifier::opaque]
pub open spec fn spec_enc_rdata(start: int, doms: Seq<(Seq<u8>, u16)>, data: RecordDataView) -> Result<
    (Seq<u8>, Seq<(Seq<u8>, u16)>),
    DnsError,
> {
    match data {
        RecordDataView::A(addr) => if start + 4 > 512 {
            Err(DnsError::EndOfBuffer)
        } else {
            Ok((spec_u32_bytes(addr), doms))
        },
        RecordDataView::NS(host) => spec_enc_domain(start, doms, host),
        RecordDataView::CNAME(host) => spec_enc_domain(start, doms, host),
        RecordDataView::PTR(host) => spec_enc_domain(start, doms, host),
        RecordDataView::TXT(text) => match spec_enc_cstr(start, text) {
            Ok(b) => Ok((b, doms)),
            Err(e) => Err(e),
        },
        RecordDataView::HINFO { cpu, os } => match spec_enc_cstr(start, cpu) {
            Ok(b1) => match spec_enc_cstr(start + b1.len(), os) {
                Ok(b2) => Ok((b1 + b2, doms)),
                Err(e) => Err(e),
            },
            Err(e) => Err(e),
        },
        RecordDataView::SOA { mname, rname, serial, refresh, retry, expire, minimum } => match spec_enc_domain(
            start,
            doms,
            mname,
        ) {
            Ok((b1, d1)) => match spec_enc_domain(start + b1.len(), d1, rname) {
                Ok((b2, d2)) => if start + b1.len() + b2.len() + 20 > 512 {
                    Err(DnsError::EndOfBuffer)
                } else {
                    Ok(
                        (
                            b1 + b2 + spec_u32_bytes(serial) + spec_u32_bytes(refresh)
                                + spec_u32_bytes(retry) + spec_u32_bytes(expire) + spec_u32_bytes(
                                minimum,
                            ),
                            d2,
                        ),
                    )
                },
                Err(e) => Err(e),
            },
            Err(e) => Err(e),
        },
        RecordDataView::MX { preference, exchange } => if start + 2 > 512 {
            Err(DnsError::EndOfBuffer)
        } else {
            match spec_enc_domain(start + 2, doms, exchange) {
                Ok((b, d)) => Ok((spec_u16_bytes(preference) + b, d)),
                Err(e) => Err(e),
            }
        },
        RecordDataView::AAAA(addr) => if start + 16 > 512 {
            Err(DnsError::EndOfBuffer)
        } else {
            Ok((spec_u128_bytes(addr), doms))
        },
        RecordDataView::SRV { priority, weight, port, host } => if start + 6 > 512 {
            Err(DnsError::EndOfBuffer)
        } else {
            match spec_enc_domain(start + 6, doms, host) {
                Ok((b, d)) => Ok(
                    (
                        spec_u16_bytes(priority) + spec_u16_bytes(weight) + spec_u16_bytes(port)
                            + b,
                        d,
                    ),
                ),
                Err(e) => Err(e),
            }
        },
        RecordDataView::UNKNOWN(n) => if start + n > 512 {
            Err(DnsError::EndOfBuffer)
        } else {
            Ok((Seq::new(n as nat, |i: int| 0u8), doms))
        },
    }
}

/// Encoded rdata never runs past the datagram bound.
pub proof fn lemma_enc_rdata_fits(start: int, doms: Seq<(Seq<u8>, u16)>, data: RecordDataView)
    requires
        spec_enc_rdata(start, doms, data) is Ok,
        start >= 0,
    ensures
        start + spec_enc_rdata(start, doms, data)->Ok_0.0.len() <= 512,
        start <= 512,
{
    reveal(spec_enc_rdata);
    match data {
        RecordDataView::NS(host) => lemma_enc_domain_fits(start, doms, host),
        RecordDataView::CNAME(host) => lemma_enc_domain_fits(start, doms, host),
        RecordDataView::PTR(host) => lemma_enc_domain_fits(start, doms, host),
        RecordDataView::SOA { mname, rname, .. } => {
            lemma_enc_domain_fits(start, doms, mname);
            let b1 = spec_enc_domain(start, doms, mname)->Ok_0.0;
            let d1 = spec_enc_domain(start, doms, mname)->Ok_0.1;
            lemma_enc_domain_fits(start + b1.len(), d1, rname);
        },
        RecordDataView::MX { exchange, .. } => {
            lemma_enc_domain_fits(start + 2, doms, exchange);
        },
        RecordDataView::SRV { host, .. } => {
            lemma_enc_domain_fits(start + 6, doms, host);
        },
        _ => {},
    }
}

/// Encoding one record at position `start`: the owner name, the fixed
/// fields, and the rdata behind its computed length prefix.
#[verifier::opaque]
pub open spec fn spec_enc_record(start: int, doms: Seq<(Seq<u8>, u16)>, r: RecordView) -> Result<
    (Seq<u8>, Seq<(Seq<u8>, u16)>),
    DnsError,
> {
    match spec_enc_domain(start, doms, r.domain) {
        Err(e) => Err(e),
        Ok((nb, d1)) => {
            let s1 = start + nb.len();
            if s1 + 8 > 512 {
                Err(DnsError::EndOfBuffer)
            } else {
                match spec_enc_rdata(s1 + 10, d1, r.data) {
                    Err(e) => Err(e),
                    Ok((db, d2)) => Ok(
                        (
                            nb + spec_u16_bytes(r.rtype.spec_num()) + spec_u16_bytes(
                                r.rclass.spec_num(),
                            ) + spec_u32_bytes(r.ttl) + spec_u16_bytes(db.len() as u16) + db,
                            d2,
                        ),
                    ),
                }
            }
        },
    }
}

/// Encoding one question at position `start`.
pub open spec fn spec_enc_question(start: int, doms: Seq<(Seq<u8>, u16)>, q: QuestionView) -> Result<
    (Seq<u8>, Seq<(Seq<u8>, u16)>),
    DnsError,
> {
    match spec_enc_domain(start, doms, q.domain) {
        Err(e) => Err(e),
        Ok((nb, d1)) => if start + nb.len() + 4 > 512 {
            Err(DnsError::EndOfBuffer)
        } else {
            Ok(
                (
                    nb + spec_u16_bytes(q.qtype.spec_num()) + spec_u16_bytes(q.qclass.spec_num()),
                    d1,
                ),
            )
        },
    }
}

/// Encoding a run of questions.
pub open spec fn spec_enc_questions(
    start: int,
    doms: Seq<(Seq<u8>, u16)>,
    qs: Seq<QuestionView>,
) -> Result<(Seq<u8>, Seq<(Seq<u8>, u16)>), DnsError>
    decreases qs.len(),
{
    if qs.len() == 0 {
        Ok((seq![], doms))
    } else {
        match spec_enc_question(start, doms, qs[0]) {
            Err(e) => Err(e),
            Ok((b, d)) => match spec_enc_questions(start + b.len(), d, qs.drop_first()) {
                Err(e) => Err(e),
                Ok((b2, d2)) => Ok((b + b2, d2)),
            },
        }
    }
}

/// Encoding a run of records.
pub open spec fn spec_enc_records(start: int, doms: Seq<(Seq<u8>, u16)>, rs: Seq<RecordView>) -> Result<
    (Seq<u8>, Seq<(Seq<u8>, u16)>),
    DnsError,
>
    decreases rs.len(),
{
    if rs.len() == 0 {
        Ok((seq![], doms))
    } else {
        match spec_enc_record(start, doms, rs[0]) {
            Err(e) => Err(e),
            Ok((b, d)) => match spec_enc_records(start + b.len(), d, rs.drop_first()) {
                Err(e) => Err(e),
                Ok((b2, d2)) => Ok((b + b2, d2)),
            },
        }
    }
}

/// A flag bit as the integer it contributes.
pub open spec fn spec_bit(b: bool) -> u8 {
    if b {
        1
    } else {
        0
    }
}

/// The first flag byte: RD | TC<<1 | AA<<2 | opcode<<3 | QR<<7.
pub open spec fn spec_flags_byte0(h: Header) -> u8 {
    (spec_bit(h.recursion_desired) + spec_bit(h.truncation) * 2 + spec_bit(h.authoritative) * 4 + (
    h.opcode % 16) * 8 + spec_bit(h.response) * 128) as u8
}

/// The second flag byte: rcode | (reserved&7)<<4 | RA<<7.
pub open spec fn spec_flags_byte1(h: Header) -> u8 {
    (h.code % 16 + (h.reserved % 8) * 16 + spec_bit(h.recursion_available) * 128) as u8
}

/// The twelve header bytes.
pub open spec fn spec_header_bytes(h: Header) -> Seq<u8> {
    spec_u16_bytes(h.id) + seq![spec_flags_byte0(h), spec_flags_byte1(h)] + spec_u16_bytes(
        h.question_count,
    ) + spec_u16_bytes(h.answer_count) + spec_u16_bytes(h.authority_count) + spec_u16_bytes(
        h.resource_count,
    )
}

/// Serialising a whole message: the header, then the question and
/// record sections, compressed across the whole datagram.
pub open spec fn spec_write_packet(p: PacketView) -> Result<Seq<u8>, DnsError> {
    match spec_enc_questions(12, seq![], p.questions) {
        Err(e) => Err(e),
        Ok((qb, d1)) => match spec_enc_records(12 + qb.len() as int, d1, p.answers) {
            Err(e) => Err(e),
            Ok((ab, d2)) => match spec_enc_records(12 + qb.len() as int + ab.len() as int, d2, p.authorities) {
                Err(e) => Err(e),
                Ok((ub, d3)) => match spec_enc_records(
                    12 + qb.len() as int + ab.len() as int + ub.len() as int,
                    d3,
                    p.resources,
                ) {
                    Err(e) => Err(e),
                    Ok((rb, _d4)) => Ok(spec_header_bytes(p.header) + qb + ab + ub + rb),
                },
            },
        },
    }
}


/// Appends a 16-bit value to a scratch buffer, big-endian.
pub fn push_u16(out: &mut Vec<u8>, v: u16)
    ensures
        final(out)@ == old(out)@ + spec_u16_bytes(v),
{
    let pair = BytesPair::from(v);
    out.push(pair.0);
    out.push(pair.1);
    proof {
        assert(out@ =~= old(out)@ + spec_u16_bytes(v));
    }
}

/// Appends a 32-bit value to a scratch buffer, big-endian.
pub fn push_u32(out: &mut Vec<u8>, v: u32)
    ensures
        final(out)@ == old(out)@ + spec_u32_bytes(v),
{
    let bytes = BytesUtil::from_u32(v);
    out.push(bytes[0]);
    out.push(bytes[1]);
    out.push(bytes[2]);
    out.push(bytes[3]);
    proof {
        assert(out@ =~= old(out)@ + spec_u32_bytes(v));
    }
}

/// Encodes one character-string meant for position `start`.
fn encode_cstr(start: u16, s: &Vec<u8>) -> (r: Result<Vec<u8>, DnsError>)
    ensures
        ({
            match spec_enc_cstr(start as int, s@) {
                Ok(b) => r matches Ok(v) && v@ == b,
                Err(e) => r matches Err(e2) && e2 == e,
            }
        }),
{
    if s.len() > 255 {
        return Err(DnsError::BadLabel);
    }
    if (start as usize) > 512 - 1 - s.len() {
        return Err(DnsError::EndOfBuffer);
    }
    let mut out: Vec<u8> = Vec::new();
    out.push(s.len() as u8);
    let mut body = clone_bytes(s);
    out.append(&mut body);
    proof {
        assert(out@ =~= seq![s@.len() as u8] + s@);
    }
    Ok(out)
}

/// The two flag bytes of a header.
pub fn write_header_flags(header: &Header) -> (r: (u8, u8))
    ensures
        r.0 == spec_flags_byte0(*header),
        r.1 == spec_flags_byte1(*header),
{
    let rd: u8 = bool_to_u8(header.recursion_desired);
    let tc: u8 = bool_to_u8(header.truncation);
    let aa: u8 = bool_to_u8(header.authoritative);
    let qr: u8 = bool_to_u8(header.response);
    let ra: u8 = bool_to_u8(header.recursion_available);
    let op: u8 = header.opcode;
    let rs: u8 = header.reserved;
    let code: u8 = header.code;

    let first: u8 = rd | (tc << 1) | (aa << 2) | ((op & 0x0F) << 3) | (qr << 7);
    let second: u8 = (code & 0x0F) | ((rs & 0x07) << 4) | (ra << 7);

    proof {
        assert(rd <= 1 && tc <= 1 && aa <= 1 && qr <= 1 ==> (rd | (tc << 1) | (aa << 2) | ((op
            & 0x0F) << 3) | (qr << 7)) == rd + tc * 2 + aa * 4 + (op % 16) * 8 + qr
            * 128) by (bit_vector);
        assert(ra <= 1 ==> ((code & 0x0F) | ((rs & 0x07) << 4) | (ra << 7)) == code % 16 + (rs % 8)
            * 16 + ra * 128) by (bit_vector);
        assert(rd + tc * 2 + aa * 4 + (op % 16) * 8 + qr * 128 <= 255);
        assert(code % 16 + (rs % 8) * 16 + ra * 128 <= 255);
    }

    (first, second)
}

/// Serialises one message, compressing repeated names.
pub struct PacketWriter {
    pub packet: Packet,
    buf: Vec<u8>,
    domains_buf: Vec<(Vec<u8>, u16)>,
}

impl PacketWriter {
    /// The message this writer serialises.
    pub closed spec fn spec_packet(&self) -> PacketView {
        self.packet@
    }

    pub fn new() -> (r: PacketWriter)
        ensures
            r.spec_packet().header == Header::spec_default(),
            r.spec_packet().questions.len() == 0,
            r.spec_packet().answers.len() == 0,
            r.spec_packet().authorities.len() == 0,
            r.spec_packet().resources.len() == 0,
    {
        PacketWriter { packet: Packet::new(), buf: Vec::new(), domains_buf: Vec::new() }
    }

    pub fn from(packet: Packet) -> (r: PacketWriter)
        ensures
            r.spec_packet() == packet@,
    {
        PacketWriter { packet, buf: Vec::new(), domains_buf: Vec::new() }
    }

    /// Encodes the rdata meant for position `start`, recording any names
    /// it writes plainly.
    fn write_record_data(&mut self, start: u16, data: &RecordData) -> (r: Result<
        Vec<u8>,
        DnsError,
    >)
        ensures
            final(self).buf@ == old(self).buf@,
            final(self).packet == old(self).packet,
            ({
                match spec_enc_rdata(start as int, spec_doms(old(self).domains_buf@), data@) {
                    Ok((b, d)) => {
                        &&& r matches Ok(v) && v@ == b
                        &&& spec_doms(final(self).domains_buf@) == d
                    },
                    Err(e) => r matches Err(e2) && e2 == e,
                }
            }),
    {
        proof {
            reveal(spec_enc_rdata);
        }
        match data {
            RecordData::A(addr) => {
                if start > 508 {
                    return Err(DnsError::EndOfBuffer);
                }
                let mut out: Vec<u8> = Vec::new();
                push_u32(&mut out, *addr);
                proof {
                    assert(out@ =~= spec_u32_bytes(*addr));
                }
                Ok(out)
            },
            RecordData::NS(host) => encode_domain(&mut self.domains_buf, start, host),
            RecordData::CNAME(host) => encode_domain(&mut self.domains_buf, start, host),
            RecordData::PTR(host) => encode_domain(&mut self.domains_buf, start, host),
            RecordData::TXT(text) => encode_cstr(start, text),
            RecordData::HINFO { cpu, os } => {
                let mut out = encode_cstr(start, cpu)?;
                let mut os_bytes = encode_cstr(start + out.len() as u16, os)?;
                out.append(&mut os_bytes);
                Ok(out)
            },
            RecordData::SOA { mname, rname, serial, refresh, retry, expire, minimum } => {
                let ghost d0 = spec_doms(self.domains_buf@);
                let mut out = encode_domain(&mut self.domains_buf, start, mname)?;
                proof {
                    lemma_enc_domain_fits(start as int, d0, mname@);
                }
                let mut rbytes = encode_domain(
                    &mut self.domains_buf,
                    start + out.len() as u16,
                    rname,
                )?;
                proof {
                    lemma_enc_domain_fits(
                        start as int + out@.len(),
                        spec_enc_domain(start as int, d0, mname@)->Ok_0.1,
                        rname@,
                    );
                }
                let total: u32 = (start as u32) + (out.len() as u32) + (rbytes.len() as u32) + 20;
                if total > 512 {
                    return Err(DnsError::EndOfBuffer);
                }
                out.append(&mut rbytes);
                push_u32(&mut out, *serial);
                push_u32(&mut out, *refresh);
                push_u32(&mut out, *retry);
                push_u32(&mut out, *expire);
                push_u32(&mut out, *minimum);
                Ok(out)
            },
            RecordData::MX { preference, exchange } => {
                if start > 510 {
                    return Err(DnsError::EndOfBuffer);
                }
                let mut tail = encode_domain(&mut self.domains_buf, start + 2, exchange)?;
                let mut out: Vec<u8> = Vec::new();
                push_u16(&mut out, *preference);
                out.append(&mut tail);
                Ok(out)
            },
            RecordData::AAAA(addr) => {
                if start > 496 {
                    return Err(DnsError::EndOfBuffer);
                }
                let v: u128 = *addr;
                let a: u32 = (v >> 96) as u32;
                let b: u32 = (v >> 64) as u32;
                let c: u32 = (v >> 32) as u32;
                let d: u32 = v as u32;
                proof {
                    assert((v >> 96) as u32 == (v / 0x1000000000000000000000000) as u32
                        && (v >> 64) as u32 == ((v / 0x10000000000000000) % 0x100000000) as u32
                        && (v >> 32) as u32 == ((v / 0x100000000) % 0x100000000) as u32
                        && v as u32 == (v % 0x100000000) as u32) by (bit_vector);
                }
                let mut out: Vec<u8> = Vec::new();
                push_u32(&mut out, a);
                push_u32(&mut out, b);
                push_u32(&mut out, c);
                push_u32(&mut out, d);
                proof {
                    assert(out@ =~= spec_u128_bytes(v));
                }
                Ok(out)
            },
            RecordData::SRV { priority, weight, port, host } => {
                if start > 506 {
                    return Err(DnsError::EndOfBuffer);
                }
                let mut tail = encode_domain(&mut self.domains_buf, start + 6, host)?;
                let mut out: Vec<u8> = Vec::new();
                push_u16(&mut out, *priority);
                push_u16(&mut out, *weight);
                push_u16(&mut out, *port);
                out.append(&mut tail);
                Ok(out)
            },
            RecordData::UNKNOWN(n) => {
                if (start as u32) + (*n as u32) > 512 {
                    return Err(DnsError::EndOfBuffer);
                }
                let mut out: Vec<u8> = Vec::new();
                let mut i: u16 = 0;
                while i < *n
                    invariant
                        0 <= i <= *n,
                        out@ == Seq::new(i as nat, |k: int| 0u8),
                    decreases *n - i,
                {
                    out.push(0);
                    proof {
                        assert(out@ =~= Seq::new(i as nat + 1, |k: int| 0u8));
                    }
                    i = i + 1;
                }
                Ok(out)
            },
        }
    }

    /// Writes one record: its name, the fixed fields, and the rdata
    /// behind its computed length.
    #[verifier::rlimit(100)]
    fn write_record(&mut self, record: &Record) -> (r: Result<(), DnsError>)
        requires
            old(self).buf@.len() <= 512,
        ensures
            final(self).packet == old(self).packet,
            ({
                match spec_enc_record(
                    old(self).buf@.len() as int,
                    spec_doms(old(self).domains_buf@),
                    record@,
                ) {
                    Ok((b, d)) => {
                        &&& r matches Ok(u) && u == ()
                        &&& final(self).buf@ == old(self).buf@ + b
                        &&& spec_doms(final(self).domains_buf@) == d
                    },
                    Err(e) => r matches Err(e2) && e2 == e,
                }
            }),
    {
        proof {
            reveal(spec_enc_record);
        }
        let ghost start0 = self.buf@.len() as int;
        let ghost d0 = spec_doms(self.domains_buf@);

        let nb = encode_domain(&mut self.domains_buf, self.buf.len() as u16, &record.domain)?;
        proof {
            lemma_enc_domain_fits(start0, d0, record.domain@);
        }
        put_bytes(&mut self.buf, nb)?;
        put_u16(&mut self.buf, record.rtype.to_num())?;
        put_u16(&mut self.buf, record.rclass.to_num())?;
        put_u32(&mut self.buf, record.ttl)?;

        let ghost d1 = spec_doms(self.domains_buf@);
        let start: u16 = (self.buf.len() + 2) as u16;
        let data_bytes = self.write_record_data(start, &record.data)?;
        proof {
            lemma_enc_rdata_fits(start as int, d1, record.data@);
        }
        put_u16(&mut self.buf, data_bytes.len() as u16)?;
        put_bytes(&mut self.buf, data_bytes)?;
        proof {
            assert(self.buf@ =~= old(self).buf@ + spec_enc_record(
                start0,
                d0,
                record@,
            )->Ok_0.0);
        }

        Ok(())
    }

    /// Writes the question section.
    #[verifier::loop_isolation(false)]
    #[verifier::rlimit(100)]
    fn write_questions(&mut self, questions: &Vec<Question>) -> (r: Result<(), DnsError>)
        requires
            old(self).buf@.len() <= 512,
        ensures
            final(self).packet == old(self).packet,
            ({
                match spec_enc_questions(
                    old(self).buf@.len() as int,
                    spec_doms(old(self).domains_buf@),
                    spec_questions(questions@),
                ) {
                    Ok((b, d)) => {
                        &&& r matches Ok(u) && u == ()
                        &&& final(self).buf@ == old(self).buf@ + b
                        &&& spec_doms(final(self).domains_buf@) == d
                    },
                    Err(e) => r matches Err(e2) && e2 == e,
                }
            }),
    {
        let ghost qv = spec_questions(questions@);
        let ghost buf0 = old(self).buf@;
        let ghost overall = spec_enc_questions(
            buf0.len() as int,
            spec_doms(old(self).domains_buf@),
            qv,
        );

        let mut i: usize = 0;
        proof {
            assert(qv.skip(0) =~= qv);
            assert(buf0.skip(buf0.len() as int) =~= Seq::<u8>::empty());
            assert(buf0 + Seq::<u8>::empty() =~= buf0);
        }
        while i < questions.len()
            invariant
                0 <= i <= questions@.len(),
                self.packet == old(self).packet,
                self.buf@.len() <= 512,
                buf0.is_prefix_of(self.buf@),
                match spec_enc_questions(
                    self.buf@.len() as int,
                    spec_doms(self.domains_buf@),
                    qv.skip(i as int),
                ) {
                    Ok((b, d)) => overall == Ok::<_, DnsError>(
                        (self.buf@.skip(buf0.len() as int) + b, d),
                    ),
                    Err(e) => overall == Err::<(Seq<u8>, Seq<(Seq<u8>, u16)>), _>(e),
                },
            decreases questions@.len() - i,
        {
            let ghost sl = self.buf@.len() as int;
            let ghost dl = spec_doms(self.domains_buf@);
            let ghost bufi = self.buf@;
            proof {
                assert(qv.skip(i as int)[0] == qv[i as int]);
                assert(qv.skip(i as int).drop_first() =~= qv.skip(i as int + 1));
                assert(qv[i as int] == questions@[i as int]@);
            }

            let q = &questions[i];
            let nb = encode_domain(&mut self.domains_buf, self.buf.len() as u16, &q.domain)?;
            proof {
                lemma_enc_domain_fits(sl, dl, q.domain@);
            }
            put_bytes(&mut self.buf, nb)?;
            put_u16(&mut self.buf, q.qtype.to_num())?;
            put_u16(&mut self.buf, q.qclass.to_num())?;

            proof {
                let qb = spec_enc_question(sl, dl, qv[i as int])->Ok_0.0;
                assert(spec_enc_question(sl, dl, qv[i as int]) is Ok);
                assert(self.buf@ =~= bufi + qb);
                assert((bufi + qb).skip(buf0.len() as int) =~= bufi.skip(buf0.len() as int) + qb);
                if let Ok((b2, d2)) = spec_enc_questions(
                    self.buf@.len() as int,
                    spec_doms(self.domains_buf@),
                    qv.skip(i as int + 1),
                ) {
                    assert(bufi.skip(buf0.len() as int) + (qb + b2) =~= (bufi.skip(
                        buf0.len() as int,
                    ) + qb) + b2);
                }
            }
            i = i + 1;
        }

        proof {
            assert(qv.skip(questions@.len() as int) =~= Seq::<QuestionView>::empty());
            assert(self.buf@.skip(buf0.len() as int) + Seq::<u8>::empty() =~= self.buf@.skip(
                buf0.len() as int,
            ));
            assert(buf0 + self.buf@.skip(buf0.len() as int) =~= self.buf@);
        }

        Ok(())
    }

    /// Writes one record section.
    #[verifier::loop_isolation(false)]
    #[verifier::rlimit(100)]
    fn write_records(&mut self, records: &Vec<Record>) -> (r: Result<(), DnsError>)
        requires
            old(self).buf@.len() <= 512,
        ensures
            final(self).packet == old(self).packet,
            ({
                match spec_enc_records(
                    old(self).buf@.len() as int,
                    spec_doms(old(self).domains_buf@),
                    spec_records(records@),
                ) {
                    Ok((b, d)) => {
                        &&& r matches Ok(u) && u == ()
                        &&& final(self).buf@ == old(self).buf@ + b
                        &&& spec_doms(final(self).domains_buf@) == d
                    },
                    Err(e) => r matches Err(e2) && e2 == e,
                }
            }),
    {
        let ghost rv = spec_records(records@);
        let ghost buf0 = old(self).buf@;
        let ghost overall = spec_enc_records(
            buf0.len() as int,
            spec_doms(old(self).domains_buf@),
            rv,
        );

        let mut i: usize = 0;
        proof {
            assert(rv.skip(0) =~= rv);
            assert(buf0.skip(buf0.len() as int) =~= Seq::<u8>::empty());
            assert(buf0 + Seq::<u8>::empty() =~= buf0);
        }
        while i < records.len()
            invariant
                0 <= i <= records@.len(),
                self.packet == old(self).packet,
                self.buf@.len() <= 512,
                buf0.is_prefix_of(self.buf@),
                match spec_enc_records(
                    self.buf@.len() as int,
                    spec_doms(self.domains_buf@),
                    rv.skip(i as int),
                ) {
                    Ok((b, d)) => overall == Ok::<_, DnsError>(
                        (self.buf@.skip(buf0.len() as int) + b, d),
                    ),
                    Err(e) => overall == Err::<(Seq<u8>, Seq<(Seq<u8>, u16)>), _>(e),
                },
            decreases records@.len() - i,
        {
            let ghost sl = self.buf@.len() as int;
            let ghost dl = spec_doms(self.domains_buf@);
            let ghost bufi = self.buf@;
            proof {
                assert(rv.skip(i as int)[0] == rv[i as int]);
                assert(rv.skip(i as int).drop_first() =~= rv.skip(i as int + 1));
                assert(rv[i as int] == records@[i as int]@);
            }

            self.write_record(&records[i])?;

            proof {
                let rb = spec_enc_record(sl, dl, rv[i as int])->Ok_0.0;
                lemma_enc_record_fits(sl, dl, rv[i as int]);
                assert(self.buf@ == bufi + rb);
                assert((bufi + rb).skip(buf0.len() as int) =~= bufi.skip(buf0.len() as int) + rb);
                if let Ok((b2, d2)) = spec_enc_records(
                    self.buf@.len() as int,
                    spec_doms(self.domains_buf@),
                    rv.skip(i as int + 1),
                ) {
                    assert(bufi.skip(buf0.len() as int) + (rb + b2) =~= (bufi.skip(
                        buf0.len() as int,
                    ) + rb) + b2);
                }
            }
            i = i + 1;
        }

        proof {
            assert(rv.skip(records@.len() as int) =~= Seq::<RecordView>::empty());
            assert(self.buf@.skip(buf0.len() as int) + Seq::<u8>::empty() =~= self.buf@.skip(
                buf0.len() as int,
            ));
            assert(buf0 + self.buf@.skip(buf0.len() as int) =~= self.buf@);
        }

        Ok(())
    }

    /// Serialises the whole message into at most 512 bytes.
    #[verifier::rlimit(100)]
    pub fn write(&mut self) -> (r: Result<Vec<u8>, DnsError>)
        ensures
            ({
                match spec_write_packet(old(self).spec_packet()) {
                    Ok(bytes) => r matches Ok(v) && v@ == bytes,
                    Err(e) => r matches Err(e2) && e2 == e,
                }
            }),
    {
        let questions = clone_questions(&self.packet.questions);
        let answers = clone_records(&self.packet.answers);
        let authorities = clone_records(&self.packet.authorities);
        let resources = clone_records(&self.packet.resources);
        let header = self.packet.header;

        // reset the buffer and the offset table before any writes
        self.buf = Vec::new();
        self.domains_buf = Vec::new();

        put_u16(&mut self.buf, header.id)?;
        let flags = write_header_flags(&header);
        put_byte(&mut self.buf, flags.0)?;
        put_byte(&mut self.buf, flags.1)?;
        put_u16(&mut self.buf, header.question_count)?;
        put_u16(&mut self.buf, header.answer_count)?;
        put_u16(&mut self.buf, header.authority_count)?;
        put_u16(&mut self.buf, header.resource_count)?;
        proof {
            assert(self.buf@ =~= spec_header_bytes(header));
            assert(spec_doms(self.domains_buf@) =~= Seq::<(Seq<u8>, u16)>::empty());
        }

        let ghost hb = spec_header_bytes(header);
        let ghost pv = old(self).packet@;

        self.write_questions(&questions)?;
        let ghost qb = spec_enc_questions(12, seq![], pv.questions)->Ok_0.0;
        proof {
            lemma_enc_questions_fits(12, seq![], pv.questions);
        }
        self.write_records(&answers)?;
        let ghost d1 = spec_enc_questions(12, seq![], pv.questions)->Ok_0.1;
        let ghost ab = spec_enc_records(12 + qb.len() as int, d1, pv.answers)->Ok_0.0;
        let ghost d2 = spec_enc_records(12 + qb.len() as int, d1, pv.answers)->Ok_0.1;
        proof {
            assert(hb + qb + ab =~= (hb + qb) + ab);
        }
        proof {
            lemma_enc_records_fits(12 + qb.len() as int, d1, pv.answers);
        }
        self.write_records(&authorities)?;
        let ghost ub = spec_enc_records(12 + qb.len() as int + ab.len() as int, d2, pv.authorities)->Ok_0.0;
        let ghost d3 = spec_enc_records(12 + qb.len() as int + ab.len() as int, d2, pv.authorities)->Ok_0.1;
        proof {
            assert(hb + qb + ab + ub =~= ((hb + qb) + ab) + ub);
        }
        proof {
            lemma_enc_records_fits(12 + qb.len() as int + ab.len() as int, d2, pv.authorities);
        }
        self.write_records(&resources)?;
        let ghost rb = spec_enc_records(
            12 + qb.len() as int + ab.len() as int + ub.len() as int,
            d3,
            pv.resources,
        )->Ok_0.0;
        proof {
            assert(hb + qb + ab + ub + rb =~= (((hb + qb) + ab) + ub) + rb);
        }

        let out = clone_bytes(&self.buf);
        Ok(out)
    }
}

/// An encoded question run never passes the datagram bound.
pub proof fn lemma_enc_questions_fits(start: int, doms: Seq<(Seq<u8>, u16)>, qs: Seq<QuestionView>)
    requires
        spec_enc_questions(start, doms, qs) is Ok,
        0 <= start <= 512,
    ensures
        start + spec_enc_questions(start, doms, qs)->Ok_0.0.len() <= 512,
    decreases qs.len(),
{
    if qs.len() == 0 {
    } else {
        lemma_enc_question_fits(start, doms, qs[0]);
        let b = spec_enc_question(start, doms, qs[0])->Ok_0.0;
        let d = spec_enc_question(start, doms, qs[0])->Ok_0.1;
        lemma_enc_questions_fits(start + b.len(), d, qs.drop_first());
    }
}

/// An encoded record run never passes the datagram bound.
pub proof fn lemma_enc_records_fits(start: int, doms: Seq<(Seq<u8>, u16)>, rs: Seq<RecordView>)
    requires
        spec_enc_records(start, doms, rs) is Ok,
        0 <= start <= 512,
    ensures
        start + spec_enc_records(start, doms, rs)->Ok_0.0.len() <= 512,
    decreases rs.len(),
{
    if rs.len() == 0 {
    } else {
        lemma_enc_record_fits(start, doms, rs[0]);
        let b = spec_enc_record(start, doms, rs[0])->Ok_0.0;
        let d = spec_enc_record(start, doms, rs[0])->Ok_0.1;
        lemma_enc_records_fits(start + b.len(), d, rs.drop_first());
    }
}

/// An encoded question never runs past the datagram bound.
pub proof fn lemma_enc_question_fits(start: int, doms: Seq<(Seq<u8>, u16)>, q: QuestionView)
    requires
        spec_enc_question(start, doms, q) is Ok,
        start >= 0,
    ensures
        start + spec_enc_question(start, doms, q)->Ok_0.0.len() <= 512,
{
    lemma_enc_domain_fits(start, doms, q.domain);
}

/// An encoded record never runs past the datagram bound.
pub proof fn lemma_enc_record_fits(start: int, doms: Seq<(Seq<u8>, u16)>, r: RecordView)
    requires
        spec_enc_record(start, doms, r) is Ok,
        start >= 0,
    ensures
        start + spec_enc_record(start, doms, r)->Ok_0.0.len() <= 512,
{
    reveal(spec_enc_record);
    lemma_enc_domain_fits(start, doms, r.domain);
    let nb = spec_enc_domain(start, doms, r.domain)->Ok_0.0;
    let d1 = spec_enc_domain(start, doms, r.domain)->Ok_0.1;
    let s1 = start + nb.len();
    lemma_enc_rdata_fits(s1 + 10, d1, r.data);
}


// ---------------------------------------------------------------------------
// The codec round trip on names: a well-formed lowercase name written
// plainly reads back as itself, leaving the stream just past it.
// ---------------------------------------------------------------------------

/// Joining each further label onto the name gathered so far, dotted.
pub open spec fn spec_acc_join(acc: Seq<u8>, ls: Seq<Seq<u8>>) -> Seq<u8>
    decreases ls.len(),
{
    if ls.len() == 0 {
        acc
    } else if acc.len() == 0 {
        spec_acc_join(ls[0], ls.drop_first())
    } else {
        spec_acc_join(acc + seq![46u8] + ls[0], ls.drop_first())
    }
}

/// A name fit for the round trip: every label one to 63 bytes, every
/// byte already lowercase.
pub open spec fn spec_name_ok(n: Seq<u8>) -> bool {
    &&& forall|i: int|
        0 <= i < spec_labels(n).len() ==> 1 <= (#[trigger] spec_labels(n)[i]).len() <= 63
    &&& forall|i: int| 0 <= i < n.len() ==> crate::parser::spec_lower(#[trigger] n[i]) == n[i]
}

/// Joining the split of `s` onto the gathered prefix `p` restores `p`,
/// a dot, the label begun in `al`, and `s` itself.
proof fn lemma_join_split(s: Seq<u8>, al: Seq<u8>, p: Seq<u8>)
    requires
        forall|i: int| 0 <= i < spec_split_acc(s, al).len() ==> (#[trigger] spec_split_acc(
            s,
            al,
        )[i]).len() >= 1,
    ensures
        spec_acc_join(p, spec_split_acc(s, al)) == (if p.len() == 0 {
            al + s
        } else {
            p + seq![46u8] + al + s
        }),
    decreases s.len(),
{
    if s.len() == 0 {
        assert(spec_split_acc(s, al) == seq![al]);
        assert(seq![al].drop_first() =~= Seq::<Seq<u8>>::empty());
        if p.len() == 0 {
            assert(spec_acc_join(p, seq![al]) == spec_acc_join(al, Seq::<Seq<u8>>::empty()));
            assert(spec_acc_join(al, Seq::<Seq<u8>>::empty()) == al);
            assert(al + s =~= al);
        } else {
            assert(spec_acc_join(p, seq![al]) == spec_acc_join(
                p + seq![46u8] + al,
                Seq::<Seq<u8>>::empty(),
            ));
            assert(spec_acc_join(p + seq![46u8] + al, Seq::<Seq<u8>>::empty()) == p + seq![46u8]
                + al);
            assert(p + seq![46u8] + al + s =~= p + seq![46u8] + al);
        }
    } else if s[0] == 46 {
        let rest = spec_split_acc(s.drop_first(), seq![]);
        assert(spec_split_acc(s, al) == seq![al] + rest);
        assert((seq![al] + rest)[0] == al);
        assert(al.len() >= 1);
        assert(forall|i: int|
            0 <= i < rest.len() ==> (#[trigger] rest[i]) == (seq![al] + rest)[i + 1]);
        assert(forall|i: int| 0 <= i < rest.len() ==> (#[trigger] rest[i]).len() >= 1);
        let p2: Seq<u8> = if p.len() == 0 {
            al
        } else {
            p + seq![46u8] + al
        };
        assert((seq![al] + rest).drop_first() =~= rest);
        assert(spec_acc_join(p, spec_split_acc(s, al)) == spec_acc_join(p2, rest));
        lemma_join_split(s.drop_first(), seq![], p2);
        assert(p2.len() >= 1);
        assert(spec_acc_join(p2, rest) == p2 + seq![46u8] + Seq::<u8>::empty() + s.drop_first());
        if p.len() == 0 {
            assert(p2 + seq![46u8] + Seq::<u8>::empty() + s.drop_first() =~= al + s);
        } else {
            assert(p2 + seq![46u8] + Seq::<u8>::empty() + s.drop_first() =~= p + seq![46u8] + al
                + s);
        }
    } else {
        assert(spec_split_acc(s, al) == spec_split_acc(s.drop_first(), al.push(s[0])));
        lemma_join_split(s.drop_first(), al.push(s[0]), p);
        if p.len() == 0 {
            assert(al.push(s[0]) + s.drop_first() =~= al + s);
        } else {
            assert(p + seq![46u8] + al.push(s[0]) + s.drop_first() =~= p + seq![46u8] + al + s);
        }
    }
}

/// Every byte of every label of `s` is a byte of `s` or of the label
/// begun in `al`: lowercase input gives lowercase labels.
proof fn lemma_split_lowercase(s: Seq<u8>, al: Seq<u8>)
    requires
        forall|i: int| 0 <= i < s.len() ==> crate::parser::spec_lower(#[trigger] s[i]) == s[i],
        forall|i: int| 0 <= i < al.len() ==> crate::parser::spec_lower(#[trigger] al[i]) == al[i],
    ensures
        forall|i: int, j: int|
            0 <= i < spec_split_acc(s, al).len() && 0 <= j < spec_split_acc(s, al)[i].len()
                ==> crate::parser::spec_lower(#[trigger] spec_split_acc(s, al)[i][j])
                == spec_split_acc(s, al)[i][j],
    decreases s.len(),
{
    if s.len() == 0 {
        assert(spec_split_acc(s, al) == seq![al]);
    } else if s[0] == 46 {
        let rest = spec_split_acc(s.drop_first(), seq![]);
        lemma_split_lowercase(s.drop_first(), seq![]);
        assert(spec_split_acc(s, al) == seq![al] + rest);
        assert forall|i: int, j: int|
            0 <= i < spec_split_acc(s, al).len() && 0 <= j < spec_split_acc(s, al)[i].len()
                implies crate::parser::spec_lower(#[trigger] spec_split_acc(s, al)[i][j])
            == spec_split_acc(s, al)[i][j] by {
            if i == 0 {
                assert(spec_split_acc(s, al)[0] == al);
            } else {
                assert(spec_split_acc(s, al)[i] == rest[i - 1]);
            }
        }
    } else {
        lemma_split_lowercase(s.drop_first(), al.push(s[0]));
        assert(spec_split_acc(s, al) == spec_split_acc(s.drop_first(), al.push(s[0])));
    }
}

/// Reading plainly encoded labels: the parser walks each length byte
/// and its label, joins them onto `acc`, and stops at the zero byte.
proof fn lemma_parse_enc_labels(buf: Seq<u8>, pos: int, ls: Seq<Seq<u8>>, jumps: int, acc: Seq<u8>)
    requires
        0 <= pos,
        pos + spec_enc_labels(ls).len() + 1 <= 512,
        pos + spec_enc_labels(ls).len() + 1 <= buf.len(),
        buf.subrange(pos, pos + spec_enc_labels(ls).len() + 1) == spec_enc_labels(ls) + seq![0u8],
        forall|i: int| 0 <= i < ls.len() ==> 1 <= (#[trigger] ls[i]).len() <= 63,
        forall|i: int, j: int|
            0 <= i < ls.len() && 0 <= j < ls[i].len() ==> crate::parser::spec_lower(
                #[trigger] ls[i][j],
            ) == ls[i][j],
        0 <= jumps <= 6,
    ensures
        crate::parser::spec_parse_name_at(buf, pos, jumps, acc) == Ok::<(Seq<u8>, int), DnsError>(
            (spec_acc_join(acc, ls), pos + spec_enc_labels(ls).len() + 1),
        ),
    decreases ls.len(),
{
    if ls.len() == 0 {
        assert(spec_enc_labels(ls).len() == 0);
        assert(buf[pos] == (spec_enc_labels(ls) + seq![0u8])[0]);
        assert(buf[pos] == 0);
        assert(crate::parser::spec_can_read(buf, pos));
    } else {
        let l0 = ls[0];
        let rest = ls.drop_first();
        let enc = spec_enc_labels(ls);
        assert(enc == seq![l0.len() as u8] + l0 + spec_enc_labels(rest));
        assert(enc.len() == 1 + l0.len() + spec_enc_labels(rest).len());

        assert(buf[pos] == (enc + seq![0u8])[0]);
        assert(buf[pos] == l0.len() as u8);
        assert(1 <= buf[pos] <= 63);
        assert(crate::parser::spec_can_read(buf, pos));

        // the label's bytes stand just after the length byte
        assert(buf.subrange(pos + 1, pos + 1 + l0.len()) =~= l0) by {
            assert forall|k: int| 0 <= k < l0.len() implies buf.subrange(
                pos + 1,
                pos + 1 + l0.len(),
            )[k] == l0[k] by {
                assert(buf[pos + 1 + k] == buf.subrange(
                    pos,
                    pos + spec_enc_labels(ls).len() + 1,
                )[1 + k]);
                assert((enc + seq![0u8])[1 + k] == l0[k]);
            }
        }
        assert(crate::parser::spec_lower_seq(l0) =~= l0);

        let acc2: Seq<u8> = if acc.len() == 0 {
            l0
        } else {
            acc + seq![46u8] + l0
        };

        let pos2 = pos + 1 + l0.len();
        assert(buf.subrange(pos2, pos2 + spec_enc_labels(rest).len() + 1) =~= spec_enc_labels(rest)
            + seq![0u8]) by {
            assert forall|k: int|
                0 <= k < spec_enc_labels(rest).len() + 1 implies buf.subrange(
                pos2,
                pos2 + spec_enc_labels(rest).len() + 1,
            )[k] == (spec_enc_labels(rest) + seq![0u8])[k] by {
                assert(buf[pos2 + k] == buf.subrange(
                    pos,
                    pos + spec_enc_labels(ls).len() + 1,
                )[1 + l0.len() + k]);
                assert((enc + seq![0u8])[1 + l0.len() + k] == (spec_enc_labels(rest)
                    + seq![0u8])[k]);
            }
        }
        assert(forall|i: int| 0 <= i < rest.len() ==> (#[trigger] rest[i]) == ls[i + 1]);
        lemma_parse_enc_labels(buf, pos2, rest, jumps, acc2);
        assert(spec_acc_join(acc, ls) == spec_acc_join(acc2, rest));
    }
}

/// The round trip on one name: a well-formed lowercase name, written
/// in its plain wire form, parses back to exactly itself, the stream
/// ending just past its closing zero byte.
pub proof fn lemma_domain_round_trip(n: Seq<u8>)
    requires
        spec_name_ok(n),
        spec_write_domain_plain(n).len() <= 512,
    ensures
        spec_labels_ok(n),
        crate::parser::spec_parse_name(spec_write_domain_plain(n), 0) == Ok::<
            (Seq<u8>, int),
            DnsError,
        >((n, spec_write_domain_plain(n).len() as int)),
{
    let ls = spec_labels(n);
    let plain = spec_write_domain_plain(n);
    assert(plain.subrange(0, plain.len() as int) =~= plain);
    lemma_split_lowercase(n, seq![]);
    lemma_parse_enc_labels(plain, 0, ls, 0, seq![]);
    lemma_join_split(n, seq![], seq![]);
    assert(spec_acc_join(seq![], ls) == Seq::<u8>::empty() + n);
    assert(Seq::<u8>::empty() + n =~= n);
}


/// The round trip on the header: the twelve written bytes read back
/// as the same header, its small fields being in range.
pub proof fn lemma_header_round_trip(h: Header)
    requires
        h.opcode < 16,
        h.reserved < 8,
        h.code < 16,
    ensures
        crate::parser::spec_parse_header(spec_header_bytes(h)) == Ok::<Header, DnsError>(h),
{
    let hb = spec_header_bytes(h);
    assert(hb.len() == 12);
    assert(hb[0] == (h.id / 256) as u8 && hb[1] == (h.id % 256) as u8);
    assert(hb[2] == spec_flags_byte0(h) && hb[3] == spec_flags_byte1(h));
    assert(hb[4] == (h.question_count / 256) as u8 && hb[5] == (h.question_count % 256) as u8);
    assert(hb[6] == (h.answer_count / 256) as u8 && hb[7] == (h.answer_count % 256) as u8);
    assert(hb[8] == (h.authority_count / 256) as u8 && hb[9] == (h.authority_count % 256) as u8);
    assert(hb[10] == (h.resource_count / 256) as u8 && hb[11] == (h.resource_count % 256) as u8);

    assert(crate::parser::spec_read_u16(hb, 0) == h.id) by {
        assert((h.id / 256) * 256 + h.id % 256 == h.id);
    }
    assert(crate::parser::spec_read_u16(hb, 4) == h.question_count) by {
        assert((h.question_count / 256) * 256 + h.question_count % 256 == h.question_count);
    }
    assert(crate::parser::spec_read_u16(hb, 6) == h.answer_count) by {
        assert((h.answer_count / 256) * 256 + h.answer_count % 256 == h.answer_count);
    }
    assert(crate::parser::spec_read_u16(hb, 8) == h.authority_count) by {
        assert((h.authority_count / 256) * 256 + h.authority_count % 256 == h.authority_count);
    }
    assert(crate::parser::spec_read_u16(hb, 10) == h.resource_count) by {
        assert((h.resource_count / 256) * 256 + h.resource_count % 256 == h.resource_count);
    }

    let b0 = spec_flags_byte0(h);
    let b1 = spec_flags_byte1(h);
    let rd: int = spec_bit(h.recursion_desired) as int;
    let tc: int = spec_bit(h.truncation) as int;
    let aa: int = spec_bit(h.authoritative) as int;
    let qr: int = spec_bit(h.response) as int;
    let ra: int = spec_bit(h.recursion_available) as int;

    assert(b0 == rd + tc * 2 + aa * 4 + (h.opcode % 16) * 8 + qr * 128);
    assert(h.opcode % 16 == h.opcode && h.reserved % 8 == h.reserved && h.code % 16 == h.code);

    assert((b0 / 128) % 2 == qr && (b0 / 8) % 16 == h.opcode && (b0 / 4) % 2 == aa && (b0 / 2) % 2
        == tc && b0 % 2 == rd) by (nonlinear_arith)
        requires
            b0 == rd + tc * 2 + aa * 4 + h.opcode * 8 + qr * 128 && 0 <= rd <= 1 && 0 <= tc <= 1
                && 0 <= aa <= 1 && 0 <= qr <= 1 && 0 <= h.opcode < 16,
    ;
    assert(b1 == h.code + h.reserved * 16 + ra * 128);
    assert((b1 / 128) % 2 == ra && (b1 / 16) % 8 == h.reserved && b1 % 16 == h.code)
        by (nonlinear_arith)
        requires
            b1 == h.code + h.reserved * 16 + ra * 128 && 0 <= ra <= 1 && 0 <= h.reserved < 8 && 0
                <= h.code < 16,
    ;

    let parsed = crate::parser::spec_header_from_bytes(hb);
    assert(parsed.response == h.response && parsed.recursion_available == h.recursion_available
        && parsed.recursion_desired == h.recursion_desired && parsed.truncation == h.truncation
        && parsed.authoritative == h.authoritative);
    assert(parsed == h);
}


/// The round trip on one question: written plainly at the head of a
/// datagram, it parses back to itself.
pub proof fn lemma_question_round_trip(q: QuestionView)
    requires
        spec_name_ok(q.domain),
        spec_write_question_plain(q).len() <= 512,
    ensures
        crate::parser::spec_parse_question_at(spec_write_question_plain(q), 0) == Ok::<
            (QuestionView, int),
            DnsError,
        >((q, spec_write_question_plain(q).len() as int)),
{
    let buf = spec_write_question_plain(q);
    let plain = spec_write_domain_plain(q.domain);
    let ls = spec_labels(q.domain);

    assert(buf == plain + spec_u16_bytes(q.qtype.spec_num()) + spec_u16_bytes(q.qclass.spec_num()));
    assert(buf.subrange(0, plain.len() as int) =~= plain);

    lemma_split_lowercase(q.domain, seq![]);
    lemma_parse_enc_labels(buf, 0, ls, 0, seq![]);
    lemma_join_split(q.domain, seq![], seq![]);
    assert(spec_acc_join(seq![], ls) == Seq::<u8>::empty() + q.domain);
    assert(Seq::<u8>::empty() + q.domain =~= q.domain);

    let end = plain.len() as int;
    assert(crate::parser::spec_parse_name(buf, 0) == Ok::<(Seq<u8>, int), DnsError>(
        (q.domain, end),
    ));

    let tb = spec_u16_bytes(q.qtype.spec_num());
    let cb = spec_u16_bytes(q.qclass.spec_num());
    assert(buf[end] == tb[0] && buf[end + 1] == tb[1]);
    assert(buf[end + 2] == cb[0] && buf[end + 3] == cb[1]);
    assert(crate::parser::spec_read_u16(buf, end) == q.qtype.spec_num()) by {
        assert((q.qtype.spec_num() / 256) * 256 + q.qtype.spec_num() % 256 == q.qtype.spec_num());
    }
    assert(crate::parser::spec_read_u16(buf, end + 2) == q.qclass.spec_num()) by {
        assert((q.qclass.spec_num() / 256) * 256 + q.qclass.spec_num() % 256
            == q.qclass.spec_num());
    }
    assert(QueryType::spec_from(q.qtype.spec_num()) == q.qtype);
    assert(QueryClass::spec_from(q.qclass.spec_num()) == q.qclass);
    assert(crate::parser::spec_can_read_n(buf, end, 4));
    assert(crate::parser::spec_parse_question_at(buf, 0)->Ok_0.0 == q);
}


/// Whether writing a stub query for `q` (one question, no records)
/// fails, and how: a label above 63 bytes is fatal, and a name too
/// long for the datagram runs out of room.  The header and the random
/// id play no part.
pub open spec fn spec_stub_write_err(q: QuestionView) -> Option<DnsError> {
    if !spec_labels_ok(q.domain) {
        Some(DnsError::BadLabel)
    } else if 12 + spec_write_domain_plain(q.domain).len() + 4 > 512 {
        Some(DnsError::EndOfBuffer)
    } else {
        None
    }
}

/// Writing a packet with one question and no records succeeds or fails
/// exactly as `spec_stub_write_err` says of the question.
pub proof fn lemma_stub_write(pv: PacketView)
    requires
        pv.questions.len() == 1,
        pv.answers.len() == 0,
        pv.authorities.len() == 0,
        pv.resources.len() == 0,
    ensures
        ({
            match spec_stub_write_err(pv.questions[0]) {
                Some(e) => spec_write_packet(pv) == Err::<Seq<u8>, DnsError>(e),
                None => spec_write_packet(pv) is Ok,
            }
        }),
{
    let q = pv.questions[0];
    assert(pv.questions[0] == pv.questions.first());
    assert(pv.questions.drop_first() =~= Seq::<QuestionView>::empty());
    assert(spec_dom_lookup(seq![], q.domain) is None);

    let dq = spec_enc_domain(12, seq![], q.domain);
    if !spec_labels_ok(q.domain) {
        assert(dq == Err::<(Seq<u8>, Seq<(Seq<u8>, u16)>), DnsError>(DnsError::BadLabel));
        assert(spec_enc_question(12, seq![], q) == Err::<
            (Seq<u8>, Seq<(Seq<u8>, u16)>),
            DnsError,
        >(DnsError::BadLabel));
        assert(spec_enc_questions(12, seq![], pv.questions) == Err::<
            (Seq<u8>, Seq<(Seq<u8>, u16)>),
            DnsError,
        >(DnsError::BadLabel));
    } else if 12 + spec_write_domain_plain(q.domain).len() > 512 {
        assert(dq == Err::<(Seq<u8>, Seq<(Seq<u8>, u16)>), DnsError>(DnsError::EndOfBuffer));
        assert(spec_enc_questions(12, seq![], pv.questions) == Err::<
            (Seq<u8>, Seq<(Seq<u8>, u16)>),
            DnsError,
        >(DnsError::EndOfBuffer));
    } else if 12 + spec_write_domain_plain(q.domain).len() + 4 > 512 {
        assert(dq is Ok && dq->Ok_0.0 == spec_write_domain_plain(q.domain));
        assert(spec_enc_question(12, seq![], q) == Err::<
            (Seq<u8>, Seq<(Seq<u8>, u16)>),
            DnsError,
        >(DnsError::EndOfBuffer));
        assert(spec_enc_questions(12, seq![], pv.questions) == Err::<
            (Seq<u8>, Seq<(Seq<u8>, u16)>),
            DnsError,
        >(DnsError::EndOfBuffer));
    } else {
        assert(dq is Ok && dq->Ok_0.0 == spec_write_domain_plain(q.domain));
        assert(spec_enc_question(12, seq![], q) is Ok);
        let qe = spec_enc_question(12, seq![], q)->Ok_0;
        assert(spec_enc_questions(12 + qe.0.len() as int, qe.1, Seq::<QuestionView>::empty())
            is Ok);
        assert(spec_enc_questions(12, seq![], pv.questions) is Ok);
        let qs = spec_enc_questions(12, seq![], pv.questions)->Ok_0;
        assert(spec_enc_records(12 + qs.0.len() as int, qs.1, pv.answers) == Ok::<
            (Seq<u8>, Seq<(Seq<u8>, u16)>),
            DnsError,
        >((seq![], qs.1)));
        let s2 = 12 + qs.0.len() as int;
        assert(spec_enc_records(s2, qs.1, pv.authorities) == Ok::<
            (Seq<u8>, Seq<(Seq<u8>, u16)>),
            DnsError,
        >((seq![], qs.1)));
        assert(s2 + Seq::<u8>::empty().len() == s2);
        assert(spec_enc_records(s2, qs.1, pv.resources) == Ok::<
            (Seq<u8>, Seq<(Seq<u8>, u16)>),
            DnsError,
        >((seq![], qs.1)));
        assert(spec_write_packet(pv) is Ok);
    }
}

} // verus!
