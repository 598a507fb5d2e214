use vstd::prelude::*;
use vstd::map::*;
use crate::addr::{IpAddr, SockAddr};
use crate::cache::{now_secs, spec_fresh_records, DnsCache, DnsCacheItem};
use crate::errors::DnsError;
use crate::handler::Handler;
use crate::header::Header;
use crate::packet::{clone_records, spec_questions, spec_records, Packet, PacketView};
use crate::parser::{spec_parse_packet, PacketParser};
use crate::query_class::QueryClass;
use crate::query_type::QueryType;
use crate::question::{Question, QuestionView};
use crate::record::{Record, RecordData, RecordDataView, RecordView};
use crate::result_code::ResultCode;
use crate::writer::{spec_write_packet, PacketWriter};

verus! {

/// How far a chain of referrals may be followed.
pub const DEFAULT_MAX_RECURSION_DEPTH: usize = 10;

/// How much total work one query may spend across nested name-server
/// resolutions before it fails with `MaxDepthExceeded`.
pub const RECURSION_FUEL: u32 = 64;

/// A stub query for one question: a random id, recursion desired.
pub fn new_query_packet(question: Question) -> (r: Packet)
    ensures
        r@.header.recursion_desired,
        !r@.header.response,
        r@.header.question_count == 1,
        r@.header.answer_count == 0,
        r@.header.authority_count == 0,
        r@.header.resource_count == 0,
        r@.header.opcode == 0,
        r@.header.code == 0,
        r@.questions == seq![question@],
        r@.answers.len() == 0,
        r@.authorities.len() == 0,
        r@.resources.len() == 0,
{
    let mut req = Packet::new();
    req.header.id = rand::random::<u16>();
    req.header.recursion_desired = true;
    req.header.question_count = 1;
    req.questions.push(question);
    proof {
        assert(req@.questions =~= seq![question@]);
    }

    req
}

/// A synthetic reply built from cached records.
pub fn create_resp_packet(req: &Packet, records: Vec<Record>) -> (r: Packet)
    ensures
        r@.header == (Header {
            recursion_available: true,
            response: true,
            answer_count: records@.len() as u16,
            ..req@.header
        }),
        r@.questions == req@.questions,
        r@.answers == spec_records(records@),
        r@.authorities.len() == 0,
        r@.resources.len() == 0,
{
    let mut packet = Packet::from(req);
    packet.header.recursion_available = true;
    packet.header.response = true;
    #[verifier::truncate]
    let count: u16 = records.len() as u16;
    packet.header.answer_count = count;

    packet.answers = records;

    packet
}

/// A response settles its question: it carries answers, and either it
/// says the name does not exist, or some answer has the asked type.
pub open spec fn spec_is_resolved(q: QuestionView, p: PacketView) -> bool {
    if p.answers.len() == 0 {
        false
    } else if p.header.code == 3 {
        true
    } else {
        exists|i: int| 0 <= i < p.answers.len() && (#[trigger] p.answers[i]).rtype == q.qtype
    }
}

fn is_resolved(question: &Question, result: &Packet) -> (r: bool)
    ensures
        r == spec_is_resolved(question@, result@),
{
    if result.answers.len() == 0 {
        return false;
    }

    if result.header.code == ResultCode::NXDOMAIN.to_u8() {
        return true;
    }

    let mut i: usize = 0;
    while i < result.answers.len()
        invariant
            0 <= i <= result.answers@.len(),
            forall|k: int|
                0 <= k < i ==> (#[trigger] spec_records(result.answers@)[k]).rtype
                    != question@.qtype,
        decreases result.answers@.len() - i,
    {
        if record_type_eq(&result.answers[i].rtype, &question.qtype) {
            proof {
                assert(spec_records(result.answers@)[i as int].rtype == question@.qtype);
            }
            return true;
        }
        proof {
            assert(spec_records(result.answers@)[i as int] == result.answers@[i as int]@);
        }
        i = i + 1;
    }
    proof {
        assert(forall|k: int|
            0 <= k < result@.answers.len() ==> (#[trigger] result@.answers[k]).rtype
                != question@.qtype);
    }
    false
}

/// Compares two record types.
fn record_type_eq(a: &QueryType, b: &QueryType) -> (r: bool)
    ensures
        r == (a == b),
{
    a.to_num() == b.to_num()
}

/// The owner-to-target map of a list of CNAME records, later records
/// replacing earlier ones under the same owner.
pub open spec fn spec_cname_pairs(rs: Seq<RecordView>) -> Map<Seq<u8>, Seq<u8>>
    decreases rs.len(),
{
    if rs.len() == 0 {
        Map::empty()
    } else {
        let m = spec_cname_pairs(rs.drop_last());
        match rs.last().data {
            RecordDataView::CNAME(target) => m.insert(rs.last().domain, target),
            _ => m,
        }
    }
}

/// Chasing a CNAME map from `start` for `steps` hops; a name without
/// an entry stays put.
pub open spec fn spec_chase(m: Map<Seq<u8>, Seq<u8>>, start: Seq<u8>, steps: nat) -> Seq<u8>
    decreases steps,
{
    if steps == 0 {
        start
    } else if m.contains_key(start) {
        spec_chase(m, m[start], (steps - 1) as nat)
    } else {
        spec_chase(m, start, (steps - 1) as nat)
    }
}

/// Looks the last CNAME target for `key` up, skipping the owner
/// `except` as a removed entry would be.
#[verifier::loop_isolation(false)]
#[verifier::rlimit(100)]
fn lookup_cname(cnames: &Vec<Record>, key: &Vec<u8>) -> (r: Option<Vec<u8>>)
    ensures
        ({
            let m = spec_cname_pairs(spec_records(cnames@));
            match r {
                Some(v) => m.contains_key(key@) && v@ == m[key@],
                None => !m.contains_key(key@),
            }
        }),
{
    let ghost rv = spec_records(cnames@);
    let mut i: usize = cnames.len();

    proof {
        assert(rv.subrange(0, rv.len() as int) =~= rv);
    }

    while i > 0
        invariant
            0 <= i <= cnames@.len(),
            ({
                let m = spec_cname_pairs(rv);
                let mp = spec_cname_pairs(rv.subrange(0, i as int));
                &&& (m.contains_key(key@) == mp.contains_key(key@))
                &&& (m.contains_key(key@) ==> m[key@] == mp[key@])
            }),
        decreases i,
    {
        i = i - 1;
        proof {
            assert(rv.subrange(0, i as int + 1).drop_last() =~= rv.subrange(0, i as int));
            assert(rv.subrange(0, i as int + 1).last() == rv[i as int]);
            assert(rv[i as int] == cnames@[i as int]@);
        }
        let rec = &cnames[i];
        match &rec.data {
            RecordData::CNAME(target) => {
                if crate::writer::bytes_eq(&rec.domain, key) {
                    return Some(crate::record::clone_bytes(target));
                }
            },
            _ => {},
        }
    }

    proof {
        assert(rv.subrange(0, 0) =~= Seq::<RecordView>::empty());
    }
    None
}

/// Where a CNAME chain starting at `query` ends: the map's entry for
/// the query, chased for as many hops as the map (less the query's own
/// entry) has entries.
pub open spec fn spec_final_cname(query: Seq<u8>, rs: Seq<RecordView>) -> Option<Seq<u8>> {
    let m = spec_cname_pairs(rs);
    if m.contains_key(query) {
        let m2 = m.remove(query);
        Some(spec_chase(m2, m[query], m2.dom().len()))
    } else {
        None
    }
}

/// A CNAME map's domain is finite.
proof fn lemma_cname_pairs_finite(rs: Seq<RecordView>)
    ensures
        spec_cname_pairs(rs).dom().finite(),
    decreases rs.len(),
{
    if rs.len() > 0 {
        lemma_cname_pairs_finite(rs.drop_last());
    }
}

/// A name is in the CNAME map exactly when some record of the list is
/// a CNAME it owns.
proof fn lemma_cname_pairs_contains(rs: Seq<RecordView>, key: Seq<u8>)
    ensures
        spec_cname_pairs(rs).contains_key(key) <==> exists|k: int|
            0 <= k < rs.len() && (#[trigger] rs[k]).domain == key && rs[k].data is CNAME,
    decreases rs.len(),
{
    if rs.len() > 0 {
        lemma_cname_pairs_contains(rs.drop_last(), key);
        assert(forall|k: int| 0 <= k < rs.len() - 1 ==> (#[trigger] rs.drop_last()[k]) == rs[k]);
        let mp = spec_cname_pairs(rs.drop_last());
        if spec_cname_pairs(rs).contains_key(key) {
            if rs.last().data is CNAME && rs.last().domain == key {
                assert(rs[rs.len() - 1].domain == key && rs[rs.len() - 1].data is CNAME);
            } else {
                assert(mp.contains_key(key));
                let k = choose|k: int|
                    0 <= k < rs.drop_last().len() && (#[trigger] rs.drop_last()[k]).domain == key
                        && rs.drop_last()[k].data is CNAME;
                assert(rs[k].domain == key && rs[k].data is CNAME);
            }
        }
        if exists|k: int|
            0 <= k < rs.len() && (#[trigger] rs[k]).domain == key && rs[k].data is CNAME {
            let k = choose|k: int|
                0 <= k < rs.len() && (#[trigger] rs[k]).domain == key && rs[k].data is CNAME;
            if k == rs.len() - 1 {
                assert(spec_cname_pairs(rs).contains_key(key));
            } else {
                assert(rs.drop_last()[k].domain == key && rs.drop_last()[k].data is CNAME);
                assert(mp.contains_key(key));
                assert(spec_cname_pairs(rs).contains_key(key));
            }
        }
    }
}

/// Counts the owners the trimmed CNAME map holds.
#[verifier::loop_isolation(false)]
#[verifier::rlimit(100)]
fn count_cname_owners_except(cnames: &Vec<Record>, except: &Vec<u8>) -> (r: usize)
    ensures
        r == spec_cname_pairs(spec_records(cnames@)).remove(except@).dom().len(),
{
    let ghost rv = spec_records(cnames@);
    let mut count: usize = 0;
    let mut i: usize = 0;

    proof {
        assert(rv.subrange(0, 0) =~= Seq::<RecordView>::empty());
        assert(spec_cname_pairs(Seq::<RecordView>::empty()).remove(except@).dom()
            =~= Set::<Seq<u8>>::empty());
    }

    while i < cnames.len()
        invariant
            0 <= i <= cnames@.len(),
            count <= i,
            count == spec_cname_pairs(rv.subrange(0, i as int)).remove(except@).dom().len(),
        decreases cnames@.len() - i,
    {
        proof {
            assert(rv.subrange(0, i as int + 1).drop_last() =~= rv.subrange(0, i as int));
            assert(rv.subrange(0, i as int + 1).last() == rv[i as int]);
            assert(rv[i as int] == cnames@[i as int]@);
            lemma_cname_pairs_finite(rv.subrange(0, i as int));
        }
        let rec = &cnames[i];
        let is_cname = match &rec.data {
            RecordData::CNAME(_) => true,
            _ => false,
        };
        if is_cname && !crate::writer::bytes_eq(&rec.domain, except) {
            // seen before?
            let mut seen = false;
            let mut k: usize = 0;
            while k < i
                invariant
                    0 <= k <= i <= cnames@.len(),
                    seen <==> exists|j: int|
                        0 <= j < k && (#[trigger] rv[j]).domain == rv[i as int].domain
                            && rv[j].data is CNAME,
                decreases i - k,
            {
                proof {
                    assert(rv[k as int] == cnames@[k as int]@);
                }
                let prev = &cnames[k];
                let prev_cname = match &prev.data {
                    RecordData::CNAME(_) => true,
                    _ => false,
                };
                if prev_cname && crate::writer::bytes_eq(&prev.domain, &rec.domain) {
                    proof {
                        assert(rv[k as int].domain == rv[i as int].domain
                            && rv[k as int].data is CNAME);
                    }
                    seen = true;
                }
                k = k + 1;
            }

            proof {
                let mp = spec_cname_pairs(rv.subrange(0, i as int)).remove(except@);
                let m2 = spec_cname_pairs(rv.subrange(0, i as int + 1)).remove(except@);
                let owner = rv[i as int].domain;
                lemma_cname_pairs_contains(rv.subrange(0, i as int), owner);
                assert(forall|j: int|
                    0 <= j < i ==> (#[trigger] rv.subrange(0, i as int)[j]) == rv[j]);
                if seen {
                    let j = choose|j: int|
                        0 <= j < i && (#[trigger] rv[j]).domain == owner && rv[j].data is CNAME;
                    assert(rv.subrange(0, i as int)[j].domain == owner && rv.subrange(
                        0,
                        i as int,
                    )[j].data is CNAME);
                    assert(spec_cname_pairs(rv.subrange(0, i as int)).contains_key(owner));
                    assert(m2.dom() =~= mp.dom());
                } else {
                    assert(!spec_cname_pairs(rv.subrange(0, i as int)).contains_key(owner)) by {
                        if spec_cname_pairs(rv.subrange(0, i as int)).contains_key(owner) {
                            let k = choose|k: int|
                                0 <= k < rv.subrange(0, i as int).len() && (#[trigger] rv.subrange(
                                    0,
                                    i as int,
                                )[k]).domain == owner && rv.subrange(0, i as int)[k].data is CNAME;
                            assert(rv[k].domain == owner && rv[k].data is CNAME);
                        }
                    }
                    assert(m2.dom() =~= mp.dom().insert(owner));
                    vstd::set::axiom_set_insert_len(mp.dom(), owner);
                }
            }
            if !seen {
                count = count + 1;
            }
        } else {
            proof {
                let mp = spec_cname_pairs(rv.subrange(0, i as int)).remove(except@);
                let m2 = spec_cname_pairs(rv.subrange(0, i as int + 1)).remove(except@);
                assert(m2.dom() =~= mp.dom());
            }
        }
        i = i + 1;
    }

    proof {
        assert(rv.subrange(0, rv.len() as int) =~= rv);
    }
    count
}

/// Follows the collected CNAME records from the queried name to the
/// final target, as `spec_final_cname` says.
#[verifier::loop_isolation(false)]
pub fn get_final_cname(query: &Vec<u8>, cnames: &Vec<Record>) -> (r: Option<Vec<u8>>)
    ensures
        ({
            match spec_final_cname(query@, spec_records(cnames@)) {
                Some(v) => r matches Some(d) && d@ == v,
                None => r is None,
            }
        }),
{
    let ghost m = spec_cname_pairs(spec_records(cnames@));

    let first = match lookup_cname(cnames, query) {
        Some(v) => v,
        None => {
            return None;
        },
    };

    let ghost m2 = m.remove(query@);
    let steps: usize = count_cname_owners_except(cnames, query);

    let mut cur = first;
    let mut j: usize = 0;

    while j < steps
        invariant
            0 <= j <= steps,
            spec_chase(m2, m[query@], steps as nat) == spec_chase(m2, cur@, (steps - j) as nat),
        decreases steps - j,
    {
        let next = match lookup_cname_except(cnames, &cur, query) {
            Some(v) => v,
            None => cur,
        };
        cur = next;
        j = j + 1;
    }

    Some(cur)
}

/// Looks the last CNAME target for `key` up, unless `key` is the
/// removed owner `except`.
#[verifier::loop_isolation(false)]
fn lookup_cname_except(cnames: &Vec<Record>, key: &Vec<u8>, except: &Vec<u8>) -> (r: Option<
    Vec<u8>,
>)
    ensures
        ({
            let m = spec_cname_pairs(spec_records(cnames@)).remove(except@);
            match r {
                Some(v) => m.contains_key(key@) && v@ == m[key@],
                None => !m.contains_key(key@),
            }
        }),
{
    if crate::writer::bytes_eq(key, except) {
        return None;
    }
    lookup_cname(cnames, key)
}

/// The glue addresses of a record list: its A and AAAA records as
/// socket addresses on port 53.
pub open spec fn spec_resolved_ns(rs: Seq<RecordView>) -> Seq<SockAddr>
    decreases rs.len(),
{
    if rs.len() == 0 {
        seq![]
    } else {
        let rest = spec_resolved_ns(rs.drop_first());
        match rs.first().data {
            RecordDataView::A(a) => (
                if rs.first().rtype == QueryType::A {
                    seq![SockAddr { ip: IpAddr::V4(a), port: 53 }] + rest
                } else {
                    rest
                }
            ),
            RecordDataView::AAAA(a) => (
                if rs.first().rtype == QueryType::AAAA {
                    seq![SockAddr { ip: IpAddr::V6(a), port: 53 }] + rest
                } else {
                    rest
                }
            ),
            _ => rest,
        }
    }
}

/// Collects the glue addresses of the additional section.
#[verifier::loop_isolation(false)]
pub fn get_resolved_ns(resources: &Vec<Record>) -> (r: Vec<SockAddr>)
    ensures
        r@ == spec_resolved_ns(spec_records(resources@)),
{
    let ghost rv = spec_records(resources@);
    let mut res: Vec<SockAddr> = Vec::new();
    let mut i: usize = 0;

    proof {
        assert(rv.skip(0) =~= rv);
        assert(res@ + spec_resolved_ns(rv) =~= spec_resolved_ns(rv));
    }

    while i < resources.len()
        invariant
            0 <= i <= resources@.len(),
            spec_resolved_ns(rv) == res@ + spec_resolved_ns(rv.skip(i as int)),
        decreases resources@.len() - i,
    {
        proof {
            assert(rv.skip(i as int).first() == rv[i as int]);
            assert(rv.skip(i as int).drop_first() =~= rv.skip(i as int + 1));
            assert(rv[i as int] == resources@[i as int]@);
        }
        let ghost res0 = res@;
        let resource = &resources[i];
        match &resource.data {
            RecordData::A(addr) => {
                if record_type_eq(&resource.rtype, &QueryType::A) {
                    res.push(SockAddr { ip: IpAddr::V4(*addr), port: 53 });
                    proof {
                        assert((res0 + seq![res@.last()]) + spec_resolved_ns(rv.skip(i as int + 1))
                            =~= res0 + (seq![res@.last()] + spec_resolved_ns(
                            rv.skip(i as int + 1),
                        )));
                        assert(res@ =~= res0 + seq![res@.last()]);
                    }
                }
            },
            RecordData::AAAA(addr) => {
                if record_type_eq(&resource.rtype, &QueryType::AAAA) {
                    res.push(SockAddr { ip: IpAddr::V6(*addr), port: 53 });
                    proof {
                        assert((res0 + seq![res@.last()]) + spec_resolved_ns(rv.skip(i as int + 1))
                            =~= res0 + (seq![res@.last()] + spec_resolved_ns(
                            rv.skip(i as int + 1),
                        )));
                        assert(res@ =~= res0 + seq![res@.last()]);
                    }
                }
            },
            _ => {},
        }
        i = i + 1;
    }

    proof {
        assert(rv.skip(rv.len() as int) =~= Seq::<RecordView>::empty());
        assert(res@ + spec_resolved_ns(Seq::<RecordView>::empty()) =~= res@);
    }

    res
}

/// Folds a sub-response into the reply: its sections are appended and
/// the counts grow by its counts, wrapping as 16-bit counters do.
pub fn append_results(dst: &mut Packet, src: Packet)
    ensures
        final(dst)@.header == (Header {
            answer_count: old(dst)@.header.answer_count.wrapping_add(src@.header.answer_count),
            authority_count: old(dst)@.header.authority_count.wrapping_add(
                src@.header.authority_count,
            ),
            resource_count: old(dst)@.header.resource_count.wrapping_add(
                src@.header.resource_count,
            ),
            ..old(dst)@.header
        }),
        final(dst)@.questions == old(dst)@.questions,
        final(dst)@.answers == old(dst)@.answers + src@.answers,
        final(dst)@.authorities == old(dst)@.authorities + src@.authorities,
        final(dst)@.resources == old(dst)@.resources + src@.resources,
{
    dst.header.answer_count = dst.header.answer_count.wrapping_add(src.header.answer_count);
    dst.header.authority_count = dst.header.authority_count.wrapping_add(
        src.header.authority_count,
    );
    dst.header.resource_count = dst.header.resource_count.wrapping_add(src.header.resource_count);

    let mut answers = src.answers;
    let mut authorities = src.authorities;
    let mut resources = src.resources;
    dst.answers.append(&mut answers);
    dst.authorities.append(&mut authorities);
    dst.resources.append(&mut resources);

    proof {
        assert(spec_records(dst.answers@) =~= old(dst)@.answers + src@.answers);
        assert(spec_records(dst.authorities@) =~= old(dst)@.authorities + src@.authorities);
        assert(spec_records(dst.resources@) =~= old(dst)@.resources + src@.resources);
        assert(spec_questions(dst.questions@) == old(dst)@.questions);
    }
}


/// The records a reply caches: answers and additionals of type A,
/// AAAA or SOA whose owner is the queried name.
pub open spec fn spec_cacheable(q: QuestionView, rs: Seq<RecordView>) -> Seq<RecordView>
    decreases rs.len(),
{
    if rs.len() == 0 {
        seq![]
    } else {
        let rest = spec_cacheable(q, rs.drop_first());
        if rs.first().domain == q.domain && (rs.first().rtype == QueryType::A || rs.first().rtype
            == QueryType::AAAA || rs.first().rtype == QueryType::SOA) {
            seq![rs.first()] + rest
        } else {
            rest
        }
    }
}

/// Collects the records of a reply worth caching for `q`.
#[verifier::loop_isolation(false)]
fn collect_cacheable(question: &Question, records: &Vec<Record>) -> (r: Vec<Record>)
    ensures
        spec_records(r@) == spec_cacheable(question@, spec_records(records@)),
{
    let ghost rv = spec_records(records@);
    let mut res: Vec<Record> = Vec::new();
    let mut i: usize = 0;

    proof {
        assert(rv.skip(0) =~= rv);
        assert(spec_records(res@) + spec_cacheable(question@, rv) =~= spec_cacheable(
            question@,
            rv,
        ));
    }

    while i < records.len()
        invariant
            0 <= i <= records@.len(),
            spec_cacheable(question@, rv) == spec_records(res@) + spec_cacheable(
                question@,
                rv.skip(i as int),
            ),
        decreases records@.len() - i,
    {
        proof {
            assert(rv.skip(i as int).first() == rv[i as int]);
            assert(rv.skip(i as int).drop_first() =~= rv.skip(i as int + 1));
            assert(rv[i as int] == records@[i as int]@);
        }
        let rec = &records[i];
        let keep = crate::writer::bytes_eq(&rec.domain, &question.domain) && (record_type_eq(
            &rec.rtype,
            &QueryType::A,
        ) || record_type_eq(&rec.rtype, &QueryType::AAAA) || record_type_eq(
            &rec.rtype,
            &QueryType::SOA,
        ));
        if keep {
            let ghost res0 = spec_records(res@);
            res.push(rec.clone());
            proof {
                assert(spec_records(res@) =~= res0 + seq![rv[i as int]]);
                assert((res0 + seq![rv[i as int]]) + spec_cacheable(
                    question@,
                    rv.skip(i as int + 1),
                ) =~= res0 + (seq![rv[i as int]] + spec_cacheable(
                    question@,
                    rv.skip(i as int + 1),
                )));
            }
        }
        i = i + 1;
    }

    proof {
        assert(rv.skip(rv.len() as int) =~= Seq::<RecordView>::empty());
        assert(spec_records(res@) + spec_cacheable(question@, Seq::<RecordView>::empty())
            =~= spec_records(res@));
    }

    res
}

/// What serving one upstream reply means for the caller: given the
/// reply's bytes, the returned packet is the parsed message with the
/// response and recursion-available bits set, and — when it carries
/// answers — the cache gains the cacheable records of the answer and
/// additional sections under the queried name.
pub open spec fn spec_lookup_wire(
    m0: Map<Seq<u8>, (Seq<RecordView>, u64)>,
    q: QuestionView,
    reply: Seq<u8>,
    r: Result<Packet, DnsError>,
    m1: Map<Seq<u8>, (Seq<RecordView>, u64)>,
) -> bool {
    match spec_parse_packet(reply) {
        Err(e) => {
            &&& r matches Err(e2) && e2 == e
            &&& m1 == m0
        },
        Ok(pv) => {
            &&& r matches Ok(p) && p@ == (PacketView {
                header: Header { recursion_available: true, response: true, ..pv.header },
                ..pv
            })
            &&& (pv.answers.len() == 0 ==> m1 == m0)
            &&& (pv.answers.len() > 0 ==> exists|now: u64|
                m1 == m0.insert(
                    q.domain,
                    (#[trigger] spec_cacheable(q, pv.answers + pv.resources), now),
                ))
        },
    }
}

/// Serves one upstream reply, exactly as `spec_lookup_wire` says.
pub fn process_lookup_response(cache: &mut DnsCache, question: &Question, res_buf: &Vec<u8>) -> (r:
    Result<Packet, DnsError>)
    requires
        old(cache).wf(),
    ensures
        final(cache).wf(),
        spec_lookup_wire(old(cache)@, question@, res_buf@, r, final(cache)@),
{
    let mut res = PacketParser::new(res_buf.as_slice()).parse()?;
    res.header.recursion_available = true;
    res.header.response = true;

    if res.answers.len() > 0 {
        let mut resolved = collect_cacheable(question, &res.answers);
        let mut extra = collect_cacheable(question, &res.resources);
        proof {
            lemma_cacheable_append(
                question@,
                spec_records(res.answers@),
                spec_records(res.resources@),
            );
        }
        resolved.append(&mut extra);
        proof {
            assert(spec_records(resolved@) =~= spec_cacheable(
                question@,
                spec_records(res.answers@) + spec_records(res.resources@),
            ));
        }
        let item = DnsCacheItem::new(resolved);
        cache.set(question.domain.as_slice(), item);
    }

    Ok(res)
}

/// Filtering distributes over appending two sections.
proof fn lemma_cacheable_append(q: QuestionView, a: Seq<RecordView>, b: Seq<RecordView>)
    ensures
        spec_cacheable(q, a + b) == spec_cacheable(q, a) + spec_cacheable(q, b),
    decreases a.len(),
{
    if a.len() == 0 {
        assert(a + b =~= b);
        assert(spec_cacheable(q, a) + spec_cacheable(q, b) =~= spec_cacheable(q, b));
    } else {
        assert((a + b).drop_first() =~= a.drop_first() + b);
        assert((a + b).first() == a.first());
        lemma_cacheable_append(q, a.drop_first(), b);
        assert(spec_cacheable(q, a + b) =~= spec_cacheable(q, a) + spec_cacheable(q, b));
    }
}

/// What one lookup at instant `now` establishes: a cached name is
/// answered synthetically without consulting anything outside; a miss
/// either fails to encode the stub query (exactly as the name
/// dictates), or is decided by some reply's bytes as
/// `spec_lookup_wire` says, or fails with the transport.
pub open spec fn spec_lookup_outcome(
    m0: Map<Seq<u8>, (Seq<RecordView>, u64)>,
    q: QuestionView,
    now: u64,
    r: Result<Packet, DnsError>,
    m1: Map<Seq<u8>, (Seq<RecordView>, u64)>,
) -> bool {
    let read = spec_cache_read(m0, q.domain, now);
    match read.0 {
        Some(records) => {
            &&& r matches Ok(p)
            &&& p@.header.response && p@.header.recursion_available
            &&& p@.header.recursion_desired
            &&& p@.header.opcode == 0 && p@.header.code == 0
            &&& p@.header.question_count == 1
            &&& p@.header.answer_count == records.len() as u16
            &&& p@.header.authority_count == 0 && p@.header.resource_count == 0
            &&& p@.questions == seq![q]
            &&& p@.answers == records
            &&& p@.authorities.len() == 0 && p@.resources.len() == 0
            &&& m1 == read.1
        },
        None => {
            match crate::writer::spec_stub_write_err(q) {
                Some(e) => r matches Err(e2) && e2 == e && m1 == read.1,
                None => (exists|reply: Seq<u8>| spec_lookup_wire(read.1, q, reply, r, m1)) || (
                r matches Err(_) && m1 == read.1),
            }
        },
    }
}

/// One upstream lookup at instant `now`: the cache answers if it can;
/// otherwise the question goes out through the handler, the reply is
/// decoded, and its cacheable records are stored.
#[verifier::rlimit(100)]
pub fn lookup_at<H: Handler>(
    cache: &mut DnsCache,
    handler: &mut H,
    question: &Question,
    addrs: Option<&Vec<SockAddr>>,
    now: u64,
) -> (r: Result<Packet, DnsError>)
    requires
        old(cache).wf(),
    ensures
        final(cache).wf(),
        r matches Ok(p) ==> p@.header.response && p@.header.recursion_available,
        spec_lookup_outcome(old(cache)@, question@, now, r, final(cache)@),
{
    let req = new_query_packet(question.clone());
    let ghost read = spec_cache_read(old(cache)@, question@.domain, now);

    let cached = cache.get_at(question.domain.as_slice(), now);
    proof {
        assert(cache@ == read.1);
    }
    if let Some(records) = cached {
        proof {
            assert(read.0 == Some(spec_records(records@)));
        }
        let reply = create_resp_packet(&req, records);
        proof {
            assert(reply@.questions =~= seq![question@]);
        }
        return Ok(reply);
    }

    proof {
        assert(read.0 is None);
        crate::writer::lemma_stub_write(req@);
        assert(req@.questions[0] == question@);
    }
    let req_buf = PacketWriter::from(req).write()?;

    let res_buf = match addrs {
        Some(addrs) => handler.send_to(req_buf.as_slice(), addrs.as_slice())?,
        None => handler.send(req_buf.as_slice())?,
    };

    let ghost mid = cache@;
    let r = process_lookup_response(cache, question, &res_buf);
    proof {
        assert(mid == read.1);
        assert(spec_lookup_wire(read.1, question@, res_buf@, r, cache@));
    }
    r
}

/// One upstream lookup at the clock's current reading: the outcome is
/// exactly `spec_lookup_outcome` at some instant the clock returned.
pub fn lookup<H: Handler>(
    cache: &mut DnsCache,
    handler: &mut H,
    question: &Question,
    addrs: Option<&Vec<SockAddr>>,
) -> (r: Result<Packet, DnsError>)
    requires
        old(cache).wf(),
    ensures
        final(cache).wf(),
        r matches Ok(p) ==> p@.header.response && p@.header.recursion_available,
        exists|now: u64| #[trigger] spec_lookup_outcome(
            old(cache)@,
            question@,
            now,
            r,
            final(cache)@,
        ),
{
    let now = now_secs();
    match addrs {
        Some(a) => lookup_at(cache, handler, question, Some(a), now),
        None => lookup_at(cache, handler, question, None, now),
    }
}

/// Translates one query datagram into one reply datagram.
pub trait Resolver {
    /// The resolver's own well-formedness, kept across calls.
    spec fn wf(&self) -> bool;

    fn resolve(&mut self, buf: &[u8]) -> (r: Result<Vec<u8>, DnsError>)
        requires
            old(self).wf(),
        ensures
            final(self).wf(),
    ;
}

/// The reply skeleton a forwarding or recursive server sends back: the
/// request's header and questions, the response and recursion bits
/// set, and a given result code.
pub open spec fn spec_reply_skeleton(pv: PacketView, code: u8) -> PacketView {
    PacketView {
        header: Header {
            recursion_available: true,
            response: true,
            code: code,
            ..pv.header
        },
        questions: pv.questions,
        answers: seq![],
        authorities: seq![],
        resources: seq![],
    }
}

/// One sub-reply folded into the reply being built: its sections are
/// appended, the counts grow by its counts wrapping, and — when the
/// code is carried — its result code replaces the reply's.
pub open spec fn spec_append_result(dst: PacketView, src: PacketView, carry_code: bool) -> PacketView {
    PacketView {
        header: Header {
            code: if carry_code {
                src.header.code
            } else {
                dst.header.code
            },
            answer_count: ((dst.header.answer_count + src.header.answer_count) % 0x10000) as u16,
            authority_count: ((dst.header.authority_count + src.header.authority_count)
                % 0x10000) as u16,
            resource_count: ((dst.header.resource_count + src.header.resource_count)
                % 0x10000) as u16,
            ..dst.header
        },
        questions: dst.questions,
        answers: dst.answers + src.answers,
        authorities: dst.authorities + src.authorities,
        resources: dst.resources + src.resources,
    }
}

/// A run of sub-replies folded onto the skeleton, in order.
#[verifier::opaque]
pub open spec fn spec_fold_results(
    base: PacketView,
    subs: Seq<PacketView>,
    carry_code: bool,
) -> PacketView
    decreases subs.len(),
{
    if subs.len() == 0 {
        base
    } else {
        spec_fold_results(
            spec_append_result(base, subs.first(), carry_code),
            subs.drop_first(),
            carry_code,
        )
    }
}

/// Folding one more sub-reply at the back extends the fold by one
/// append.
proof fn lemma_fold_push(base: PacketView, subs: Seq<PacketView>, x: PacketView, carry_code: bool)
    ensures
        spec_fold_results(base, subs.push(x), carry_code) == spec_append_result(
            spec_fold_results(base, subs, carry_code),
            x,
            carry_code,
        ),
    decreases subs.len(),
{
    reveal(spec_fold_results);
    if subs.len() == 0 {
        assert(subs.push(x).first() == x);
        assert(subs.push(x).drop_first() =~= Seq::<PacketView>::empty());
        assert(spec_fold_results(
            spec_append_result(base, x, carry_code),
            Seq::<PacketView>::empty(),
            carry_code,
        ) == spec_append_result(base, x, carry_code));
        assert(spec_fold_results(base, subs.push(x), carry_code) == spec_fold_results(
            spec_append_result(base, subs.push(x).first(), carry_code),
            subs.push(x).drop_first(),
            carry_code,
        ));
    } else {
        assert(subs.push(x).first() == subs.first());
        assert(subs.push(x).drop_first() =~= subs.drop_first().push(x));
        lemma_fold_push(
            spec_append_result(base, subs.first(), carry_code),
            subs.drop_first(),
            x,
            carry_code,
        );
    }
}

/// A reply restamped SERVFAIL.
pub open spec fn spec_servfail_over(p: PacketView) -> PacketView {
    PacketView { header: Header { code: 2, ..p.header }, ..p }
}

/// What a reply to a parseable multi-question query looks like: some
/// run of sub-replies — one per served question, cut short by the
/// first failure, which stamps SERVFAIL — folded onto the skeleton,
/// and the whole written out.
pub open spec fn spec_resolve_reply(
    pv: PacketView,
    subs: Seq<PacketView>,
    failed: bool,
    carry_code: bool,
    r: Result<Vec<u8>, DnsError>,
) -> bool {
    let folded = spec_fold_results(spec_reply_skeleton(pv, pv.header.code), subs, carry_code);
    let p = if failed {
        spec_servfail_over(folded)
    } else {
        folded
    };
    &&& (failed ==> subs.len() < pv.questions.len())
    &&& (!failed ==> subs.len() == pv.questions.len())
    &&& match spec_write_packet(p) {
        Ok(bytes) => r matches Ok(v) && v@ == bytes,
        Err(e) => r matches Err(e2) && e2 == e,
    }
}

/// Serves by forwarding every question to the configured upstream
/// targets, reading the cache first.
pub struct ForwardResolver<H: Handler> {
    pub base_handler: H,
    cache: DnsCache,
}

impl<H: Handler> ForwardResolver<H> {
    pub closed spec fn spec_cache_wf(&self) -> bool {
        self.cache.wf()
    }

    pub fn new(handler: H) -> (r: Self)
        ensures
            r.spec_cache_wf(),
    {
        ForwardResolver { base_handler: handler, cache: DnsCache::new() }
    }
}

impl<H: Handler> Resolver for ForwardResolver<H> {
    closed spec fn wf(&self) -> bool {
        self.cache.wf()
    }

    /// An unreadable query is refused with its parse error; a question
    /// section of zero entries is answered FORMERR; otherwise each
    /// question is forwarded and the sub-replies are folded in, a
    /// failing question closing the reply with SERVFAIL.
    #[verifier::loop_isolation(false)]
    #[verifier::rlimit(100)]
    #[verifier::spinoff_prover]
    fn resolve(&mut self, buf: &[u8]) -> (r: Result<Vec<u8>, DnsError>)
        ensures
            ({
                match spec_parse_packet(buf@) {
                    Err(e) => r matches Err(e2) && e2 == e,
                    Ok(pv) => {
                        &&& (pv.questions.len() == 0 ==> match spec_write_packet(
                            spec_reply_skeleton(pv, 1),
                        ) {
                            Ok(bytes) => r matches Ok(v) && v@ == bytes,
                            Err(e) => r matches Err(e2) && e2 == e,
                        })
                        &&& (pv.questions.len() > 0 ==> exists|subs: Seq<PacketView>, failed: bool|
                            {
                                &&& #[trigger] spec_resolve_reply(pv, subs, failed, false, r)
                                &&& forall|k: int|
                                    0 <= k < subs.len() ==> spec_lookup_reply(
                                        pv.questions[k],
                                        #[trigger] subs[k],
                                    )
                            })
                    },
                }
            }),
    {
        let req = PacketParser::new(buf).parse()?;
        let ghost pv = spec_parse_packet(buf@)->Ok_0;
        let mut res = Packet::from(&req);
        res.header.recursion_available = true;
        res.header.response = true;

        if req.questions.len() == 0 {
            res.header.code = ResultCode::FORMERR.to_u8();

            proof {
                assert(res@ == spec_reply_skeleton(pv, 1));
            }
            return PacketWriter::from(res).write();
        }

        proof {
            assert(res@ == spec_reply_skeleton(pv, pv.header.code));
        }

        let ghost base = res@;
        let failed = self.serve_questions(&mut res, &req);
        let ghost subs = choose|subs: Seq<PacketView>|
            #![trigger spec_fold_results(base, subs, false)]
            {
                &&& (!failed ==> subs.len() == req.questions@.len() && res@ == spec_fold_results(
                    base,
                    subs,
                    false,
                ))
                &&& (failed ==> subs.len() < req.questions@.len() && res@ == spec_servfail_over(
                    spec_fold_results(base, subs, false),
                ))
                &&& forall|k: int|
                    0 <= k < subs.len() ==> spec_lookup_reply(
                        spec_questions(req.questions@)[k],
                        #[trigger] subs[k],
                    )
            };

        let r = PacketWriter::from(res).write();
        proof {
            assert(spec_resolve_reply(pv, subs, failed, false, r));
        }
        r
    }
}

impl<H: Handler> ForwardResolver<H> {
    /// Serves every question in turn: each sub-reply is folded into
    /// the reply, and the first failure stamps SERVFAIL and stops.
    #[verifier::loop_isolation(false)]
    #[verifier::rlimit(100)]
    #[verifier::spinoff_prover]
    fn serve_questions(&mut self, res: &mut Packet, req: &Packet) -> (failed: bool)
        requires
            old(self).cache.wf(),
        ensures
            final(self).cache.wf(),
            exists|subs: Seq<PacketView>|
                #![trigger spec_fold_results(old(res)@, subs, false)]
                {
                    &&& (!failed ==> subs.len() == req.questions@.len() && final(res)@
                        == spec_fold_results(old(res)@, subs, false))
                    &&& (failed ==> subs.len() < req.questions@.len() && final(res)@
                        == spec_servfail_over(spec_fold_results(old(res)@, subs, false)))
                    &&& forall|k: int|
                        0 <= k < subs.len() ==> spec_lookup_reply(
                            spec_questions(req.questions@)[k],
                            #[trigger] subs[k],
                        )
                },
    {
        let ghost base = old(res)@;
        proof {
            reveal(spec_fold_results);
            assert(spec_fold_results(base, Seq::<PacketView>::empty(), false) == base);
        }
        let ghost mut subs: Seq<PacketView> = seq![];
        let mut failed: bool = false;
        let mut qi: usize = 0;
        while qi < req.questions.len() && !failed
            invariant
                self.cache.wf(),
                0 <= qi <= req.questions@.len(),
                !failed ==> subs.len() == qi && res@ == spec_fold_results(base, subs, false),
                failed ==> subs.len() < req.questions@.len() && res@ == spec_servfail_over(
                    spec_fold_results(base, subs, false),
                ),
                forall|k: int|
                    0 <= k < subs.len() ==> spec_lookup_reply(
                        spec_questions(req.questions@)[k],
                        #[trigger] subs[k],
                    ),
            decreases req.questions@.len() - qi, (if failed { 0int } else { 1int }),
        {
            let question = req.questions[qi].clone();
            let ghost m_pre = self.cache@;
            let lr = lookup(&mut self.cache, &mut self.base_handler, &question, None);
            let ghost lr0 = lr;
            let ghost m_post = self.cache@;
            match lr {
                Ok(result) => {
                    let ghost prev = res@;
                    let ghost sub = result@;
                    append_results(res, result);
                    proof {
                        let now0 = choose|now: u64| #[trigger] spec_lookup_outcome(
                            m_pre,
                            question@,
                            now,
                            lr0,
                            m_post,
                        );
                        lemma_lookup_reply(m_pre, question@, now0, lr0, m_post);
                        assert(spec_lookup_reply(spec_questions(req.questions@)[qi as int], sub));
                        lemma_fold_push(base, subs, sub, false);
                        subs = subs.push(sub);
                        assert(res@.answers =~= spec_append_result(prev, sub, false).answers);
                        assert(res@.authorities =~= spec_append_result(
                            prev,
                            sub,
                            false,
                        ).authorities);
                        assert(res@.resources =~= spec_append_result(prev, sub, false).resources);
                        assert(res@ == spec_append_result(prev, sub, false));
                    }
                    qi = qi + 1;
                },
                Err(_) => {
                    res.header.code = ResultCode::SERVFAIL.to_u8();
                    failed = true;
                },
            }
        }

        proof {
            assert(spec_fold_results(base, subs, false) == spec_fold_results(base, subs, false));
        }
        failed
    }
}

/// Cached records settle a question: some record has the asked type.
pub open spec fn spec_settles(q: QuestionView, records: Seq<RecordView>) -> bool {
    records.len() > 0 && exists|i: int|
        0 <= i < records.len() && (#[trigger] records[i]).rtype == q.qtype
}

/// The first step of a walk at instant `now`: when the cache holds
/// fresh records for the question's name that settle it, no outside
/// call decides, and the walk must answer with exactly those records.
pub open spec fn spec_walk_hit(
    m0: Map<Seq<u8>, (Seq<RecordView>, u64)>,
    q: QuestionView,
    now: u64,
    r: Result<Packet, DnsError>,
) -> bool {
    match spec_cache_read(m0, q.domain, now).0 {
        Some(records) => spec_settles(q, records) ==> {
            &&& r matches Ok(p)
            &&& p@.answers == records
            &&& p@.questions == seq![q]
            &&& spec_lookup_reply(q, p@)
        },
        None => true,
    }
}

/// One CNAME hop of a walk: the lookup reply `lres` named `target` as
/// the chain's end, the deeper reply `p2` answered that target, and
/// the merged reply `p` carries the chain records before those answers.
pub open spec fn spec_cname_hop(
    q: QuestionView,
    lres: PacketView,
    target: Seq<u8>,
    p2: PacketView,
    p: PacketView,
) -> bool {
    &&& spec_lookup_reply(q, lres)
    &&& spec_final_cname(q.domain, spec_cnames(lres.answers) + spec_cnames(lres.resources))
        == Some(target)
    &&& p.answers == spec_cnames(lres.answers) + spec_cnames(lres.resources) + p2.answers
    &&& p.authorities == p2.authorities
    &&& p.resources == p2.resources
    &&& p.questions == p2.questions
    &&& p.header == (Header {
        answer_count: spec_wrap16(
            p2.header.answer_count,
            (spec_cnames(lres.answers) + spec_cnames(lres.resources)).len() as int,
        ),
        ..p2.header
    })
}

/// The shape of a finished walk, `hops` referrals deep at most:
/// either some lookup reply settled the question and was returned
/// unchanged; or nothing offered a way forward and the last reply was
/// returned unchanged; or a referral was followed with the same
/// question; or a lookup's CNAME records named a final target whose
/// deeper walk's answers follow the chain records in the reply.
pub open spec fn spec_walk_trace(q: QuestionView, p: PacketView, hops: nat) -> bool
    decreases hops,
{
    ||| (spec_lookup_reply(q, p) && spec_is_resolved(q, p))
    ||| {
        &&& spec_lookup_reply(q, p)
        &&& !spec_is_resolved(q, p)
        &&& spec_final_cname(q.domain, spec_cnames(p.answers) + spec_cnames(p.resources)) is None
        &&& spec_resolved_ns(p.resources).len() == 0
    }
    ||| (hops > 0 && spec_walk_trace(q, p, (hops - 1) as nat))
    ||| (hops > 0 && exists|lres: PacketView, target: Seq<u8>, p2: PacketView|
        #[trigger] spec_cname_hop(q, lres, target, p2, p) && spec_walk_trace(
            QuestionView { domain: target, qtype: q.qtype, qclass: QueryClass::IN },
            p2,
            (hops - 1) as nat,
        ))
}

/// Merges a CNAME hop: the chain records stand before the deeper/// Merges a CNAME hop: the chain records stand before the deeper/// Merges a CNAME hop: the chain records stand before the deeper
/// walk's answers, and the whole is again a finished walk.
#[verifier::rlimit(100)]
#[verifier::spinoff_prover]
fn merge_cname_hop(
    cnames: Vec<Record>,
    sub: Packet,
    Ghost(q): Ghost<QuestionView>,
    Ghost(lres): Ghost<PacketView>,
    Ghost(target): Ghost<Seq<u8>>,
    Ghost(hops): Ghost<nat>,
) -> (out: Packet)
    requires
        hops > 0,
        spec_lookup_reply(q, lres),
        spec_records(cnames@) == spec_cnames(lres.answers) + spec_cnames(lres.resources),
        spec_final_cname(q.domain, spec_cnames(lres.answers) + spec_cnames(lres.resources))
            == Some(target),
        spec_walk_trace(
            QuestionView { domain: target, qtype: q.qtype, qclass: QueryClass::IN },
            sub@,
            (hops - 1) as nat,
        ),
        spec_walk_result(q.qtype, sub@),
        sub@.header.response && sub@.header.recursion_available,
    ensures
        out@.header.response && out@.header.recursion_available,
        spec_walk_result(q.qtype, out@),
        spec_walk_trace(q, out@, hops),
{
    let ghost sub0 = sub@;
    let ghost cn = spec_cnames(lres.answers) + spec_cnames(lres.resources);

    let hop_count: u16 = wrap_add_len(0, cnames.len());
    let Packet { mut header, questions, answers, authorities, resources } = sub;
    let mut merged = cnames;
    let mut tail = answers;
    merged.append(&mut tail);
    header.answer_count = header.answer_count.wrapping_add(hop_count);
    let out = Packet { header, questions, answers: merged, authorities, resources };

    proof {
        assert(out@.answers =~= cn + sub0.answers);
        assert(out@.resources == sub0.resources);
        assert(out@.authorities == sub0.authorities);
        assert(out@.questions == sub0.questions);
        assert(out@.header.code == sub0.header.code);
        assert(out@.header.answer_count == spec_wrap16(
            sub0.header.answer_count,
            cn.len() as int,
        )) by {
            assert((sub0.header.answer_count + (cn.len() as int) % 0x10000) % 0x10000 == (
            sub0.header.answer_count + cn.len() as int) % 0x10000) by (nonlinear_arith);
        }
        assert(out@.header == (Header {
            answer_count: spec_wrap16(sub0.header.answer_count, cn.len() as int),
            ..sub0.header
        }));

        // the merged reply still settles the question or carried no glue
        if sub0.answers.len() > 0 && (sub0.header.code == 3 || exists|i: int|
            0 <= i < sub0.answers.len() && (#[trigger] sub0.answers[i]).rtype == q.qtype) {
            assert(out@.answers.len() > 0);
            if sub0.header.code != 3 {
                let i = choose|i: int|
                    0 <= i < sub0.answers.len() && (#[trigger] sub0.answers[i]).rtype == q.qtype;
                assert(out@.answers[cn.len() + i].rtype == q.qtype);
            }
        }
        assert(spec_walk_result(q.qtype, out@));

        // the trace: the chain hop stands in front of the deeper walk
        assert(spec_cname_hop(q, lres, target, sub0, out@));
        assert(spec_walk_trace(q, out@, hops));
    }

    out
}

/// Serves by walking the hierarchy from the root servers.
pub struct RecursiveResolver<H: Handler> {
    pub base_handler: H,
    cache: DnsCache,
    max_recursion_depth: usize,
}

/// What a walk may hand back: a reply that settles a question of the
/// asked type (answers present, and either the name denied or some
/// answer of that type), or one that offered no way forward — no glue
/// in its additional section for a referral to follow.
pub open spec fn spec_walk_result(qtype: QueryType, p: PacketView) -> bool {
    ||| (p.answers.len() > 0 && (p.header.code == 3 || exists|i: int|
        0 <= i < p.answers.len() && (#[trigger] p.answers[i]).rtype == qtype))
    ||| spec_resolved_ns(p.resources).len() == 0
}

/// What any one lookup's reply looks like, whatever the cache or the
/// upstream held: either the synthetic reply built from cached records,
/// or some upstream datagram decoded with the response and
/// recursion-available bits set.
pub open spec fn spec_lookup_reply(q: QuestionView, p: PacketView) -> bool {
    ||| {
        &&& p.questions == seq![q]
        &&& p.header.response && p.header.recursion_available && p.header.recursion_desired
        &&& p.header.opcode == 0 && p.header.code == 0
        &&& p.header.question_count == 1
        &&& p.header.answer_count == p.answers.len() as u16
        &&& p.header.authority_count == 0 && p.header.resource_count == 0
        &&& p.authorities.len() == 0 && p.resources.len() == 0
    }
    ||| exists|reply: Seq<u8>|
        #![trigger spec_parse_packet(reply)]
        {
            &&& spec_parse_packet(reply) is Ok
            &&& p == (PacketView {
                header: Header {
                    recursion_available: true,
                    response: true,
                    ..spec_parse_packet(reply)->Ok_0.header
                },
                ..spec_parse_packet(reply)->Ok_0
            })
        }
}

/// A lookup that returned a packet returned a lookup reply.
#[verifier::rlimit(100)]
#[verifier::spinoff_prover]
proof fn lemma_lookup_reply(
    m0: Map<Seq<u8>, (Seq<RecordView>, u64)>,
    q: QuestionView,
    now: u64,
    r: Result<Packet, DnsError>,
    m1: Map<Seq<u8>, (Seq<RecordView>, u64)>,
)
    requires
        spec_lookup_outcome(m0, q, now, r, m1),
        r is Ok,
    ensures
        spec_lookup_reply(q, r->Ok_0@),
{
    let p = r->Ok_0@;
    let read = spec_cache_read(m0, q.domain, now);
    match read.0 {
        Some(records) => {
            assert(p.answers == records);
        },
        None => {
            match crate::writer::spec_stub_write_err(q) {
                Some(_) => {
                    assert(false);
                },
                None => {
                    if exists|reply: Seq<u8>| spec_lookup_wire(read.1, q, reply, r, m1) {
                        let reply = choose|reply: Seq<u8>| spec_lookup_wire(read.1, q, reply, r, m1);
                        assert(spec_parse_packet(reply) is Ok);
                    } else {
                        assert(false);
                    }
                },
            }
        },
    }
}

impl<H: Handler> RecursiveResolver<H> {
    pub closed spec fn spec_cache_wf(&self) -> bool {
        self.cache.wf()
    }

    /// The walk's cache of earlier answers.
    pub closed spec fn spec_cache(&self) -> Map<Seq<u8>, (Seq<RecordView>, u64)> {
        self.cache@
    }

    pub closed spec fn spec_max_depth(&self) -> usize {
        self.max_recursion_depth
    }

    pub fn new(handler: H, max_recursion_depth: usize) -> (r: Self)
        ensures
            r.spec_cache_wf(),
            r.spec_max_depth() == max_recursion_depth,
    {
        RecursiveResolver {
            base_handler: handler,
            cache: DnsCache::new(),
            max_recursion_depth,
        }
    }

    /// One question walked through the hierarchy: a lookup, then a
    /// CNAME follow, a glued referral, or an unglued referral, each
    /// one level deeper.  At the depth limit, and once the work budget
    /// is spent, the walk fails with `MaxDepthExceeded`.  A reply has
    /// the shape `spec_walk_trace` gives: a settling lookup reply is
    /// returned unchanged, and a followed chain's records stand before
    /// the deeper walk's answers.  Below the depth limit, when the
    /// cache read settles the question, the result is the synthetic
    /// reply built from exactly the cached records (`spec_walk_hit`).
    pub fn recursive_lookup(
        &mut self,
        question: &Question,
        addrs: Option<Vec<SockAddr>>,
        depth: usize,
    ) -> (r: Result<Packet, DnsError>)
        requires
            old(self).spec_cache_wf(),
            depth <= old(self).spec_max_depth(),
        ensures
            final(self).spec_cache_wf(),
            final(self).spec_max_depth() == old(self).spec_max_depth(),
            depth == old(self).spec_max_depth() ==> (r matches Err(e) && e
                == DnsError::MaxDepthExceeded),
            r matches Ok(p) ==> p@.header.response && p@.header.recursion_available,
            r matches Ok(p) ==> spec_walk_result(question@.qtype, p@),
            r matches Ok(p) ==> spec_walk_trace(question@, p@, RECURSION_FUEL as nat),
            depth < old(self).spec_max_depth() ==> exists|now: u64|
                #[trigger] spec_walk_hit(old(self).spec_cache(), question@, now, r),
    {
        self.recursive_lookup_fueled(question, addrs, depth, RECURSION_FUEL)
    }

    #[verifier::rlimit(100)]
    #[verifier::spinoff_prover]
    fn recursive_lookup_fueled(
        &mut self,
        question: &Question,
        addrs: Option<Vec<SockAddr>>,
        depth: usize,
        fuel: u32,
    ) -> (r: Result<Packet, DnsError>)
        requires
            old(self).spec_cache_wf(),
            depth <= old(self).spec_max_depth(),
        ensures
            final(self).spec_cache_wf(),
            final(self).spec_max_depth() == old(self).spec_max_depth(),
            depth == old(self).spec_max_depth() ==> (r matches Err(e) && e
                == DnsError::MaxDepthExceeded),
            fuel == 0 && depth < old(self).spec_max_depth() ==> (r matches Err(e) && e
                == DnsError::MaxDepthExceeded),
            r matches Ok(p) ==> p@.header.response && p@.header.recursion_available,
            r matches Ok(p) ==> spec_walk_result(question@.qtype, p@),
            r matches Ok(p) ==> spec_walk_trace(question@, p@, fuel as nat),
            depth < old(self).spec_max_depth() && fuel > 0 ==> exists|now: u64|
                #[trigger] spec_walk_hit(old(self).spec_cache(), question@, now, r),
        decreases fuel, 0int,
    {
        if depth == self.max_recursion_depth {
            return Err(DnsError::MaxDepthExceeded);
        }
        if fuel == 0 {
            return Err(DnsError::MaxDepthExceeded);
        }

        let ghost m_pre = self.cache@;
        let lr = match addrs {
            Some(a) => lookup(&mut self.cache, &mut self.base_handler, question, Some(&a)),
            None => lookup(&mut self.cache, &mut self.base_handler, question, None),
        };
        let ghost lr0 = lr;
        let ghost m_post = self.cache@;
        let ghost now0 = choose|now: u64| #[trigger] spec_lookup_outcome(
            m_pre,
            question@,
            now,
            lr0,
            m_post,
        );

        let res = match lr {
            Ok(p) => p,
            Err(e) => {
                proof {
                    assert(m_pre == old(self).spec_cache());
                    assert(spec_walk_hit(
                        old(self).spec_cache(),
                        question@,
                        now0,
                        Err::<Packet, DnsError>(e),
                    ));
                }
                return Err(e);
            },
        };
        proof {
            lemma_lookup_reply(m_pre, question@, now0, lr0, m_post);
            assert(spec_lookup_reply(question@, res@));
        }

        if is_resolved(question, &res) {
            proof {
                assert(spec_is_resolved(question@, res@));
                assert(spec_walk_result(question@.qtype, res@));
                assert(spec_lookup_reply(question@, res@) && spec_is_resolved(question@, res@));
                assert(spec_walk_trace(question@, res@, fuel as nat));
                assert(m_pre == old(self).spec_cache());
                assert(spec_walk_hit(
                    old(self).spec_cache(),
                    question@,
                    now0,
                    Ok::<Packet, DnsError>(res),
                ));
            }
            return Ok(res);
        }

        proof {
            // a cache hit that settled the question would have been
            // resolved just above: from here on the hit clause holds of
            // any outcome
            assert(match spec_cache_read(m_pre, question@.domain, now0).0 {
                Some(records) => !spec_settles(question@, records),
                None => true,
            });
        }
        let ghost lresv = res@;

        // some servers send CNAME records in the additional section
        let mut cnames: Vec<Record> = collect_cnames(&res.answers);
        let mut extra_cnames = collect_cnames(&res.resources);
        cnames.append(&mut extra_cnames);
        let ghost cn = spec_cnames(lresv.answers) + spec_cnames(lresv.resources);
        proof {
            assert(spec_records(cnames@) =~= cn);
        }

        let final_target = get_final_cname(&question.domain, &cnames);

        let out: Result<Packet, DnsError> = match final_target {
            Some(domain) => {
                let next = Question::new(domain, question.qtype);
                let ghost nextv = next@;
                match self.recursive_lookup_fueled(&next, None, depth + 1, fuel - 1) {
                    Ok(sub) => {
                        proof {
                            assert(spec_walk_result(nextv.qtype, sub@));
                            assert(spec_walk_trace(nextv, sub@, (fuel - 1) as nat));
                            assert(nextv == (QuestionView {
                                domain: domain@,
                                qtype: question@.qtype,
                                qclass: QueryClass::IN,
                            }));
                            assert(spec_walk_trace(nextv, sub@, ((fuel as nat) - 1) as nat));
                        }
                        // the hop's CNAME records belong in the final
                        // answer section, the sub-walk's answers after
                        let out = merge_cname_hop(
                            cnames,
                            sub,
                            Ghost(question@),
                            Ghost(lresv),
                            Ghost(domain@),
                            Ghost(fuel as nat),
                        );
                        Ok(out)
                    },
                    Err(e) => Err(e),
                }
            },
            None => {
                let resolved_ns = get_resolved_ns(&res.resources);
                if resolved_ns.len() > 0 {
                    let sub = self.recursive_lookup_fueled(
                        question,
                        Some(resolved_ns),
                        depth + 1,
                        fuel - 1,
                    );
                    proof {
                        if let Ok(p) = &sub {
                            assert(spec_walk_trace(question@, p@, (fuel - 1) as nat));
                            assert(spec_lookup_reply(question@, lresv));
                            assert(spec_walk_trace(question@, p@, fuel as nat));
                        }
                    }
                    sub
                } else {
                    match self.get_unresolved(&res.authorities, fuel - 1) {
                        Ok(ns) => {
                            if ns.len() > 0 {
                                let sub = self.recursive_lookup_fueled(
                                    question,
                                    Some(ns),
                                    depth + 1,
                                    fuel - 1,
                                );
                                proof {
                                    if let Ok(p) = &sub {
                                        assert(spec_walk_trace(
                                            question@,
                                            p@,
                                            (fuel - 1) as nat,
                                        ));
                                        assert(spec_lookup_reply(question@, lresv));
                                        assert(spec_walk_trace(question@, p@, fuel as nat));
                                    }
                                }
                                sub
                            } else {
                                proof {
                                    assert(spec_resolved_ns(res@.resources).len() == 0);
                                    assert(spec_walk_result(question@.qtype, res@));
                                    assert(spec_lookup_reply(question@, res@));
                                    assert(!spec_is_resolved(question@, res@));
                                    assert(spec_final_cname(question@.domain, cn) is None);
                                    assert(spec_walk_trace(question@, res@, fuel as nat));
                                }
                                Ok(res)
                            }
                        },
                        Err(e) => Err(e),
                    }
                }
            },
        };

        proof {
            assert(m_pre == old(self).spec_cache());
            assert(spec_walk_hit(old(self).spec_cache(), question@, now0, out));
        }
        out
    }

    /// Resolves the A records of unglued authority name servers, each
    /// walk starting afresh at depth zero.
    fn get_unresolved(&mut self, authorities: &Vec<Record>, fuel: u32) -> (r: Result<
        Vec<SockAddr>,
        DnsError,
    >)
        requires
            old(self).spec_cache_wf(),
        ensures
            final(self).spec_cache_wf(),
            final(self).spec_max_depth() == old(self).spec_max_depth(),
        decreases fuel, 1int,
    {
        let mut res: Vec<SockAddr> = Vec::new();

        let mut i: usize = 0;
        while i < authorities.len()
            invariant
                self.spec_cache_wf(),
                self.spec_max_depth() == old(self).spec_max_depth(),
            decreases authorities@.len() - i,
        {
            let authority = &authorities[i];
            let target: Option<Vec<u8>> = match &authority.data {
                RecordData::NS(domain) => Some(crate::record::clone_bytes(domain)),
                _ => None,
            };
            if let Some(domain) = target {
                let q = Question::new(domain, QueryType::A);
                match self.recursive_lookup_fueled(&q, None, 0, fuel) {
                    Ok(ns) => {
                        if ns.header.code == ResultCode::NOERROR.to_u8() {
                            let mut addrs = get_resolved_ns(&ns.answers);
                            res.append(&mut addrs);
                        }
                    },
                    Err(e) => {
                        return Err(e);
                    },
                }
            }
            i = i + 1;
        }

        Ok(res)
    }
}

/// The CNAME records among `rs`, in order.
pub open spec fn spec_cnames(rs: Seq<RecordView>) -> Seq<RecordView>
    decreases rs.len(),
{
    if rs.len() == 0 {
        seq![]
    } else if rs.first().rtype == QueryType::CNAME {
        seq![rs.first()] + spec_cnames(rs.drop_first())
    } else {
        spec_cnames(rs.drop_first())
    }
}

/// Collects the CNAME records of a section.
#[verifier::loop_isolation(false)]
fn collect_cnames(records: &Vec<Record>) -> (r: Vec<Record>)
    ensures
        spec_records(r@) == spec_cnames(spec_records(records@)),
{
    let ghost rv = spec_records(records@);
    let mut res: Vec<Record> = Vec::new();
    let mut i: usize = 0;

    proof {
        assert(rv.skip(0) =~= rv);
        assert(spec_records(res@) + spec_cnames(rv) =~= spec_cnames(rv));
    }

    while i < records.len()
        invariant
            0 <= i <= records@.len(),
            spec_cnames(rv) == spec_records(res@) + spec_cnames(rv.skip(i as int)),
        decreases records@.len() - i,
    {
        proof {
            assert(rv.skip(i as int).first() == rv[i as int]);
            assert(rv.skip(i as int).drop_first() =~= rv.skip(i as int + 1));
            assert(rv[i as int] == records@[i as int]@);
        }
        let rec = &records[i];
        if record_type_eq(&rec.rtype, &QueryType::CNAME) {
            let ghost res0 = spec_records(res@);
            res.push(rec.clone());
            proof {
                assert(spec_records(res@) =~= res0 + seq![rv[i as int]]);
                assert((res0 + seq![rv[i as int]]) + spec_cnames(rv.skip(i as int + 1)) =~= res0 + (
                seq![rv[i as int]] + spec_cnames(rv.skip(i as int + 1))));
            }
        }
        i = i + 1;
    }

    proof {
        assert(rv.skip(rv.len() as int) =~= Seq::<RecordView>::empty());
        assert(spec_records(res@) + spec_cnames(Seq::<RecordView>::empty()) =~= spec_records(
            res@,
        ));
    }

    res
}

impl<H: Handler> Resolver for RecursiveResolver<H> {
    closed spec fn wf(&self) -> bool {
        self.cache.wf()
    }

    /// An unreadable query is refused with its parse error; a question
    /// section of zero entries is answered FORMERR; otherwise each
    /// question is walked recursively, a sub-reply's code carried over
    /// and its sections folded in, a failing question closing the
    /// reply with SERVFAIL.
    #[verifier::rlimit(100)]
    #[verifier::spinoff_prover]
    fn resolve(&mut self, buf: &[u8]) -> (r: Result<Vec<u8>, DnsError>)
        ensures
            ({
                match spec_parse_packet(buf@) {
                    Err(e) => r matches Err(e2) && e2 == e,
                    Ok(pv) => {
                        &&& (pv.questions.len() == 0 ==> match spec_write_packet(
                            spec_reply_skeleton(pv, 1),
                        ) {
                            Ok(bytes) => r matches Ok(v) && v@ == bytes,
                            Err(e) => r matches Err(e2) && e2 == e,
                        })
                        &&& (pv.questions.len() > 0 ==> exists|subs: Seq<PacketView>, failed: bool|
                            {
                                &&& #[trigger] spec_resolve_reply(pv, subs, failed, true, r)
                                &&& forall|k: int|
                                    0 <= k < subs.len() ==> spec_walk_result(
                                        pv.questions[k].qtype,
                                        #[trigger] subs[k],
                                    ) && subs[k].header.response
                                        && subs[k].header.recursion_available
                                        && spec_walk_trace(
                                        pv.questions[k],
                                        subs[k],
                                        RECURSION_FUEL as nat,
                                    )
                            })
                    },
                }
            }),
    {
        let req = PacketParser::new(buf).parse()?;
        let ghost pv = spec_parse_packet(buf@)->Ok_0;
        let mut res = Packet::from(&req);
        res.header.recursion_available = true;
        res.header.response = true;

        if req.questions.len() == 0 {
            res.header.code = ResultCode::FORMERR.to_u8();

            proof {
                assert(res@ == spec_reply_skeleton(pv, 1));
            }
            return PacketWriter::from(res).write();
        }

        proof {
            assert(res@ == spec_reply_skeleton(pv, pv.header.code));
        }

        let ghost base = res@;
        let failed = self.walk_questions(&mut res, &req);
        let ghost subs = choose|subs: Seq<PacketView>|
            #![trigger spec_fold_results(base, subs, true)]
            {
                &&& (!failed ==> subs.len() == req.questions@.len() && res@ == spec_fold_results(
                    base,
                    subs,
                    true,
                ))
                &&& (failed ==> subs.len() < req.questions@.len() && res@ == spec_servfail_over(
                    spec_fold_results(base, subs, true),
                ))
                &&& forall|k: int|
                    0 <= k < subs.len() ==> spec_walk_result(
                        spec_questions(req.questions@)[k].qtype,
                        #[trigger] subs[k],
                    ) && subs[k].header.response && subs[k].header.recursion_available
                        && spec_walk_trace(
                        spec_questions(req.questions@)[k],
                        subs[k],
                        RECURSION_FUEL as nat,
                    )
            };

        let r = PacketWriter::from(res).write();
        proof {
            assert(spec_resolve_reply(pv, subs, failed, true, r));
        }
        r
    }
}

impl<H: Handler> RecursiveResolver<H> {
    /// Walks every question in turn: each sub-reply's code is carried
    /// over and its sections folded in, and the first failure stamps
    /// SERVFAIL and stops.
    #[verifier::loop_isolation(false)]
    #[verifier::rlimit(100)]
    #[verifier::spinoff_prover]
    fn walk_questions(&mut self, res: &mut Packet, req: &Packet) -> (failed: bool)
        requires
            old(self).spec_cache_wf(),
        ensures
            final(self).spec_cache_wf(),
            exists|subs: Seq<PacketView>|
                #![trigger spec_fold_results(old(res)@, subs, true)]
                {
                    &&& (!failed ==> subs.len() == req.questions@.len() && final(res)@
                        == spec_fold_results(old(res)@, subs, true))
                    &&& (failed ==> subs.len() < req.questions@.len() && final(res)@
                        == spec_servfail_over(spec_fold_results(old(res)@, subs, true)))
                    &&& forall|k: int|
                        0 <= k < subs.len() ==> spec_walk_result(
                            spec_questions(req.questions@)[k].qtype,
                            #[trigger] subs[k],
                        ) && subs[k].header.response && subs[k].header.recursion_available
                            && spec_walk_trace(
                            spec_questions(req.questions@)[k],
                            subs[k],
                            RECURSION_FUEL as nat,
                        )
                },
    {
        let ghost base = old(res)@;
        proof {
            reveal(spec_fold_results);
            assert(spec_fold_results(base, Seq::<PacketView>::empty(), true) == base);
        }
        let ghost mut subs: Seq<PacketView> = seq![];
        let mut failed: bool = false;
        let mut qi: usize = 0;
        while qi < req.questions.len() && !failed
            invariant
                self.spec_cache_wf(),
                0 <= qi <= req.questions@.len(),
                !failed ==> subs.len() == qi && res@ == spec_fold_results(base, subs, true),
                failed ==> subs.len() < req.questions@.len() && res@ == spec_servfail_over(
                    spec_fold_results(base, subs, true),
                ),
                forall|k: int|
                    0 <= k < subs.len() ==> spec_walk_result(
                        spec_questions(req.questions@)[k].qtype,
                        #[trigger] subs[k],
                    ) && subs[k].header.response && subs[k].header.recursion_available
                        && spec_walk_trace(
                        spec_questions(req.questions@)[k],
                        subs[k],
                        RECURSION_FUEL as nat,
                    ),
            decreases req.questions@.len() - qi, (if failed { 0int } else { 1int }),
        {
            let question = req.questions[qi].clone();
            match self.recursive_lookup(&question, None, 0) {
                Ok(result) => {
                    let ghost prev = res@;
                    let ghost sub = result@;
                    proof {
                        assert(spec_walk_result(
                            spec_questions(req.questions@)[qi as int].qtype,
                            sub,
                        ));
                        assert(spec_walk_trace(
                            spec_questions(req.questions@)[qi as int],
                            sub,
                            RECURSION_FUEL as nat,
                        ));
                    }
                    res.header.code = result.header.code;

                    append_results(res, result);
                    proof {
                        lemma_fold_push(base, subs, sub, true);
                        subs = subs.push(sub);
                        assert(res@.answers =~= spec_append_result(prev, sub, true).answers);
                        assert(res@.authorities =~= spec_append_result(
                            prev,
                            sub,
                            true,
                        ).authorities);
                        assert(res@.resources =~= spec_append_result(prev, sub, true).resources);
                        assert(res@ == spec_append_result(prev, sub, true));
                    }
                    qi = qi + 1;
                },
                Err(_) => {
                    res.header.code = ResultCode::SERVFAIL.to_u8();

                    failed = true;
                },
            }
        }

        failed
    }
}


/// One cache read with lazy eviction, as the cache's own `get_at`
/// performs it.
pub open spec fn spec_cache_read(
    m: Map<Seq<u8>, (Seq<RecordView>, u64)>,
    key: Seq<u8>,
    now: u64,
) -> (Option<Seq<RecordView>>, Map<Seq<u8>, (Seq<RecordView>, u64)>) {
    if !m.contains_key(key) {
        (None, m)
    } else {
        let fresh = spec_fresh_records(m[key].0, m[key].1, now);
        if fresh.len() == 0 {
            (None, m.remove(key))
        } else {
            (Some(fresh), m)
        }
    }
}

/// Serving one stored record: an NS joins the authority section and
/// pulls its target's records in as glue; an SOA is held back; any
/// other record answers.
pub open spec fn spec_auth_record(
    m: Map<Seq<u8>, (Seq<RecordView>, u64)>,
    r: RecordView,
    now: u64,
) -> (Seq<RecordView>, Seq<RecordView>, Seq<RecordView>, Map<Seq<u8>, (Seq<RecordView>, u64)>) {
    if r.rtype == QueryType::NS {
        match r.data {
            RecordDataView::NS(target) => {
                let glue = spec_cache_read(m, target, now);
                (
                    seq![],
                    seq![r],
                    match glue.0 {
                        Some(g) => g,
                        None => seq![],
                    },
                    glue.1,
                )
            },
            _ => (seq![], seq![r], seq![], m),
        }
    } else if r.rtype == QueryType::SOA {
        (seq![], seq![], seq![], m)
    } else {
        (seq![r], seq![], seq![], m)
    }
}

/// Serving a run of stored records.
pub open spec fn spec_auth_records(
    m: Map<Seq<u8>, (Seq<RecordView>, u64)>,
    rs: Seq<RecordView>,
    now: u64,
) -> (Seq<RecordView>, Seq<RecordView>, Seq<RecordView>, Map<Seq<u8>, (Seq<RecordView>, u64)>)
    decreases rs.len(),
{
    if rs.len() == 0 {
        (seq![], seq![], seq![], m)
    } else {
        let h = spec_auth_record(m, rs.first(), now);
        let t = spec_auth_records(h.3, rs.drop_first(), now);
        (h.0 + t.0, h.1 + t.1, h.2 + t.2, t.3)
    }
}

/// The first SOA record of a stored set, if any.
pub open spec fn spec_find_soa(rs: Seq<RecordView>) -> Option<RecordView>
    decreases rs.len(),
{
    if rs.len() == 0 {
        None
    } else if rs.first().rtype == QueryType::SOA {
        Some(rs.first())
    } else {
        spec_find_soa(rs.drop_first())
    }
}

/// Serving one question: its stored records classified, and — when the
/// reply still has no answers — the stored SOA appended as a
/// negative-caching hint.
pub open spec fn spec_auth_question(
    m: Map<Seq<u8>, (Seq<RecordView>, u64)>,
    q: QuestionView,
    now: u64,
    global_answers: int,
) -> (Seq<RecordView>, Seq<RecordView>, Seq<RecordView>, Map<Seq<u8>, (Seq<RecordView>, u64)>) {
    let read = spec_cache_read(m, q.domain, now);
    match read.0 {
        None => (seq![], seq![], seq![], read.1),
        Some(recs) => {
            let t = spec_auth_records(read.1, recs, now);
            if global_answers + t.0.len() == 0 {
                match spec_find_soa(recs) {
                    Some(soa) => (t.0 + seq![soa], t.1, t.2, t.3),
                    None => t,
                }
            } else {
                t
            }
        },
    }
}

/// Serving every question in turn, the sections accumulating.
pub open spec fn spec_auth_questions(
    m: Map<Seq<u8>, (Seq<RecordView>, u64)>,
    qs: Seq<QuestionView>,
    now: u64,
    ans: Seq<RecordView>,
    auth: Seq<RecordView>,
    res: Seq<RecordView>,
) -> (Seq<RecordView>, Seq<RecordView>, Seq<RecordView>, Map<Seq<u8>, (Seq<RecordView>, u64)>)
    decreases qs.len(),
{
    if qs.len() == 0 {
        (ans, auth, res, m)
    } else {
        let h = spec_auth_question(m, qs.first(), now, ans.len() as int);
        spec_auth_questions(h.3, qs.drop_first(), now, ans + h.0, auth + h.1, res + h.2)
    }
}

/// A 16-bit counter grown by a tally, wrapping.
pub open spec fn spec_wrap16(base: u16, added: int) -> u16 {
    ((base + added) % 0x10000) as u16
}

/// The whole authoritative reply to a parsed request, and the cache
/// it leaves behind.
pub open spec fn spec_authoritative_reply(
    m: Map<Seq<u8>, (Seq<RecordView>, u64)>,
    pv: PacketView,
    now: u64,
) -> (PacketView, Map<Seq<u8>, (Seq<RecordView>, u64)>) {
    let base = Header {
        authoritative: true,
        recursion_available: false,
        response: true,
        code: 0,
        ..pv.header
    };
    if pv.questions.len() == 0 {
        (
            PacketView {
                header: Header { code: 1, ..base },
                questions: pv.questions,
                answers: seq![],
                authorities: seq![],
                resources: seq![],
            },
            m,
        )
    } else {
        let t = spec_auth_questions(m, pv.questions, now, seq![], seq![], seq![]);
        let code: u8 = if t.0.len() == 0 && t.1.len() == 0 {
            3
        } else {
            0
        };
        (
            PacketView {
                header: Header {
                    code,
                    answer_count: spec_wrap16(pv.header.answer_count, t.0.len() as int),
                    authority_count: spec_wrap16(pv.header.authority_count, t.1.len() as int),
                    resource_count: spec_wrap16(pv.header.resource_count, t.2.len() as int),
                    ..base
                },
                questions: pv.questions,
                answers: t.0,
                authorities: t.1,
                resources: t.2,
            },
            t.3,
        )
    }
}

/// The minimal refusal sent for an unreadable query.
pub open spec fn spec_auth_formerr() -> PacketView {
    PacketView {
        header: Header {
            code: 1,
            authoritative: true,
            recursion_available: false,
            response: true,
            ..Header::spec_default()
        },
        questions: seq![],
        answers: seq![],
        authorities: seq![],
        resources: seq![],
    }
}

/// Serves records loaded from zone files; the cache doubles as the
/// zone store.
pub struct AuthoritativeResolver {
    cache: DnsCache,
}

impl AuthoritativeResolver {
    pub closed spec fn spec_cache_wf(&self) -> bool {
        self.cache.wf()
    }

    /// The zone store.
    pub closed spec fn view(&self) -> Map<Seq<u8>, (Seq<RecordView>, u64)> {
        self.cache@
    }

    /// An empty store, to be loaded with parsed zones.
    pub fn new() -> (r: Self)
        ensures
            r.spec_cache_wf(),
            r@ == Map::<Seq<u8>, (Seq<RecordView>, u64)>::empty(),
    {
        AuthoritativeResolver { cache: DnsCache::new() }
    }

    /// Stores one zone's records under its origin, stamped `now`.
    pub fn load_zone_at(&mut self, origin: &Vec<u8>, records: Vec<Record>, now: u64)
        requires
            old(self).spec_cache_wf(),
        ensures
            final(self).spec_cache_wf(),
            final(self)@ == old(self)@.insert(
                origin@,
                (spec_records(records@), now),
            ),
    {
        let item = DnsCacheItem::new_at(records, now);
        self.cache.set_at(origin.as_slice(), item);
    }

    /// Serves one question: reads the stored records, classifies them,
    /// and appends the negative-caching SOA when nothing has answered.
    #[verifier::loop_isolation(false)]
    #[verifier::rlimit(100)]
    fn answer_question(&mut self, res: &mut Packet, question: &Question, now: u64)
        requires
            old(self).spec_cache_wf(),
        ensures
            final(self).spec_cache_wf(),
            ({
                let h = spec_auth_question(
                    old(self)@,
                    question@,
                    now,
                    old(res)@.answers.len() as int,
                );
                &&& final(res)@.answers == old(res)@.answers + h.0
                &&& final(res)@.authorities == old(res)@.authorities + h.1
                &&& final(res)@.resources == old(res)@.resources + h.2
                &&& final(self)@ == h.3
                &&& final(res)@.questions == old(res)@.questions
                &&& final(res)@.header == (Header {
                    answer_count: spec_wrap16(old(res)@.header.answer_count, h.0.len() as int),
                    authority_count: spec_wrap16(
                        old(res)@.header.authority_count,
                        h.1.len() as int,
                    ),
                    resource_count: spec_wrap16(
                        old(res)@.header.resource_count,
                        h.2.len() as int,
                    ),
                    ..old(res)@.header
                })
            }),
    {
        let ghost m0 = self.cache@;
        let ghost ans0 = res@.answers;
        let ghost auth0 = res@.authorities;
        let ghost res0 = res@.resources;
        let ghost h0 = res@.header;

        proof {
            lemma_wrap16_zero(h0.answer_count);
            lemma_wrap16_zero(h0.authority_count);
            lemma_wrap16_zero(h0.resource_count);
        }

        let fetched = self.cache.get_at(question.domain.as_slice(), now);
        let records = match fetched {
            Some(records) => records,
            None => {
                return ;
            },
        };

        let ghost recs = spec_records(records@);
        let ghost m1 = self.cache@;

        let mut ri: usize = 0;
        proof {
            assert(recs.subrange(0, 0) =~= Seq::<RecordView>::empty());
            assert(ans0 + Seq::<RecordView>::empty() =~= ans0);
            assert(auth0 + Seq::<RecordView>::empty() =~= auth0);
            assert(res0 + Seq::<RecordView>::empty() =~= res0);
        }
        while ri < records.len()
            invariant
                0 <= ri <= records@.len(),
                self.cache.wf(),
                ({
                    let p = spec_auth_records(m1, recs.subrange(0, ri as int), now);
                    &&& res@.answers == ans0 + p.0
                    &&& res@.authorities == auth0 + p.1
                    &&& res@.resources == res0 + p.2
                    &&& self.cache@ == p.3
                    &&& res@.header == (Header {
                        answer_count: spec_wrap16(h0.answer_count, p.0.len() as int),
                        authority_count: spec_wrap16(h0.authority_count, p.1.len() as int),
                        resource_count: spec_wrap16(h0.resource_count, p.2.len() as int),
                        ..h0
                    })
                }),
                res@.questions == old(res)@.questions,
            decreases records@.len() - ri,
        {
            let ghost p = spec_auth_records(m1, recs.subrange(0, ri as int), now);
            proof {
                assert(recs[ri as int] == records@[ri as int]@);
                lemma_auth_records_step(m1, recs, ri as int, now);
            }
            let ghost h = spec_auth_record(p.3, recs[ri as int], now);

            let record = &records[ri];
            if record_type_eq(&record.rtype, &QueryType::NS) {
                res.authorities.push(record.clone());
                res.header.authority_count = res.header.authority_count.wrapping_add(1);
                proof {
                    lemma_wrap16_step(h0.authority_count, p.1.len() as int);
                    assert(spec_records(res.authorities@) =~= (auth0 + p.1) + seq![
                        recs[ri as int],
                    ]);
                    assert((auth0 + p.1) + seq![recs[ri as int]] =~= auth0 + (p.1 + seq![
                        recs[ri as int],
                    ]));
                }

                let target: Option<Vec<u8>> = match &record.data {
                    RecordData::NS(ns) => Some(crate::record::clone_bytes(ns)),
                    _ => None,
                };
                if let Some(ns) = target {
                    let glue = self.cache.get_at(ns.as_slice(), now);
                    if let Some(mut glue_records) = glue {
                        let ghost g = spec_records(glue_records@);
                        res.header.resource_count = wrap_add_len(
                            res.header.resource_count,
                            glue_records.len(),
                        );
                        res.resources.append(&mut glue_records);
                        proof {
                            lemma_wrap16_add(h0.resource_count, p.2.len() as int, g.len() as int);
                            assert(spec_records(res.resources@) =~= (res0 + p.2) + g);
                            assert((res0 + p.2) + g =~= res0 + (p.2 + g));
                        }
                    } else {
                        proof {
                            assert(res@.resources =~= res0 + (p.2 + Seq::<RecordView>::empty()));
                            lemma_wrap16_add(h0.resource_count, p.2.len() as int, 0);
                        }
                    }
                }
                proof {
                    assert(res@.answers =~= ans0 + (p.0 + Seq::<RecordView>::empty()));
                    lemma_wrap16_add(h0.answer_count, p.0.len() as int, 0);
                }
            } else if record_type_eq(&record.rtype, &QueryType::SOA) {
                // held back; a stored SOA only answers when nothing
                // else does
                proof {
                    assert(res@.answers =~= ans0 + (p.0 + Seq::<RecordView>::empty()));
                    assert(res@.authorities =~= auth0 + (p.1 + Seq::<RecordView>::empty()));
                    assert(res@.resources =~= res0 + (p.2 + Seq::<RecordView>::empty()));
                }
            } else {
                res.answers.push(record.clone());
                res.header.answer_count = res.header.answer_count.wrapping_add(1);
                proof {
                    lemma_wrap16_step(h0.answer_count, p.0.len() as int);
                    assert(spec_records(res.answers@) =~= (ans0 + p.0) + seq![recs[ri as int]]);
                    assert((ans0 + p.0) + seq![recs[ri as int]] =~= ans0 + (p.0 + seq![
                        recs[ri as int],
                    ]));
                    assert(res@.authorities =~= auth0 + (p.1 + Seq::<RecordView>::empty()));
                    assert(res@.resources =~= res0 + (p.2 + Seq::<RecordView>::empty()));
                }
            }
            ri = ri + 1;
        }

        proof {
            assert(recs.subrange(0, recs.len() as int) =~= recs);
        }

        let ghost t = spec_auth_records(m1, recs, now);
        if res.answers.len() == 0 {
            let soa = find_soa(&records);
            if let Some(record) = soa {
                res.answers.push(record);
                res.header.answer_count = res.header.answer_count.wrapping_add(1);
                proof {
                    lemma_wrap16_step(h0.answer_count, t.0.len() as int);
                    assert(spec_records(res.answers@) =~= ans0 + (t.0 + seq![
                        spec_find_soa(recs)->Some_0,
                    ]));
                }
            }
        }
    }

    /// Serves one datagram at instant `now`, exactly as
    /// `spec_authoritative_reply` describes.
    #[verifier::loop_isolation(false)]
    #[verifier::rlimit(100)]
    pub fn resolve_at(&mut self, buf: &[u8], now: u64) -> (r: Result<Vec<u8>, DnsError>)
        requires
            old(self).spec_cache_wf(),
        ensures
            final(self).spec_cache_wf(),
            ({
                match spec_parse_packet(buf@) {
                    Err(_) => {
                        &&& final(self)@ == old(self)@
                        &&& match spec_write_packet(spec_auth_formerr()) {
                            Ok(bytes) => r matches Ok(v) && v@ == bytes,
                            Err(e) => r matches Err(e2) && e2 == e,
                        }
                    },
                    Ok(pv) => {
                        let reply = spec_authoritative_reply(old(self)@, pv, now);
                        &&& final(self)@ == reply.1
                        &&& match spec_write_packet(reply.0) {
                            Ok(bytes) => r matches Ok(v) && v@ == bytes,
                            Err(e) => r matches Err(e2) && e2 == e,
                        }
                    },
                }
            }),
    {
        let req = match PacketParser::new(buf).parse() {
            Ok(packet) => packet,
            Err(_e) => {
                let mut res = Packet::new();
                res.header.code = ResultCode::FORMERR.to_u8();
                res.header.authoritative = true;
                res.header.recursion_available = false;
                res.header.response = true;

                proof {
                    assert(res@ == spec_auth_formerr());
                }
                return PacketWriter::from(res).write();
            },
        };

        let mut res = Packet::from(&req);
        res.header.authoritative = true;
        res.header.recursion_available = false;
        res.header.response = true;
        res.header.code = ResultCode::NOERROR.to_u8();

        if req.questions.len() == 0 {
            res.header.code = ResultCode::FORMERR.to_u8();

            proof {
                let pv = spec_parse_packet(buf@)->Ok_0;
                assert(res@ == spec_authoritative_reply(old(self)@, pv, now).0);
            }
            return PacketWriter::from(res).write();
        }

        let ghost pv = spec_parse_packet(buf@)->Ok_0;
        let ghost qv = pv.questions;

        let mut qi: usize = 0;
        proof {
            assert(qv.skip(0) =~= qv);
            assert(res@.answers =~= Seq::<RecordView>::empty());
            assert(res@.authorities =~= Seq::<RecordView>::empty());
            assert(res@.resources =~= Seq::<RecordView>::empty());
            lemma_wrap16_zero(pv.header.answer_count);
            lemma_wrap16_zero(pv.header.authority_count);
            lemma_wrap16_zero(pv.header.resource_count);
        }
        while qi < req.questions.len()
            invariant
                0 <= qi <= req.questions@.len(),
                self.cache.wf(),
                spec_auth_questions(old(self)@, qv, now, seq![], seq![], seq![])
                    == spec_auth_questions(
                    self.cache@,
                    qv.skip(qi as int),
                    now,
                    res@.answers,
                    res@.authorities,
                    res@.resources,
                ),
                res@.header == (Header {
                    authoritative: true,
                    recursion_available: false,
                    response: true,
                    code: 0,
                    answer_count: spec_wrap16(pv.header.answer_count, res@.answers.len() as int),
                    authority_count: spec_wrap16(
                        pv.header.authority_count,
                        res@.authorities.len() as int,
                    ),
                    resource_count: spec_wrap16(
                        pv.header.resource_count,
                        res@.resources.len() as int,
                    ),
                    ..pv.header
                }),
                res@.questions == pv.questions,
            decreases req.questions@.len() - qi,
        {
            proof {
                assert(qv.skip(qi as int).first() == qv[qi as int]);
                assert(qv.skip(qi as int).drop_first() =~= qv.skip(qi as int + 1));
                assert(qv[qi as int] == req.questions@[qi as int]@);
            }
            let ghost ans0 = res@.answers;
            let ghost auth0 = res@.authorities;
            let ghost res0 = res@.resources;
            let ghost h = spec_auth_question(self.cache@, qv[qi as int], now, ans0.len() as int);

            let question = req.questions[qi].clone();
            self.answer_question(&mut res, &question, now);

            proof {
                lemma_wrap16_compose(pv.header.answer_count, ans0.len() as int, h.0.len() as int);
                lemma_wrap16_compose(
                    pv.header.authority_count,
                    auth0.len() as int,
                    h.1.len() as int,
                );
                lemma_wrap16_compose(
                    pv.header.resource_count,
                    res0.len() as int,
                    h.2.len() as int,
                );
            }
            qi = qi + 1;
        }

        proof {
            assert(qv.skip(qv.len() as int) =~= Seq::<QuestionView>::empty());
        }

        if res.authorities.len() == 0 && res.answers.len() == 0 {
            res.header.code = ResultCode::NXDOMAIN.to_u8();

            proof {
                assert(res@ == spec_authoritative_reply(old(self)@, pv, now).0);
            }
            return PacketWriter::from(res).write();
        }

        proof {
            assert(res@ == spec_authoritative_reply(old(self)@, pv, now).0);
        }
        PacketWriter::from(res).write()
    }

    /// Serves one datagram at the clock's current reading: the result
    /// is exactly `resolve_at`'s at some instant the clock returned.
    pub fn resolve_now(&mut self, buf: &[u8]) -> (r: Result<Vec<u8>, DnsError>)
        requires
            old(self).spec_cache_wf(),
        ensures
            final(self).spec_cache_wf(),
            spec_parse_packet(buf@) matches Err(_) ==> {
                &&& final(self)@ == old(self)@
                &&& match spec_write_packet(spec_auth_formerr()) {
                    Ok(bytes) => r matches Ok(v) && v@ == bytes,
                    Err(e) => r matches Err(e2) && e2 == e,
                }
            },
            spec_parse_packet(buf@) matches Ok(pv) ==> exists|now: u64|
                {
                    let reply = #[trigger] spec_authoritative_reply(old(self)@, pv, now);
                    &&& final(self)@ == reply.1
                    &&& match spec_write_packet(reply.0) {
                        Ok(bytes) => r matches Ok(v) && v@ == bytes,
                        Err(e) => r matches Err(e2) && e2 == e,
                    }
                },
    {
        let now = now_secs();
        self.resolve_at(buf, now)
    }
}

/// One record's step of `spec_auth_records` over a growing prefix.
proof fn lemma_auth_records_step(
    m1: Map<Seq<u8>, (Seq<RecordView>, u64)>,
    recs: Seq<RecordView>,
    ri: int,
    now: u64,
)
    requires
        0 <= ri < recs.len(),
    ensures
        ({
            let p = spec_auth_records(m1, recs.subrange(0, ri), now);
            let h = spec_auth_record(p.3, recs[ri], now);
            let p2 = spec_auth_records(m1, recs.subrange(0, ri + 1), now);
            &&& p2.0 == p.0 + h.0
            &&& p2.1 == p.1 + h.1
            &&& p2.2 == p.2 + h.2
            &&& p2.3 == h.3
        }),
    decreases ri,
{
    if ri == 0 {
        assert(recs.subrange(0, 0) =~= Seq::<RecordView>::empty());
        assert(recs.subrange(0, 1).first() == recs[0]);
        assert(recs.subrange(0, 1).drop_first() =~= Seq::<RecordView>::empty());
        let h = spec_auth_record(m1, recs[0], now);
        assert(spec_auth_records(h.3, Seq::<RecordView>::empty(), now) == (
            Seq::<RecordView>::empty(),
            Seq::<RecordView>::empty(),
            Seq::<RecordView>::empty(),
            h.3,
        ));
        assert(spec_auth_records(m1, recs.subrange(0, 1), now).0 =~= h.0);
        assert(spec_auth_records(m1, recs.subrange(0, 1), now).1 =~= h.1);
        assert(spec_auth_records(m1, recs.subrange(0, 1), now).2 =~= h.2);
        assert(Seq::<RecordView>::empty() + h.0 =~= h.0);
        assert(Seq::<RecordView>::empty() + h.1 =~= h.1);
        assert(Seq::<RecordView>::empty() + h.2 =~= h.2);
    } else {
        let h0 = spec_auth_record(m1, recs[0], now);
        lemma_auth_records_step(h0.3, recs.drop_first(), ri - 1, now);
        assert(recs.subrange(0, ri).first() == recs[0]);
        assert(recs.subrange(0, ri).drop_first() =~= recs.drop_first().subrange(0, ri - 1));
        assert(recs.subrange(0, ri + 1).first() == recs[0]);
        assert(recs.subrange(0, ri + 1).drop_first() =~= recs.drop_first().subrange(0, ri));
        assert(recs.drop_first()[ri - 1] == recs[ri]);
        let pd = spec_auth_records(h0.3, recs.drop_first().subrange(0, ri - 1), now);
        let h = spec_auth_record(pd.3, recs[ri], now);
        let pd2 = spec_auth_records(h0.3, recs.drop_first().subrange(0, ri), now);
        assert(h0.0 + (pd.0 + h.0) =~= (h0.0 + pd.0) + h.0);
        assert(h0.1 + (pd.1 + h.1) =~= (h0.1 + pd.1) + h.1);
        assert(h0.2 + (pd.2 + h.2) =~= (h0.2 + pd.2) + h.2);
    }
}

/// A tally of zero leaves a 16-bit counter as it stands.
proof fn lemma_wrap16_zero(c: u16)
    ensures
        spec_wrap16(c, 0) == c,
{
}

/// One more item advances the wrapped counter by one.
proof fn lemma_wrap16_step(c: u16, k: int)
    requires
        k >= 0,
    ensures
        spec_wrap16(c, k).wrapping_add(1u16) == spec_wrap16(c, k + 1),
{
    assert(((c + k) % 0x10000 + 1) % 0x10000 == (c + k + 1) % 0x10000) by (nonlinear_arith)
        requires
            k >= 0,
    ;
}

/// A wrapped tally grows by a wrapped block.
proof fn lemma_wrap16_add(c: u16, k: int, g: int)
    requires
        k >= 0,
        g >= 0,
    ensures
        spec_wrap16(spec_wrap16(c, k) as u16, g) == spec_wrap16(c, k + g),
{
    assert(((c + k) % 0x10000 + g) % 0x10000 == (c + k + g) % 0x10000) by (nonlinear_arith)
        requires
            k >= 0 && g >= 0,
    ;
}

/// Two wrapped tallies compose.
proof fn lemma_wrap16_compose(c: u16, a: int, b: int)
    requires
        a >= 0,
        b >= 0,
    ensures
        spec_wrap16(spec_wrap16(c, a) as u16, b) == spec_wrap16(c, a + b),
{
    lemma_wrap16_add(c, a, b);
}

/// Adds a section length onto a 16-bit counter, wrapping.
fn wrap_add_len(base: u16, len: usize) -> (r: u16)
    ensures
        r == spec_wrap16(base, len as int),
{
    #[verifier::truncate]
    let l16: u16 = (len % 0x10000) as u16;
    let r = base.wrapping_add(l16);
    proof {
        assert(r == ((base + (len as int) % 0x10000) % 0x10000));
        assert(((base + (len as int) % 0x10000) % 0x10000) == ((base + len as int) % 0x10000))
            by (nonlinear_arith);
    }
    r
}

/// The first stored SOA record, if any.
#[verifier::loop_isolation(false)]
fn find_soa(records: &Vec<Record>) -> (r: Option<Record>)
    ensures
        ({
            match spec_find_soa(spec_records(records@)) {
                Some(soa) => r matches Some(rec) && rec@ == soa,
                None => r is None,
            }
        }),
{
    let ghost rv = spec_records(records@);
    let mut i: usize = 0;
    proof {
        assert(rv.skip(0) =~= rv);
    }
    while i < records.len()
        invariant
            0 <= i <= records@.len(),
            spec_find_soa(rv) == spec_find_soa(rv.skip(i as int)),
        decreases records@.len() - i,
    {
        proof {
            assert(rv.skip(i as int).first() == rv[i as int]);
            assert(rv.skip(i as int).drop_first() =~= rv.skip(i as int + 1));
            assert(rv[i as int] == records@[i as int]@);
        }
        let rec = &records[i];
        if record_type_eq(&rec.rtype, &QueryType::SOA) {
            return Some(rec.clone());
        }
        i = i + 1;
    }
    proof {
        assert(rv.skip(rv.len() as int).len() == 0);
    }
    None
}

} // verus!
