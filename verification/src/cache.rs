use vstd::prelude::*;
use vstd::map::*;
use crate::packet::{clone_records, spec_records};
use crate::record::{Record, RecordData, RecordDataView, RecordView};
use crate::writer::bytes_eq;

verus! {

/// Relies on std::time::SystemTime::now, read as whole seconds since
/// the epoch; nothing is promised of the value.
#[verifier::external_body]
pub fn now_secs() -> u64 {
    std::time::SystemTime::now().duration_since(std::time::SystemTime::UNIX_EPOCH).map(
        |d| d.as_secs(),
    ).unwrap_or(0)
}

/// One cached entry: the records of a name and when they were stored.
pub struct DnsCacheItem {
    pub records: Vec<Record>,
    pub timestamp: u64,
}

impl DnsCacheItem {
    /// An entry stamped with the clock's current reading.
    pub fn new(records: Vec<Record>) -> (r: DnsCacheItem)
        ensures
            spec_records(r.records@) == spec_records(records@),
    {
        DnsCacheItem { records, timestamp: now_secs() }
    }

    /// An entry stamped with a given instant.
    pub fn new_at(records: Vec<Record>, now: u64) -> (r: DnsCacheItem)
        ensures
            spec_records(r.records@) == spec_records(records@),
            r.timestamp == now,
    {
        DnsCacheItem { records, timestamp: now }
    }
}

/// The age bound of one record: its TTL, except for SOA records, whose
/// expire field rules instead.
pub open spec fn spec_effective_ttl(r: RecordView) -> int {
    match r.data {
        RecordDataView::SOA { expire, .. } => expire as int,
        _ => r.ttl as int,
    }
}

/// A record stored at `ts` is still fresh at `now`.
pub open spec fn spec_fresh(r: RecordView, ts: u64, now: u64) -> bool {
    now - ts < spec_effective_ttl(r)
}

/// The fresh records among `recs`, in order.
pub open spec fn spec_fresh_records(recs: Seq<RecordView>, ts: u64, now: u64) -> Seq<RecordView>
    decreases recs.len(),
{
    if recs.len() == 0 {
        seq![]
    } else if spec_fresh(recs[0], ts, now) {
        seq![recs[0]] + spec_fresh_records(recs.drop_first(), ts, now)
    } else {
        spec_fresh_records(recs.drop_first(), ts, now)
    }
}

/// A TTL-honouring map from lowercased names to record sets.  A read
/// that finds only expired records drops the entry.
pub struct DnsCache {
    map: Vec<(Vec<u8>, DnsCacheItem)>,
}

/// The map an entry list stands for, later entries winning.
pub open spec fn spec_entries(m: Seq<(Vec<u8>, DnsCacheItem)>) -> Map<Seq<u8>, (Seq<RecordView>, u64)>
    decreases m.len(),
{
    if m.len() == 0 {
        Map::empty()
    } else {
        spec_entries(m.drop_last()).insert(
            m.last().0@,
            (spec_records(m.last().1.records@), m.last().1.timestamp),
        )
    }
}

/// No name appears twice in the entry list.
pub open spec fn spec_keys_unique(m: Seq<(Vec<u8>, DnsCacheItem)>) -> bool {
    forall|i: int, j: int| 0 <= i < j < m.len() ==> (#[trigger] m[i].0@) != (#[trigger] m[j].0@)
}

/// A name outside every entry is outside the map.
proof fn lemma_entries_not_contains(m: Seq<(Vec<u8>, DnsCacheItem)>, k: Seq<u8>)
    requires
        forall|i: int| 0 <= i < m.len() ==> (#[trigger] m[i].0@) != k,
    ensures
        !spec_entries(m).contains_key(k),
    decreases m.len(),
{
    if m.len() > 0 {
        assert(m.last().0@ != k);
        lemma_entries_not_contains(m.drop_last(), k);
    }
}

/// Each entry is in the map under its own name.
proof fn lemma_entries_lookup(m: Seq<(Vec<u8>, DnsCacheItem)>, i: int)
    requires
        spec_keys_unique(m),
        0 <= i < m.len(),
    ensures
        spec_entries(m).contains_key(m[i].0@),
        spec_entries(m)[m[i].0@] == (spec_records(m[i].1.records@), m[i].1.timestamp),
    decreases m.len(),
{
    if i == m.len() - 1 {
    } else {
        lemma_entries_lookup(m.drop_last(), i);
        assert(m.drop_last()[i] == m[i]);
        assert(m[i].0@ != m.last().0@);
    }
}

/// Replacing the item under a name updates the map at that name alone.
proof fn lemma_entries_update(m: Seq<(Vec<u8>, DnsCacheItem)>, i: int, e: (Vec<u8>, DnsCacheItem))
    requires
        spec_keys_unique(m),
        0 <= i < m.len(),
        e.0@ == m[i].0@,
    ensures
        spec_entries(m.update(i, e)) =~= spec_entries(m).insert(
            e.0@,
            (spec_records(e.1.records@), e.1.timestamp),
        ),
    decreases m.len(),
{
    if i == m.len() - 1 {
        assert(m.update(i, e).drop_last() =~= m.drop_last());
        assert(m.update(i, e).last() == e);
    } else {
        assert(m.update(i, e).drop_last() =~= m.drop_last().update(i, e));
        assert(m.update(i, e).last() == m.last());
        assert(m.drop_last()[i] == m[i]);
        lemma_entries_update(m.drop_last(), i, e);
        assert(m[i].0@ != m.last().0@);
    }
}

/// Dropping the entry under a name removes that name alone.
proof fn lemma_entries_remove(m: Seq<(Vec<u8>, DnsCacheItem)>, i: int)
    requires
        spec_keys_unique(m),
        0 <= i < m.len(),
    ensures
        spec_entries(m.remove(i)) =~= spec_entries(m).remove(m[i].0@),
    decreases m.len(),
{
    if i == m.len() - 1 {
        assert(m.remove(i) =~= m.drop_last());
        lemma_entries_not_contains_outside(m.drop_last(), m[i].0@, m);
    } else {
        assert(m.remove(i).drop_last() =~= m.drop_last().remove(i));
        assert(m.remove(i).last() == m.last());
        assert(m.drop_last()[i] == m[i]);
        lemma_entries_remove(m.drop_last(), i);
        assert(m[i].0@ != m.last().0@);
    }
}

/// A name unique to `m` is absent from the shorter prefix.
proof fn lemma_entries_not_contains_outside(
    pre: Seq<(Vec<u8>, DnsCacheItem)>,
    k: Seq<u8>,
    m: Seq<(Vec<u8>, DnsCacheItem)>,
)
    requires
        spec_keys_unique(m),
        m.len() > 0,
        pre =~= m.drop_last(),
        k == m.last().0@,
    ensures
        !spec_entries(pre).contains_key(k),
{
    assert(forall|i: int| 0 <= i < pre.len() ==> (#[trigger] pre[i].0@) != k) by {
        assert(forall|i: int|
            0 <= i < pre.len() ==> pre[i] == m[i] && (#[trigger] m[i].0@) != m[m.len() - 1].0@);
    }
    lemma_entries_not_contains(pre, k);
}

impl DnsCache {
    /// The name-to-records map this cache holds.
    pub closed spec fn view(&self) -> Map<Seq<u8>, (Seq<RecordView>, u64)> {
        spec_entries(self.map@)
    }

    /// Entries never share a name.
    pub closed spec fn wf(&self) -> bool {
        spec_keys_unique(self.map@)
    }

    pub fn new() -> (r: DnsCache)
        ensures
            r.wf(),
            r@ == Map::<Seq<u8>, (Seq<RecordView>, u64)>::empty(),
    {
        let r = DnsCache { map: Vec::new() };
        proof {
            assert(r@ =~= Map::<Seq<u8>, (Seq<RecordView>, u64)>::empty());
        }
        r
    }

    /// The index holding `key`, if any.
    #[verifier::loop_isolation(false)]
    fn find(&self, key: &[u8]) -> (r: Option<usize>)
        requires
            self.wf(),
        ensures
            ({
                match r {
                    Some(i) => {
                        &&& i < self.map@.len()
                        &&& self.map@[i as int].0@ == key@
                        &&& self@.contains_key(key@)
                        &&& self@[key@] == (
                            spec_records(self.map@[i as int].1.records@),
                            self.map@[i as int].1.timestamp,
                        )
                    },
                    None => !self@.contains_key(key@),
                }
            }),
    {
        let mut i: usize = 0;
        while i < self.map.len()
            invariant
                self.wf(),
                0 <= i <= self.map@.len(),
                forall|k: int| 0 <= k < i ==> (#[trigger] self.map@[k].0@) != key@,
            decreases self.map@.len() - i,
        {
            if bytes_eq_slices(&self.map[i].0, key) {
                proof {
                    lemma_entries_lookup(self.map@, i as int);
                }
                return Some(i);
            }
            i = i + 1;
        }
        proof {
            lemma_entries_not_contains(self.map@, key@);
        }
        None
    }

    /// Reads the fresh records under `key` at instant `now`; a key
    /// whose records have all expired is dropped as it is read.
    #[verifier::loop_isolation(false)]
    #[verifier::rlimit(100)]
    pub fn get_at(&mut self, key: &[u8], now: u64) -> (r: Option<Vec<Record>>)
        requires
            old(self).wf(),
        ensures
            final(self).wf(),
            !old(self)@.contains_key(key@) ==> {
                &&& r is None
                &&& final(self)@ == old(self)@
            },
            old(self)@.contains_key(key@) ==> {
                let fresh = spec_fresh_records(old(self)@[key@].0, old(self)@[key@].1, now);
                if fresh.len() == 0 {
                    &&& r is None
                    &&& final(self)@ == old(self)@.remove(key@)
                } else {
                    &&& r matches Some(v) && spec_records(v@) == fresh
                    &&& final(self)@ == old(self)@
                }
            },
    {
        let idx = match self.find(key) {
            Some(i) => i,
            None => {
                return None;
            },
        };

        let item = &self.map[idx].1;
        let ghost ts = item.timestamp;
        let ghost recs = spec_records(item.records@);
        let mut res: Vec<Record> = Vec::new();
        let mut i: usize = 0;

        proof {
            assert(recs.skip(0) =~= recs);
            assert(spec_fresh_records(recs, ts, now) =~= Seq::<RecordView>::empty()
                + spec_fresh_records(recs.skip(0), ts, now));
        }
        while i < item.records.len()
            invariant
                0 <= i <= item.records@.len(),
                idx < self.map@.len(),
                recs == spec_records(item.records@),
                ts == item.timestamp,
                spec_fresh_records(recs, ts, now) == spec_records(res@) + spec_fresh_records(
                    recs.skip(i as int),
                    ts,
                    now,
                ),
            decreases item.records@.len() - i,
        {
            proof {
                assert(recs.skip(i as int)[0] == recs[i as int]);
                assert(recs.skip(i as int).drop_first() =~= recs.skip(i as int + 1));
                assert(recs[i as int] == item.records@[i as int]@);
            }
            let record = &item.records[i];
            let expired = is_expired(record, item.timestamp, now);
            if !expired {
                let ghost res0 = spec_records(res@);
                res.push(record.clone());
                proof {
                    assert(spec_records(res@) =~= res0 + seq![recs[i as int]]);
                    assert((res0 + seq![recs[i as int]]) + spec_fresh_records(
                        recs.skip(i as int + 1),
                        ts,
                        now,
                    ) =~= res0 + (seq![recs[i as int]] + spec_fresh_records(
                        recs.skip(i as int + 1),
                        ts,
                        now,
                    )));
                }
            }
            i = i + 1;
        }
        proof {
            assert(recs.skip(recs.len() as int) =~= Seq::<RecordView>::empty());
            assert(spec_records(res@) + Seq::<RecordView>::empty() =~= spec_records(res@));
        }

        if res.len() == 0 {
            proof {
                lemma_entries_remove(self.map@, idx as int);
                lemma_unique_remove(self.map@, idx as int);
            }
            self.map.remove(idx);
            return None;
        }

        proof {
            assert(spec_records(res@).len() > 0);
        }
        Some(res)
    }

    /// Stores `val` under `key`, replacing any earlier entry.
    #[verifier::loop_isolation(false)]
    pub fn set_at(&mut self, key: &[u8], val: DnsCacheItem)
        requires
            old(self).wf(),
        ensures
            final(self).wf(),
            final(self)@ == old(self)@.insert(
                key@,
                (spec_records(val.records@), val.timestamp),
            ),
    {
        let mut key_vec: Vec<u8> = Vec::new();
        let mut k: usize = 0;
        while k < key.len()
            invariant
                0 <= k <= key@.len(),
                key_vec@ == key@.subrange(0, k as int),
            decreases key@.len() - k,
        {
            key_vec.push(key[k]);
            proof {
                assert(key_vec@ =~= key@.subrange(0, k as int + 1));
            }
            k = k + 1;
        }
        proof {
            assert(key_vec@ =~= key@);
        }

        match self.find(key) {
            Some(i) => {
                proof {
                    lemma_entries_update(self.map@, i as int, (key_vec, val));
                }
                self.map.set(i, (key_vec, val));
                proof {
                    assert forall|a: int, b: int|
                        0 <= a < b < self.map@.len() implies (#[trigger] self.map@[a].0@) != (
                    #[trigger] self.map@[b].0@) by {
                        assert(self.map@[a].0@ == old(self).map@[a].0@);
                        assert(self.map@[b].0@ == old(self).map@[b].0@);
                    }
                }
            },
            None => {
                self.map.push((key_vec, val));
                proof {
                    assert(self.map@.drop_last() =~= old(self).map@);
                    lemma_key_absent(old(self).map@, key@);
                    assert forall|a: int, b: int|
                        0 <= a < b < self.map@.len() implies (#[trigger] self.map@[a].0@) != (
                    #[trigger] self.map@[b].0@) by {
                        if b < self.map@.len() - 1 {
                            assert(self.map@[a] == old(self).map@[a]);
                            assert(self.map@[b] == old(self).map@[b]);
                        } else {
                            assert(self.map@[a] == old(self).map@[a]);
                            assert(old(self).map@[a].0@ != key@);
                        }
                    }
                }
            },
        }
    }

    /// Stores records under `key` with the clock's current reading.
    pub fn set(&mut self, key: &[u8], val: DnsCacheItem)
        requires
            old(self).wf(),
        ensures
            final(self).wf(),
            final(self)@ == old(self)@.insert(
                key@,
                (spec_records(val.records@), val.timestamp),
            ),
    {
        self.set_at(key, val);
    }

    /// Reads the fresh records under `key` at the clock's current
    /// reading; the freshness cut is some instant the clock returned.
    pub fn get(&mut self, key: &[u8]) -> (r: Option<Vec<Record>>)
        requires
            old(self).wf(),
        ensures
            final(self).wf(),
            !old(self)@.contains_key(key@) ==> {
                &&& r is None
                &&& final(self)@ == old(self)@
            },
            old(self)@.contains_key(key@) ==> exists|now: u64|
                {
                    let fresh = #[trigger] spec_fresh_records(
                        old(self)@[key@].0,
                        old(self)@[key@].1,
                        now,
                    );
                    if fresh.len() == 0 {
                        &&& r is None
                        &&& final(self)@ == old(self)@.remove(key@)
                    } else {
                        &&& r matches Some(v) && spec_records(v@) == fresh
                        &&& final(self)@ == old(self)@
                    }
                },
    {
        let now = now_secs();
        let r = self.get_at(key, now);
        r
    }
}

/// Dropping an entry keeps the remaining names distinct.
proof fn lemma_unique_remove(m: Seq<(Vec<u8>, DnsCacheItem)>, i: int)
    requires
        spec_keys_unique(m),
        0 <= i < m.len(),
    ensures
        spec_keys_unique(m.remove(i)),
{
    let m2 = m.remove(i);
    assert forall|a: int, b: int|
        0 <= a < b < m2.len() implies (#[trigger] m2[a].0@) != (#[trigger] m2[b].0@) by {
        let a2: int = if a < i {
            a
        } else {
            a + 1
        };
        let b2: int = if b < i {
            b
        } else {
            b + 1
        };
        assert(m2[a] == m[a2] && m2[b] == m[b2]);
        assert(m[a2].0@ != m[b2].0@);
    }
}

/// Every stored name differs from one the search missed.
proof fn lemma_key_absent(m: Seq<(Vec<u8>, DnsCacheItem)>, k: Seq<u8>)
    requires
        !spec_entries(m).contains_key(k),
    ensures
        forall|i: int| 0 <= i < m.len() ==> (#[trigger] m[i].0@) != k,
    decreases m.len(),
{
    if m.len() > 0 {
        lemma_key_absent(m.drop_last(), k);
        assert(forall|i: int| 0 <= i < m.len() - 1 ==> m[i] == m.drop_last()[i]);
    }
}

/// A record's age check against its effective TTL.
fn is_expired(record: &Record, ts: u64, now: u64) -> (r: bool)
    ensures
        r == !spec_fresh(record@, ts, now),
{
    let ttl: u64 = match &record.data {
        RecordData::SOA { expire, .. } => *expire as u64,
        _ => record.ttl as u64,
    };
    if now < ts {
        false
    } else {
        now - ts >= ttl
    }
}

/// Compares a stored name with a key.
fn bytes_eq_slices(a: &Vec<u8>, b: &[u8]) -> (r: bool)
    ensures
        r == (a@ == b@),
{
    if a.len() != b.len() {
        return false;
    }
    let mut i: usize = 0;
    while i < a.len()
        invariant
            0 <= i <= a@.len(),
            a@.len() == b@.len(),
            forall|k: int| 0 <= k < i ==> a@[k] == b@[k],
        decreases a@.len() - i,
    {
        if a[i] != b[i] {
            return false;
        }
        i = i + 1;
    }
    proof {
        assert(a@ =~= b@);
    }
    true
}

} // verus!
