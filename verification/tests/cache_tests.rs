use mydns::cache::{DnsCache, DnsCacheItem};
use mydns::query_class::QueryClass;
use mydns::query_type::QueryType;
use mydns::record::{Record, RecordData};

fn a_record(owner: &[u8], ttl: u32) -> Record {
    Record {
        domain: owner.to_vec(),
        rtype: QueryType::A,
        rclass: QueryClass::IN,
        ttl,
        len: 0,
        data: RecordData::A(0x01020304),
    }
}

fn soa_record(owner: &[u8], expire: u32) -> Record {
    Record {
        domain: owner.to_vec(),
        rtype: QueryType::SOA,
        rclass: QueryClass::IN,
        ttl: 1,
        len: 0,
        data: RecordData::SOA {
            mname: b"ns1.example.com".to_vec(),
            rname: b"admin.example.com".to_vec(),
            serial: 1,
            refresh: 2,
            retry: 3,
            expire,
            minimum: 5,
        },
    }
}

#[test]
fn cache_set_then_get() {
    let mut cache = DnsCache::new();
    cache.set_at(b"example.com", DnsCacheItem::new_at(vec![a_record(b"example.com", 300)], 1000));

    let got = cache.get_at(b"example.com", 1100).unwrap();
    assert_eq!(got.len(), 1);
    assert_eq!(got[0].domain, b"example.com".to_vec());

    assert!(cache.get_at(b"other.com", 1100).is_none());
}

#[test]
fn cache_expiry_removes_key() {
    // once every record has outlived its TTL, the read comes back
    // empty and the key is gone
    let mut cache = DnsCache::new();
    cache.set_at(b"example.com", DnsCacheItem::new_at(vec![a_record(b"example.com", 300)], 1000));

    assert!(cache.get_at(b"example.com", 1300).is_none());
    // the key was dropped: a later read at a fresh instant still misses
    assert!(cache.get_at(b"example.com", 1000).is_none());
}

#[test]
fn cache_partial_expiry_filters() {
    let mut cache = DnsCache::new();
    cache.set_at(
        b"example.com",
        DnsCacheItem::new_at(
            vec![a_record(b"example.com", 60), a_record(b"example.com", 600)],
            1000,
        ),
    );

    let got = cache.get_at(b"example.com", 1100).unwrap();
    assert_eq!(got.len(), 1);
    assert_eq!(got[0].ttl, 600);

    // the entry stays: the fresh record can still be read
    let again = cache.get_at(b"example.com", 1100).unwrap();
    assert_eq!(again.len(), 1);
}

#[test]
fn cache_soa_expire_rules() {
    // an SOA record's age bound is its expire field, not its TTL
    let mut cache = DnsCache::new();
    cache.set_at(b"example.com", DnsCacheItem::new_at(vec![soa_record(b"example.com", 500)], 1000));

    assert!(cache.get_at(b"example.com", 1400).is_some());
    assert!(cache.get_at(b"example.com", 1500).is_none());
}

#[test]
fn cache_replacement() {
    let mut cache = DnsCache::new();
    cache.set_at(b"example.com", DnsCacheItem::new_at(vec![a_record(b"example.com", 300)], 1000));
    cache.set_at(
        b"example.com",
        DnsCacheItem::new_at(
            vec![a_record(b"example.com", 300), a_record(b"example.com", 400)],
            2000,
        ),
    );

    let got = cache.get_at(b"example.com", 2100).unwrap();
    assert_eq!(got.len(), 2);
}

#[test]
fn cache_wall_clock_wrappers() {
    // the clock-stamped path: a fresh record is readable right away
    let mut cache = DnsCache::new();
    cache.set(b"example.com", DnsCacheItem::new(vec![a_record(b"example.com", 600)]));
    let got = cache.get(b"example.com");
    assert!(got.is_some());
    assert_eq!(got.unwrap().len(), 1);
}
