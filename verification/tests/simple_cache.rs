use dns_cache::dns::{
    DomainName, QueryClass, QueryType, RecordClass, RecordType, RecordTypeWithData, ResourceRecord,
};
use dns_cache::simple_cache::SimpleCache;

fn host(text: &str) -> DomainName {
    DomainName { labels: text.split('.').map(|label| label.as_bytes().to_vec()).collect() }
}

fn address(owner: &str, address: u32, ttl: u64) -> ResourceRecord {
    ResourceRecord {
        name: host(owner),
        rtype: RecordTypeWithData::A { address },
        rclass: RecordClass::IN,
        ttl,
    }
}

fn alias(owner: &str, target: &str, ttl: u64) -> ResourceRecord {
    ResourceRecord {
        name: host(owner),
        rtype: RecordTypeWithData::CNAME { cname: host(target) },
        rclass: RecordClass::IN,
        ttl,
    }
}

#[test]
fn simple_cache_starts_empty() {
    let cache = SimpleCache::new();
    assert!(cache.get_at(&host("a.com"), QueryType::Wildcard, QueryClass::Wildcard, 0).is_empty());
    assert!(cache.get(&host("a.com"), QueryType::Wildcard, QueryClass::Wildcard).is_empty());
}

#[test]
fn simple_cache_returns_what_was_inserted() {
    let mut cache = SimpleCache::new();
    cache.insert_at(&host("a.com"), address("a.com", 1, 100), 10);
    cache.insert_at(&host("a.com"), alias("a.com", "b.com", 200), 20);
    cache.insert_at(&host("b.com"), address("b.com", 2, 300), 30);
    let found = cache.get_at(&host("a.com"), QueryType::Wildcard, QueryClass::Wildcard, 50);
    assert_eq!(found, vec![address("a.com", 1, 60), alias("a.com", "b.com", 170)]);
    let found = cache.get_at(
        &host("a.com"),
        QueryType::Record(RecordType::CNAME),
        QueryClass::Record(RecordClass::IN),
        50,
    );
    assert_eq!(found, vec![alias("a.com", "b.com", 170)]);
    let found =
        cache.get_at(&host("b.com"), QueryType::Record(RecordType::CNAME), QueryClass::Wildcard, 50);
    assert!(found.is_empty());
    let found = cache.get_at(&host("c.com"), QueryType::Wildcard, QueryClass::Wildcard, 50);
    assert!(found.is_empty());
}

#[test]
fn simple_cache_keeps_duplicates_and_expired_records() {
    let mut cache = SimpleCache::new();
    cache.insert_at(&host("a.com"), address("a.com", 1, 100), 0);
    cache.insert_at(&host("a.com"), address("a.com", 1, 5), 0);
    let found = cache.get_at(&host("a.com"), QueryType::Wildcard, QueryClass::Wildcard, 50);
    assert_eq!(found, vec![address("a.com", 1, 50), address("a.com", 1, 0)]);
}

#[test]
fn simple_cache_files_under_the_given_name() {
    let mut cache = SimpleCache::new();
    cache.insert_at(&host("key.com"), address("inside.com", 1, 100), 0);
    assert!(cache.get_at(&host("inside.com"), QueryType::Wildcard, QueryClass::Wildcard, 0).is_empty());
    let found = cache.get_at(&host("key.com"), QueryType::Wildcard, QueryClass::Wildcard, 0);
    assert_eq!(found, vec![address("key.com", 1, 100)]);
}

#[test]
fn simple_cache_with_the_clock() {
    let mut cache = SimpleCache::new();
    cache.insert(&host("a.com"), address("a.com", 1, 3_600_000_000_000));
    cache.insert(&host("a.com"), address("a.com", 2, 0));
    let found = cache.get(&host("a.com"), QueryType::Record(RecordType::A), QueryClass::Wildcard);
    assert_eq!(found.len(), 2);
    assert!(found[0].ttl > 3_000_000_000_000 && found[0].ttl <= 3_600_000_000_000);
    assert_eq!(found[1].ttl, 0);
}

#[test]
fn simple_cache_expiry_stops_at_the_end_of_the_time_line() {
    let mut cache = SimpleCache::new();
    cache.insert_at(&host("a.com"), address("a.com", 1, u64::MAX), 7);
    cache.insert_at(&host("a.com"), address("a.com", 2, u64::MAX - 8), 7);
    let found = cache.get_at(&host("a.com"), QueryType::Wildcard, QueryClass::Wildcard, 9);
    assert_eq!(found, vec![address("a.com", 1, u64::MAX - 9), address("a.com", 2, u64::MAX - 10)]);
    cache.insert(&host("b.com"), address("b.com", 3, u64::MAX));
    let found = cache.get(&host("b.com"), QueryType::Wildcard, QueryClass::Wildcard);
    assert_eq!(found.len(), 1);
    assert!(found[0].ttl > u64::MAX / 2);
}
