use dns_cache::better_cache::BetterCache;
use dns_cache::dns::{
    DomainName, QueryClass, QueryType, RecordClass, RecordType, RecordTypeWithData, ResourceRecord,
};

const SECOND: u64 = 1_000_000_000;

fn name(text: &str) -> DomainName {
    DomainName { labels: text.split('.').map(|label| label.as_bytes().to_vec()).collect() }
}

fn a_record(owner: &str, address: u32, ttl: u64) -> ResourceRecord {
    ResourceRecord {
        name: name(owner),
        rtype: RecordTypeWithData::A { address },
        rclass: RecordClass::IN,
        ttl,
    }
}

fn cname_record(owner: &str, target: &str, ttl: u64) -> ResourceRecord {
    ResourceRecord {
        name: name(owner),
        rtype: RecordTypeWithData::CNAME { cname: name(target) },
        rclass: RecordClass::IN,
        ttl,
    }
}

fn all(cache: &mut BetterCache, owner: &str, now: u64) -> Vec<ResourceRecord> {
    cache.get_at(&name(owner), &QueryType::Wildcard, &QueryClass::Wildcard, now)
}

#[test]
fn new_cache_is_empty() {
    let mut cache = BetterCache::new(3);
    assert_eq!(cache.current_size(), 0);
    assert_eq!(cache.desired_size(), 3);
    assert!(all(&mut cache, "example.com", 0).is_empty());
    assert_eq!(cache.prune_at(0), 0);
    let other = BetterCache::with_desired_size(7);
    assert_eq!(other.desired_size(), 7);
    assert_eq!(other.current_size(), 0);
}

#[test]
fn get_of_unknown_name_is_empty() {
    let mut cache = BetterCache::new(2);
    cache.insert_at(&a_record("example.com", 1, 10 * SECOND), 0);
    assert!(all(&mut cache, "other.com", 1).is_empty());
    assert!(all(&mut cache, "com", 1).is_empty());
    assert!(all(&mut cache, "www.example.com", 1).is_empty());
    assert_eq!(cache.current_size(), 1);
}

#[test]
fn third_insert_goes_over_the_desired_size_and_prune_evicts_the_oldest() {
    let mut cache = BetterCache::new(2);
    cache.insert_at(&a_record("example.com", 1, 10 * SECOND), 100);
    cache.insert_at(&a_record("other.com", 2, 10 * SECOND), 200);
    assert_eq!(cache.current_size(), 2);
    assert_eq!(cache.prune_at(300), 0);
    assert_eq!(cache.current_size(), 2);

    cache.insert_at(&a_record("third.com", 3, 10 * SECOND), 400);
    assert_eq!(cache.current_size(), 3);

    let pruned = cache.prune_at(500);
    assert_eq!(pruned, 1);
    assert_eq!(cache.current_size(), 2);
    assert!(all(&mut cache, "example.com", 600).is_empty());
    assert_eq!(all(&mut cache, "other.com", 600).len(), 1);
    assert_eq!(all(&mut cache, "third.com", 600).len(), 1);
}

#[test]
fn third_insert_and_prune_with_the_clock() {
    let mut cache = BetterCache::new(2);
    cache.insert(&a_record("example.com", 1, 10 * SECOND));
    cache.insert(&a_record("other.com", 2, 10 * SECOND));
    assert_eq!(cache.current_size(), 2);
    assert_eq!(cache.prune(), 0);
    cache.insert(&a_record("third.com", 3, 10 * SECOND));
    assert_eq!(cache.current_size(), 3);
    let pruned = cache.prune();
    assert!(pruned > 0);
    assert!(cache.current_size() <= 2);
    assert_eq!(cache.current_size() + pruned, 3);
}

#[test]
fn record_with_zero_ttl_is_removed_by_a_prune_that_runs() {
    let mut cache = BetterCache::new(1);
    cache.insert_at(&a_record("x.com", 1, 0), 10);
    cache.insert_at(&a_record("y.com", 2, 10 * SECOND), 20);
    assert_eq!(cache.current_size(), 2);
    assert_eq!(cache.prune_at(30), 1);
    assert_eq!(cache.current_size(), 1);
    assert!(all(&mut cache, "x.com", 40).is_empty());
    assert_eq!(all(&mut cache, "y.com", 40).len(), 1);
}

#[test]
fn record_with_zero_ttl_is_removed_with_the_clock() {
    let mut cache = BetterCache::new(1);
    cache.insert(&a_record("x.com", 1, 0));
    cache.insert(&a_record("y.com", 2, 3600 * SECOND));
    assert_eq!(cache.prune(), 1);
    assert!(cache.get(&name("x.com"), &QueryType::Wildcard, &QueryClass::Wildcard).is_empty());
    assert_eq!(cache.get(&name("y.com"), &QueryType::Wildcard, &QueryClass::Wildcard).len(), 1);
}

#[test]
fn prune_within_the_desired_size_does_nothing() {
    let mut cache = BetterCache::new(1);
    cache.insert_at(&a_record("x.com", 1, 0), 10);
    assert_eq!(cache.prune_at(1000), 0);
    assert_eq!(cache.current_size(), 1);
    let found = all(&mut cache, "x.com", 2000);
    assert_eq!(found.len(), 1);
    assert_eq!(found[0].ttl, 0);
}

#[test]
fn expired_record_stays_visible_with_zero_ttl_until_pruned() {
    let mut cache = BetterCache::new(5);
    cache.insert_at(&a_record("x.com", 1, 5 * SECOND), 0);
    let found = all(&mut cache, "x.com", 5 * SECOND);
    assert_eq!(found, vec![a_record("x.com", 1, 0)]);
    let found = all(&mut cache, "x.com", 9 * SECOND);
    assert_eq!(found, vec![a_record("x.com", 1, 0)]);
}

#[test]
fn wildcard_get_returns_every_type() {
    let mut cache = BetterCache::new(5);
    cache.insert_at(&a_record("example.com", 0x0102_0304, 10 * SECOND), 0);
    cache.insert_at(&cname_record("example.com", "target.org", 20 * SECOND), 0);
    let found = all(&mut cache, "example.com", SECOND);
    assert_eq!(
        found,
        vec![
            a_record("example.com", 0x0102_0304, 9 * SECOND),
            cname_record("example.com", "target.org", 19 * SECOND),
        ]
    );
    let found = cache.get_at(
        &name("example.com"),
        &QueryType::Wildcard,
        &QueryClass::Record(RecordClass::IN),
        SECOND,
    );
    assert_eq!(found.len(), 2);
}

#[test]
fn get_of_one_type_returns_that_type_only() {
    let mut cache = BetterCache::new(5);
    cache.insert_at(&a_record("example.com", 7, 10 * SECOND), 0);
    cache.insert_at(&a_record("example.com", 8, 10 * SECOND), 0);
    cache.insert_at(&cname_record("example.com", "target.org", 20 * SECOND), 0);
    let found = cache.get_at(
        &name("example.com"),
        &QueryType::Record(RecordType::CNAME),
        &QueryClass::Wildcard,
        0,
    );
    assert_eq!(found, vec![cname_record("example.com", "target.org", 20 * SECOND)]);
    let found = cache.get_at(
        &name("example.com"),
        &QueryType::Record(RecordType::A),
        &QueryClass::Record(RecordClass::IN),
        0,
    );
    assert_eq!(
        found,
        vec![a_record("example.com", 7, 10 * SECOND), a_record("example.com", 8, 10 * SECOND)]
    );
}

#[test]
fn get_without_result_does_not_count_as_a_read() {
    let mut cache = BetterCache::new(2);
    cache.insert_at(&a_record("a.com", 1, 100 * SECOND), 1);
    cache.insert_at(&a_record("b.com", 2, 100 * SECOND), 2);
    let found = cache.get_at(
        &name("a.com"),
        &QueryType::Record(RecordType::CNAME),
        &QueryClass::Wildcard,
        3,
    );
    assert!(found.is_empty());
    cache.insert_at(&a_record("c.com", 3, 100 * SECOND), 4);
    assert_eq!(cache.prune_at(5), 1);
    assert!(all(&mut cache, "a.com", 6).is_empty());
    assert_eq!(all(&mut cache, "b.com", 6).len(), 1);
    assert_eq!(all(&mut cache, "c.com", 6).len(), 1);
}

#[test]
fn get_with_result_counts_as_a_read() {
    let mut cache = BetterCache::new(2);
    cache.insert_at(&a_record("a.com", 1, 100 * SECOND), 1);
    cache.insert_at(&a_record("b.com", 2, 100 * SECOND), 2);
    let found =
        cache.get_at(&name("a.com"), &QueryType::Record(RecordType::A), &QueryClass::Wildcard, 3);
    assert_eq!(found.len(), 1);
    cache.insert_at(&a_record("c.com", 3, 100 * SECOND), 4);
    assert_eq!(cache.prune_at(5), 1);
    assert_eq!(all(&mut cache, "a.com", 6).len(), 1);
    assert!(all(&mut cache, "b.com", 6).is_empty());
    assert_eq!(all(&mut cache, "c.com", 6).len(), 1);
}

#[test]
fn insert_of_a_stored_record_replaces_its_expiry() {
    let mut cache = BetterCache::new(5);
    cache.insert_at(&a_record("example.com", 1, 10 * SECOND), 0);
    cache.insert_at(&a_record("example.com", 2, 10 * SECOND), 0);
    assert_eq!(cache.current_size(), 2);
    cache.insert_at(&a_record("example.com", 1, 60 * SECOND), SECOND);
    assert_eq!(cache.current_size(), 2);
    let found = all(&mut cache, "example.com", 2 * SECOND);
    assert_eq!(
        found,
        vec![a_record("example.com", 2, 8 * SECOND), a_record("example.com", 1, 59 * SECOND)]
    );
    cache.insert_at(&a_record("example.com", 1, 3 * SECOND), 2 * SECOND);
    assert_eq!(cache.current_size(), 2);
    let found = all(&mut cache, "example.com", 2 * SECOND);
    assert_eq!(
        found,
        vec![a_record("example.com", 2, 8 * SECOND), a_record("example.com", 1, 3 * SECOND)]
    );
}

#[test]
fn same_payload_under_another_name_is_another_record() {
    let mut cache = BetterCache::new(5);
    cache.insert_at(&a_record("a.com", 1, 10 * SECOND), 0);
    cache.insert_at(&a_record("b.com", 1, 10 * SECOND), 0);
    cache.insert_at(&cname_record("a.com", "b.com", 10 * SECOND), 0);
    cache.insert_at(&cname_record("a.com", "c.com", 10 * SECOND), 0);
    assert_eq!(cache.current_size(), 4);
    cache.insert_at(&cname_record("a.com", "b.com", 10 * SECOND), 0);
    assert_eq!(cache.current_size(), 4);
}

#[test]
fn ttl_runs_down_and_stops_at_zero() {
    let mut cache = BetterCache::new(5);
    let t0 = 1000;
    cache.insert_at(&a_record("example.com", 1, 10 * SECOND), t0);
    assert_eq!(all(&mut cache, "example.com", t0)[0].ttl, 10 * SECOND);
    assert_eq!(all(&mut cache, "example.com", t0 + 1)[0].ttl, 10 * SECOND - 1);
    assert_eq!(all(&mut cache, "example.com", t0 + 3 * SECOND)[0].ttl, 7 * SECOND);
    assert_eq!(all(&mut cache, "example.com", t0 + 10 * SECOND - 1)[0].ttl, 1);
    assert_eq!(all(&mut cache, "example.com", t0 + 10 * SECOND)[0].ttl, 0);
    assert_eq!(all(&mut cache, "example.com", t0 + 11 * SECOND)[0].ttl, 0);
    assert_eq!(all(&mut cache, "example.com", u64::MAX)[0].ttl, 0);
}

#[test]
fn ttl_runs_down_with_the_clock() {
    let mut cache = BetterCache::new(5);
    cache.insert(&a_record("example.com", 1, 3600 * SECOND));
    let found = cache.get(&name("example.com"), &QueryType::Wildcard, &QueryClass::Wildcard);
    assert_eq!(found.len(), 1);
    assert!(found[0].ttl <= 3600 * SECOND);
    assert!(found[0].ttl > 3000 * SECOND);
    assert_eq!(found[0].name, name("example.com"));
    assert_eq!(found[0].rtype, RecordTypeWithData::A { address: 1 });
}

#[test]
fn eviction_goes_by_last_read_and_stops_at_the_desired_size() {
    let mut cache = BetterCache::new(2);
    cache.insert_at(&a_record("a.com", 1, 100 * SECOND), 0);
    cache.insert_at(&a_record("b.com", 2, 100 * SECOND), 1);
    cache.insert_at(&cname_record("b.com", "a.com", 100 * SECOND), 1);
    cache.insert_at(&a_record("c.com", 3, 100 * SECOND), 2);
    cache.insert_at(&a_record("d.com", 4, 100 * SECOND), 3);
    assert_eq!(cache.current_size(), 5);
    assert_eq!(cache.prune_at(5), 3);
    assert_eq!(cache.current_size(), 2);
    assert!(all(&mut cache, "a.com", 6).is_empty());
    assert!(all(&mut cache, "b.com", 6).is_empty());
    assert_eq!(all(&mut cache, "c.com", 6).len(), 1);
    assert_eq!(all(&mut cache, "d.com", 6).len(), 1);
}

#[test]
fn eviction_takes_whole_domains() {
    let mut cache = BetterCache::new(2);
    cache.insert_at(&a_record("a.com", 1, 100 * SECOND), 0);
    cache.insert_at(&a_record("a.com", 2, 100 * SECOND), 0);
    cache.insert_at(&a_record("a.com", 3, 100 * SECOND), 0);
    assert_eq!(cache.prune_at(1), 3);
    assert_eq!(cache.current_size(), 0);
    assert!(all(&mut cache, "a.com", 2).is_empty());
}

#[test]
fn eviction_follows_reads() {
    let mut cache = BetterCache::new(2);
    cache.insert_at(&a_record("a.com", 1, 100 * SECOND), 0);
    cache.insert_at(&a_record("b.com", 2, 100 * SECOND), 1);
    cache.insert_at(&a_record("c.com", 3, 100 * SECOND), 2);
    cache.insert_at(&a_record("d.com", 4, 100 * SECOND), 3);
    assert_eq!(all(&mut cache, "a.com", 4).len(), 1);
    assert_eq!(cache.prune_at(5), 2);
    assert_eq!(all(&mut cache, "a.com", 6).len(), 1);
    assert!(all(&mut cache, "b.com", 6).is_empty());
    assert!(all(&mut cache, "c.com", 6).is_empty());
    assert_eq!(all(&mut cache, "d.com", 6).len(), 1);
}

#[test]
fn expired_tuples_go_before_any_live_domain() {
    let mut cache = BetterCache::new(2);
    cache.insert_at(&a_record("a.com", 1, 100 * SECOND), 0);
    cache.insert_at(&a_record("b.com", 2, 100 * SECOND), 1);
    cache.insert_at(&a_record("c.com", 3, 1), 2);
    assert_eq!(cache.prune_at(10), 1);
    assert_eq!(cache.current_size(), 2);
    assert_eq!(all(&mut cache, "a.com", 11).len(), 1);
    assert_eq!(all(&mut cache, "b.com", 11).len(), 1);
    assert!(all(&mut cache, "c.com", 11).is_empty());
}

#[test]
fn expiry_pass_drops_single_tuples_and_keeps_the_rest_of_the_domain() {
    let mut cache = BetterCache::new(2);
    cache.insert_at(&a_record("a.com", 1, 5), 0);
    cache.insert_at(&a_record("a.com", 2, 50), 0);
    cache.insert_at(&cname_record("a.com", "b.com", 7), 0);
    cache.insert_at(&cname_record("a.com", "c.com", 70), 0);
    assert_eq!(cache.current_size(), 4);
    assert_eq!(cache.prune_at(7), 2);
    assert_eq!(cache.current_size(), 2);
    let found = all(&mut cache, "a.com", 10);
    assert_eq!(found, vec![a_record("a.com", 2, 40), cname_record("a.com", "c.com", 60)]);
}

#[test]
fn expiry_pass_then_eviction() {
    let mut cache = BetterCache::new(1);
    cache.insert_at(&a_record("a.com", 1, 100), 0);
    cache.insert_at(&a_record("b.com", 2, 5), 1);
    cache.insert_at(&a_record("c.com", 3, 100), 2);
    cache.insert_at(&a_record("d.com", 4, 5), 3);
    assert_eq!(cache.prune_at(50), 3);
    assert_eq!(cache.current_size(), 1);
    assert!(all(&mut cache, "a.com", 51).is_empty());
    assert!(all(&mut cache, "b.com", 51).is_empty());
    assert_eq!(all(&mut cache, "c.com", 51).len(), 1);
    assert!(all(&mut cache, "d.com", 51).is_empty());
}

#[test]
fn tuple_that_expires_exactly_now_is_expired() {
    let mut cache = BetterCache::new(1);
    cache.insert_at(&a_record("a.com", 1, 10), 0);
    cache.insert_at(&a_record("b.com", 2, 11), 0);
    assert_eq!(cache.prune_at(10), 1);
    assert!(all(&mut cache, "a.com", 10).is_empty());
    assert_eq!(all(&mut cache, "b.com", 10), vec![a_record("b.com", 2, 1)]);
}

#[test]
fn size_is_the_number_of_tuples_after_every_step() {
    let mut cache = BetterCache::new(3);
    let names = ["a.com", "b.com", "c.com", "d.com"];
    let mut now = 0;
    for round in 0..6u32 {
        for (k, owner) in names.iter().enumerate() {
            now += 1;
            cache.insert_at(&a_record(owner, round % 3, (k as u64 + 1) * 10), now);
            if round % 2 == 0 {
                cache.insert_at(&cname_record(owner, "t.org", 1000), now);
            }
            let mut seen = 0;
            for other in names.iter() {
                seen += cache
                    .get_at(&name(other), &QueryType::Record(RecordType::A), &QueryClass::Wildcard, 0)
                    .len();
                seen += cache
                    .get_at(
                        &name(other),
                        &QueryType::Record(RecordType::CNAME),
                        &QueryClass::Wildcard,
                        0,
                    )
                    .len();
            }
            assert_eq!(cache.current_size(), seen);
        }
        let before = cache.current_size();
        let pruned = cache.prune_at(now);
        assert_eq!(before, cache.current_size() + pruned);
        assert!(cache.current_size() <= 3);
    }
}

#[test]
fn replacing_the_earliest_tuple_searches_its_own_group_only() {
    let mut cache = BetterCache::new(2);
    cache.insert_at(&a_record("x.com", 1, 5), 0);
    cache.insert_at(&cname_record("x.com", "t.org", 7), 0);
    cache.insert_at(&a_record("x.com", 1, 100), 1);
    cache.insert_at(&a_record("y.com", 2, 1000), 2);
    assert_eq!(cache.current_size(), 3);
    // x.com is now filed under 101, though its CNAME expires at 7: the
    // expiry pass at 50 finds nothing due, and x.com goes as a whole.
    assert_eq!(cache.prune_at(50), 2);
    assert!(all(&mut cache, "x.com", 51).is_empty());
    assert_eq!(all(&mut cache, "y.com", 51).len(), 1);
}

#[test]
fn replacing_a_later_tuple_keeps_the_domain_filed_under_the_earliest() {
    let mut cache = BetterCache::new(2);
    cache.insert_at(&a_record("x.com", 1, 5), 0);
    cache.insert_at(&cname_record("x.com", "t.org", 7), 0);
    cache.insert_at(&cname_record("x.com", "t.org", 100), 1);
    cache.insert_at(&a_record("y.com", 2, 1000), 2);
    assert_eq!(cache.prune_at(50), 1);
    assert_eq!(all(&mut cache, "x.com", 51), vec![cname_record("x.com", "t.org", 50)]);
    assert_eq!(all(&mut cache, "y.com", 51).len(), 1);
}

#[test]
fn freed_slot_is_used_again() {
    let mut cache = BetterCache::new(1);
    cache.insert_at(&a_record("a.com", 1, 1000), 0);
    for round in 1..40u64 {
        let (owner, earlier) = if round % 2 == 0 { ("b.com", "c.com") } else { ("c.com", "b.com") };
        cache.insert_at(&a_record(owner, 2, 1000), 10 * round);
        assert_eq!(cache.current_size(), 2);
        assert_eq!(cache.prune_at(10 * round + 1), 1);
        assert_eq!(cache.current_size(), 1);
        assert_eq!(all(&mut cache, owner, 10 * round + 2).len(), 1);
        assert!(all(&mut cache, earlier, 10 * round + 2).is_empty());
        assert!(all(&mut cache, "a.com", 10 * round + 2).is_empty());
    }
}

#[test]
fn insert_with_the_clock_keeps_count() {
    let mut cache = BetterCache::new(10);
    cache.insert(&a_record("a.com", 1, SECOND));
    cache.insert(&a_record("a.com", 1, 2 * SECOND));
    cache.insert(&cname_record("a.com", "b.com", SECOND));
    assert_eq!(cache.current_size(), 2);
    let found = cache.get(
        &name("a.com"),
        &QueryType::Record(RecordType::A),
        &QueryClass::Record(RecordClass::IN),
    );
    assert_eq!(found.len(), 1);
    assert!(found[0].ttl > SECOND && found[0].ttl <= 2 * SECOND);
}

#[test]
fn insert_beyond_the_end_of_the_time_line_is_harmless() {
    let mut cache = BetterCache::new(10);
    cache.insert(&a_record("a.com", 1, u64::MAX));
    assert_eq!(cache.current_size(), 1);
    let found = cache.get(&name("a.com"), &QueryType::Wildcard, &QueryClass::Wildcard);
    assert_eq!(found.len(), 1);
    assert!(found[0].ttl > u64::MAX / 2);
    cache.insert_at(&a_record("b.com", 1, u64::MAX), 0);
    let found = all(&mut cache, "b.com", 5);
    assert_eq!(found[0].ttl, u64::MAX - 5);
}

#[test]
fn expiry_stops_at_the_end_of_the_time_line() {
    let mut cache = BetterCache::new(1);
    cache.insert_at(&a_record("a.com", 1, u64::MAX), 10);
    cache.insert_at(&a_record("a.com", 2, u64::MAX - 10), 10);
    cache.insert_at(&a_record("a.com", 3, u64::MAX - 11), 10);
    cache.insert_at(&a_record("b.com", 4, 2), u64::MAX - 1);
    assert_eq!(cache.current_size(), 4);
    let found = all(&mut cache, "a.com", 20);
    assert_eq!(
        found,
        vec![
            a_record("a.com", 1, u64::MAX - 20),
            a_record("a.com", 2, u64::MAX - 20),
            a_record("a.com", 3, u64::MAX - 21),
        ]
    );
    assert_eq!(all(&mut cache, "b.com", u64::MAX - 1), vec![a_record("b.com", 4, 1)]);
    // the third tuple of a.com is due and goes first; a.com, read longer
    // ago than b.com, then goes as a whole
    assert_eq!(cache.prune_at(u64::MAX - 1), 3);
    assert!(all(&mut cache, "a.com", u64::MAX - 1).is_empty());
    assert_eq!(cache.current_size(), 1);
    assert_eq!(cache.prune_at(u64::MAX), 0);
    cache.insert_at(&a_record("c.com", 5, 0), u64::MAX);
    assert_eq!(cache.prune_at(u64::MAX), 2);
    assert_eq!(cache.current_size(), 0);
}
