use dns_cache::better_cache::BetterCache;
use dns_cache::dns::{
    DomainName, QueryClass, QueryType, RecordClass, RecordType, RecordTypeWithData, ResourceRecord,
};

/// A plain model of the cache, written without any ordering structure.
struct PlainDomain {
    name: usize,
    last_read: u64,
    next_expiry: u64,
    groups: Vec<(RecordType, Vec<(u32, u64)>)>,
}

struct PlainCache {
    domains: Vec<PlainDomain>,
    desired: usize,
}

impl PlainCache {
    fn size(&self) -> usize {
        self.domains.iter().map(|d| d.groups.iter().map(|g| g.1.len()).sum::<usize>()).sum()
    }

    fn insert(&mut self, name: usize, rtype: RecordType, payload: u32, ttl: u64, now: u64) {
        let expiry = now + ttl;
        match self.domains.iter_mut().find(|d| d.name == name) {
            None => self.domains.push(PlainDomain {
                name,
                last_read: now,
                next_expiry: expiry,
                groups: vec![(rtype, vec![(payload, expiry)])],
            }),
            Some(domain) => {
                domain.last_read = now;
                match domain.groups.iter_mut().find(|g| g.0 == rtype) {
                    None => {
                        domain.groups.push((rtype, vec![(payload, expiry)]));
                        domain.next_expiry = domain.next_expiry.min(expiry);
                    }
                    Some(group) => match group.1.iter().position(|t| t.0 == payload) {
                        None => {
                            group.1.push((payload, expiry));
                            domain.next_expiry = domain.next_expiry.min(expiry);
                        }
                        Some(at) => {
                            let replaced = group.1.swap_remove(at);
                            group.1.push((payload, expiry));
                            if replaced.1 == domain.next_expiry {
                                domain.next_expiry = group.1.iter().map(|t| t.1).min().unwrap();
                            } else {
                                domain.next_expiry = domain.next_expiry.min(expiry);
                            }
                        }
                    },
                }
            }
        }
    }

    fn get(&mut self, name: usize, qtype: QueryType, now: u64) -> Vec<(RecordType, u32, u64)> {
        let mut found = Vec::new();
        if let Some(domain) = self.domains.iter_mut().find(|d| d.name == name) {
            for group in domain.groups.iter() {
                if group.0.matches(&qtype) {
                    for tuple in group.1.iter() {
                        found.push((group.0, tuple.0, tuple.1.saturating_sub(now)));
                    }
                }
            }
            if !found.is_empty() {
                domain.last_read = now;
            }
        }
        found
    }

    fn prune(&mut self, now: u64) -> usize {
        let before = self.size();
        if before <= self.desired {
            return 0;
        }
        for domain in self.domains.iter_mut() {
            if domain.next_expiry <= now {
                for group in domain.groups.iter_mut() {
                    group.1.retain(|t| t.1 > now);
                }
                if let Some(least) = domain.groups.iter().flat_map(|g| g.1.iter()).map(|t| t.1).min() {
                    domain.next_expiry = least;
                }
            }
        }
        self.domains.retain(|d| d.groups.iter().any(|g| !g.1.is_empty()));
        while self.size() > self.desired {
            let oldest = self.domains.iter().map(|d| d.last_read).min().unwrap();
            let at = self.domains.iter().position(|d| d.last_read == oldest).unwrap();
            self.domains.remove(at);
        }
        before - self.size()
    }
}

fn name_of(number: usize) -> DomainName {
    DomainName { labels: vec![format!("host{}", number).into_bytes(), b"test".to_vec()] }
}

fn payload_of(rtype: RecordType, payload: u32) -> RecordTypeWithData {
    match rtype {
        RecordType::A => RecordTypeWithData::A { address: payload },
        RecordType::CNAME => RecordTypeWithData::CNAME { cname: name_of(1000 + payload as usize) },
    }
}

fn next(state: &mut u64) -> u64 {
    *state = state.wrapping_mul(6364136223846793005).wrapping_add(1442695040888963407);
    *state >> 33
}

fn run(seed: u64, desired: usize, names: usize, steps: usize) {
    let mut state = seed;
    let mut cache = BetterCache::new(desired);
    let mut plain = PlainCache { domains: Vec::new(), desired };
    let mut now: u64 = 0;
    for _ in 0..steps {
        now += 1 + next(&mut state) % 5;
        let name = (next(&mut state) as usize) % names;
        let rtype = if next(&mut state) % 2 == 0 { RecordType::A } else { RecordType::CNAME };
        match next(&mut state) % 8 {
            0..=3 => {
                let payload = (next(&mut state) % 3) as u32;
                let ttl = next(&mut state) % 40;
                let record = ResourceRecord {
                    name: name_of(name),
                    rtype: payload_of(rtype, payload),
                    rclass: RecordClass::IN,
                    ttl,
                };
                cache.insert_at(&record, now);
                plain.insert(name, rtype, payload, ttl, now);
            }
            4..=5 => {
                let qtype =
                    if next(&mut state) % 3 == 0 { QueryType::Wildcard } else { QueryType::Record(rtype) };
                let found = cache.get_at(&name_of(name), &qtype, &QueryClass::Wildcard, now);
                let expected: Vec<ResourceRecord> = plain
                    .get(name, qtype, now)
                    .into_iter()
                    .map(|(rtype, payload, ttl)| ResourceRecord {
                        name: name_of(name),
                        rtype: payload_of(rtype, payload),
                        rclass: RecordClass::IN,
                        ttl,
                    })
                    .collect();
                assert_eq!(found, expected);
            }
            _ => {
                assert_eq!(cache.prune_at(now), plain.prune(now));
            }
        }
        assert_eq!(cache.current_size(), plain.size());
    }
    now += 1;
    assert_eq!(cache.prune_at(now), plain.prune(now));
    for name in 0..names {
        now += 1;
        let found = cache.get_at(&name_of(name), &QueryType::Wildcard, &QueryClass::Wildcard, now);
        assert_eq!(found.len(), plain.get(name, QueryType::Wildcard, now).len());
    }
}

#[test]
fn cache_agrees_with_a_plain_model_small() {
    run(1, 1, 3, 3000);
    run(2, 2, 4, 3000);
}

#[test]
fn cache_agrees_with_a_plain_model_medium() {
    run(3, 5, 12, 5000);
    run(4, 8, 30, 5000);
}

#[test]
fn cache_agrees_with_a_plain_model_large() {
    run(5, 40, 200, 8000);
    run(6, 3, 200, 8000);
}
