//! The bounded cache: a store of records by domain name, an ordering of the
//! domains by the time they were last read, and an ordering by the expiry
//! they are filed under, kept consistent by lookup, insertion and pruning.

use crate::clock::Clock;
use crate::dns::{records_of, DomainName, QueryClass, QueryType, ResourceRecord};
use crate::laws::{lemma_insert_keeps_exact, lemma_prune_keeps_exact, lemma_read_keeps_exact};
use crate::lemmas::{
    lemma_holds_any_expiry, lemma_domain_expire, lemma_evicting_step, lemma_expiring_done, lemma_expiring_step,
    lemma_total_insert, lemma_total_remove,
};
use crate::model::{tuple_of, Cache, Domain, Name};
use crate::queue::{
    queue_change_time, queue_new, queue_pop, queue_push, queue_remove, queue_times, TimeQueue,
};
use crate::records::{expiry_at, CachedDomainRecords, CachedRecord};
use crate::slots::{
    domains_of, lemma_slot_unique, lemma_slots_clear, lemma_slots_push, lemma_slots_set,
    names_distinct, slot_of, taken, taken_by, Slot,
};
use vstd::prelude::*;

verus! {

/// A cache of resource records that `prune` keeps near a desired number
/// of tuples.
///
/// The records of a domain live in a slot; a name is found by comparing
/// it, label by label, with the names in the slots, so nothing rests on a
/// hash of a name. The two orderings hold the numbers of the taken slots,
/// the first filed under the time the domain was last read, the second under
/// the expiry the domain is filed under.
#[derive(Debug)]
pub struct BetterCache {
    slots: Vec<Option<CachedDomainRecords>>,
    access_priority: TimeQueue,
    expiry_priority: TimeQueue,
    current_size: usize,
    desired_size: usize,
    clock: Clock,
}

/// What a slot of the cache stands for.
pub open spec fn slot_of_entry(entry: Option<CachedDomainRecords>) -> Slot {
    match entry {
        Some(records) => taken(records.key(), records@),
        None => None,
    }
}

/// What the slots of the cache stand for.
pub open spec fn slots_of(entries: Seq<Option<CachedDomainRecords>>) -> Seq<Slot> {
    entries.map_values(|entry: Option<CachedDomainRecords>| slot_of_entry(entry))
}

/// An ordering holds exactly the taken slots, each under the time `time_of`
/// gives for its domain.
pub open spec fn filed(slots: Seq<Slot>, times: Map<usize, u64>, time_of: spec_fn(Domain) -> u64) -> bool {
    &&& forall|i: usize| #[trigger]
        times.contains_key(i) <==> i < slots.len() && slots[i as int] is Some
    &&& forall|i: usize| #[trigger]
        times.contains_key(i) ==> times[i] == time_of(slots[i as int].unwrap().value)
}

/// The time a domain is filed under in the ordering by last read.
pub open spec fn by_last_read() -> spec_fn(Domain) -> u64 {
    |domain: Domain| domain.last_read
}

/// The time a domain is filed under in the ordering by expiry.
pub open spec fn by_next_expiry() -> spec_fn(Domain) -> u64 {
    |domain: Domain| domain.next_expiry
}

impl View for BetterCache {
    type V = Cache;

    closed spec fn view(&self) -> Cache {
        Cache { domains: domains_of(slots_of(self.slots@)), desired_size: self.desired_size as nat }
    }
}

impl BetterCache {
    /// The invariant of the cache. The desired size is positive. No name has
    /// two slots, and what a slot holds is well formed. The size that is kept
    /// is the number of tuples in all slots. Each ordering holds exactly the
    /// taken slots, under the time of last read and under the next expiry.
    pub closed spec fn wf(&self) -> bool {
        &&& self.desired_size > 0
        &&& names_distinct(slots_of(self.slots@))
        &&& forall|i: int|
            0 <= i < self.slots@.len() && (#[trigger] self.slots@[i]) is Some
                ==> self.slots@[i].unwrap().wf()
        &&& self@.domains.dom().finite()
        &&& self.current_size == self@.current_size()
        &&& filed(slots_of(self.slots@), queue_times(self.access_priority), by_last_read())
        &&& filed(slots_of(self.slots@), queue_times(self.expiry_priority), by_next_expiry())
    }

    /// A well-formed cache has a well-formed state.
    pub proof fn lemma_wf(&self)
        requires
            self.wf(),
        ensures
            self@.wf(),
    {
        let slots = slots_of(self.slots@);
        assert forall|name: Name| #[trigger] self@.domains.contains_key(name) implies self@.domains[name].wf() by {
            let i = choose|i: int| taken_by(slots, name, i);
            lemma_slot_unique(slots, name, i);
            assert(self.slots@[i].unwrap().wf());
        }
    }

    /// A cache that stores nothing and is pruned down to `desired_size` tuples.
    pub fn new(desired_size: usize) -> (cache: BetterCache)
        requires
            desired_size > 0,
        ensures
            cache.wf(),
            cache@ == Cache::empty(desired_size as nat),
            cache@.current_size() == 0,
            cache@.exact(),
    {
        BetterCache::with_desired_size(desired_size)
    }

    /// A cache that stores nothing and is pruned down to `desired_size` tuples.
    pub fn with_desired_size(desired_size: usize) -> (cache: BetterCache)
        requires
            desired_size > 0,
        ensures
            cache.wf(),
            cache@ == Cache::empty(desired_size as nat),
            cache@.current_size() == 0,
            cache@.exact(),
    {
        let cache = BetterCache {
            slots: Vec::new(),
            access_priority: queue_new(),
            expiry_priority: queue_new(),
            current_size: 0,
            desired_size,
            clock: Clock::new(),
        };
        proof {
            assert(cache@.domains =~= Map::<Name, Domain>::empty()) by {
                assert forall|name: Name| !cache@.domains.contains_key(name) by {
                    if cache@.domains.contains_key(name) {
                        let i = choose|i: int| taken_by(slots_of(cache.slots@), name, i);
                    }
                }
            }
            assert(queue_times(cache.access_priority) =~= Map::<usize, u64>::empty());
            assert(queue_times(cache.expiry_priority) =~= Map::<usize, u64>::empty());
        }
        cache
    }

    /// The number of tuples in the cache.
    pub fn current_size(&self) -> (n: usize)
        requires
            self.wf(),
        ensures
            n == self@.current_size(),
    {
        self.current_size
    }

    /// The number of tuples that pruning brings the cache down to.
    pub fn desired_size(&self) -> (n: usize)
        ensures
            n == self@.desired_size,
    {
        self.desired_size
    }

    /// The slot that is taken by `name`, if it is stored.
    fn find(&self, name: &DomainName) -> (found: Option<usize>)
        ensures
            match found {
                Some(i) => taken_by(slots_of(self.slots@), name@, i as int),
                None => !self@.domains.contains_key(name@),
            },
    {
        let mut i: usize = 0;
        while i < self.slots.len()
            invariant
                i <= self.slots.len(),
                forall|k: int| 0 <= k < i ==> !taken_by(slots_of(self.slots@), name@, k),
            decreases self.slots.len() - i,
        {
            match &self.slots[i] {
                Some(records) => {
                    if records.name().same_as(name) {
                        return Some(i);
                    }
                },
                None => {},
            }
            i += 1;
        }
        None
    }

    /// The first slot that is free, if there is one.
    fn free_slot(&self) -> (found: Option<usize>)
        ensures
            match found {
                Some(i) => i < self.slots@.len() && self.slots@[i as int] is None && forall|k: int|
                    0 <= k < i ==> self.slots@[k] is Some,
                None => forall|k: int| 0 <= k < self.slots@.len() ==> self.slots@[k] is Some,
            },
    {
        let mut i: usize = 0;
        while i < self.slots.len()
            invariant
                i <= self.slots.len(),
                forall|k: int| 0 <= k < i ==> self.slots@[k] is Some,
            decreases self.slots.len() - i,
        {
            if self.slots[i].is_none() {
                return Some(i);
            }
            i += 1;
        }
        None
    }

    /// Looks up at time `now` the records stored under `name` that answer
    /// a query for `qtype` and `qclass`. A lookup with a result marks the
    /// domain as read at `now`.
    pub fn get_at(&mut self, name: &DomainName, qtype: &QueryType, qclass: &QueryClass, now: u64) -> (out:
        Vec<ResourceRecord>)
        requires
            old(self).wf(),
        ensures
            final(self).wf(),
            records_of(out@) == old(self)@.answers(name@, *qtype, *qclass, now),
            final(self)@ == old(self)@.read(name@, *qtype, *qclass, now),
            final(self)@.current_size() == old(self)@.current_size(),
            old(self)@.exact() ==> final(self)@.exact(),
    {
        let ghost before = slots_of(self.slots@);
        proof {
            if self@.exact() {
                lemma_read_keeps_exact(self@, name@, *qtype, *qclass, now);
            }
        }
        match self.find(name) {
            None => Vec::new(),
            Some(i) => {
                proof {
                    lemma_slot_unique(before, name@, i as int);
                }
                let mut out: Vec<ResourceRecord> = Vec::new();
                match &mut self.slots[i] {
                    Some(records) => {
                        out = records.answers(qtype, qclass, now);
                        if out.len() > 0 {
                            records.touch(now);
                        }
                    },
                    None => {},
                }
                if out.len() > 0 {
                    queue_change_time(&mut self.access_priority, i, now);
                    proof {
                        let domain = before[i as int].unwrap().value;
                        assert(slots_of(self.slots@) =~= before.update(
                            i as int,
                            taken(name@, domain.touch(now)),
                        ));
                        lemma_slots_set(before, i as int, name@, domain.touch(now));
                        lemma_total_insert(domains_of(before), name@, domain.touch(now));
                    }
                } else {
                    assert(slots_of(self.slots@) =~= before);
                }
                out
            },
        }
    }
}

impl BetterCache {
    /// Under no name are there more tuples than in the whole cache.
    proof fn lemma_count_bound(&self, i: int)
        requires
            self@.domains.dom().finite(),
            names_distinct(slots_of(self.slots@)),
            0 <= i < self.slots@.len(),
            self.slots@[i] is Some,
        ensures
            self.slots@[i].unwrap()@.count() <= self@.current_size(),
            self@.domains.contains_key(self.slots@[i].unwrap().key()),
            self@.domains[self.slots@[i].unwrap().key()] == self.slots@[i].unwrap()@,
    {
        let slots = slots_of(self.slots@);
        let name = self.slots@[i].unwrap().key();
        assert(taken_by(slots, name, i));
        lemma_slot_unique(slots, name, i);
        lemma_total_remove(self@.domains, name);
    }

    /// Inserts `record` at time `now`: it expires at `now` plus its time to
    /// live, and at the end of the time line where that lies beyond it. A
    /// record that is already stored under its name has its expiry replaced;
    /// any other adds a tuple. Either way the domain counts as read at `now`.
    pub fn insert_at(&mut self, record: &ResourceRecord, now: u64)
        requires
            old(self).wf(),
            old(self)@.current_size() < usize::MAX,
        ensures
            final(self).wf(),
            final(self)@ == old(self)@.insert(record@, now),
            final(self)@.domains.contains_key(record.name@),
            final(self)@.current_size() == old(self)@.current_size() + if old(self)@.stores(
                record@,
            ) {
                0nat
            } else {
                1nat
            },
            old(self)@.exact() && !old(self)@.rescan_falls_short(record@, now)
                ==> final(self)@.exact(),
    {
        let ghost before = slots_of(self.slots@);
        let ghost name = record.name@;
        proof {
            self.lemma_wf();
            if self@.exact() && !self@.rescan_falls_short(record@, now) {
                lemma_insert_keeps_exact(self@, record@, now);
            }
        }
        let ghost added = tuple_of(record@, now);
        proof {
            if self@.domains.contains_key(name) {
                lemma_holds_any_expiry(self@.domains[name], added, tuple_of(record@, 0));
            }
        }
        let expiry: u64 = expiry_at(now, record.ttl);
        let tuple = CachedRecord { data: record.rtype.clone(), rclass: record.rclass, expires: expiry };
        match self.find(&record.name) {
            Some(i) => {
                proof {
                    lemma_slot_unique(before, name, i as int);
                    self.lemma_count_bound(i as int);
                }
                let mut grew = false;
                let mut next: u64 = 0;
                match &mut self.slots[i] {
                    Some(records) => {
                        grew = records.insert(tuple, now);
                        next = records.next_expiry();
                    },
                    None => {},
                }
                queue_change_time(&mut self.access_priority, i, now);
                queue_change_time(&mut self.expiry_priority, i, next);
                if grew {
                    self.current_size += 1;
                }
                proof {
                    let domain = before[i as int].unwrap().value;
                    assert(slots_of(self.slots@) =~= before.update(
                        i as int,
                        taken(name, domain.insert(added, now)),
                    ));
                    lemma_slots_set(before, i as int, name, domain.insert(added, now));
                    lemma_total_insert(domains_of(before), name, domain.insert(added, now));
                }
            },
            None => {
                let records = CachedDomainRecords::first(record.name.clone(), tuple, now);
                let i = match self.free_slot() {
                    Some(i) => {
                        self.slots[i] = Some(records);
                        proof {
                            assert(slots_of(self.slots@) =~= before.update(
                                i as int,
                                taken(name, Domain::single(added, now)),
                            ));
                            lemma_slots_set(before, i as int, name, Domain::single(added, now));
                        }
                        i
                    },
                    None => {
                        self.slots.push(Some(records));
                        proof {
                            assert(slots_of(self.slots@) =~= before.push(
                                taken(name, Domain::single(added, now)),
                            ));
                            lemma_slots_push(before, name, Domain::single(added, now));
                        }
                        self.slots.len() - 1
                    },
                };
                queue_push(&mut self.access_priority, i, now);
                queue_push(&mut self.expiry_priority, i, expiry);
                self.current_size += 1;
                proof {
                    lemma_total_insert(domains_of(before), name, Domain::single(added, now));
                }
            },
        }
    }
}

impl BetterCache {
    /// One step of the expiry pass at `now`. The domain that is filed under
    /// the earliest expiry is taken from the expiry ordering. If that expiry
    /// is in the future, the domain is put back and nothing has changed.
    /// Else the domain loses its expired tuples; it is filed again if a
    /// tuple is left, and deleted if none is. Returns the number of tuples
    /// dropped, with the name of the domain that lost them.
    fn remove_expired_step(&mut self, now: u64) -> (pruned: (usize, Ghost<Name>))
        requires
            old(self).wf(),
        ensures
            final(self).wf(),
            final(self)@.desired_size == old(self)@.desired_size,
            pruned.0 + final(self)@.current_size() == old(self)@.current_size(),
            pruned.0 == 0 ==> final(self)@ == old(self)@ && forall|name: Name| #[trigger]
                old(self)@.domains.contains_key(name) ==> old(self)@.domains[name].next_expiry
                    > now,
            pruned.0 > 0 ==> {
                &&& old(self)@.domains.contains_key(pruned.1@)
                &&& old(self)@.domains[pruned.1@].next_expiry <= now
                &&& forall|other: Name| #[trigger]
                    old(self)@.domains.contains_key(other) ==> old(self)@.domains[pruned.1@].next_expiry
                        <= old(self)@.domains[other].next_expiry
                &&& pruned.0 + old(self)@.domains[pruned.1@].expire(now).count()
                    == old(self)@.domains[pruned.1@].count()
                &&& final(self)@.domains == if old(self)@.domains[pruned.1@].expire(now).count()
                    > 0 {
                    old(self)@.domains.insert(
                        pruned.1@,
                        old(self)@.domains[pruned.1@].expire(now),
                    )
                } else {
                    old(self)@.domains.remove(pruned.1@)
                }
            },
    {
        let ghost before = slots_of(self.slots@);
        let ghost times = queue_times(self.expiry_priority);
        assert(self.slots.len() == self.slots@.len());
        match queue_pop(&mut self.expiry_priority) {
            None => {
                proof {
                    assert forall|name: Name| !self@.domains.contains_key(name) by {
                        if self@.domains.contains_key(name) {
                            let i = choose|i: int| taken_by(before, name, i);
                            assert(times.contains_key(i as usize));
                        }
                    }
                }
                (0, Ghost(Seq::empty()))
            },
            Some((i, expiry)) => {
                if expiry > now {
                    queue_push(&mut self.expiry_priority, i, expiry);
                    proof {
                        assert(queue_times(self.expiry_priority) =~= times);
                        assert forall|name: Name| #[trigger]
                            self@.domains.contains_key(name) implies self@.domains[name].next_expiry
                            > now by {
                            let j = choose|j: int| taken_by(before, name, j);
                            lemma_slot_unique(before, name, j);
                            assert(times.contains_key(j as usize));
                        }
                    }
                    return (0, Ghost(Seq::empty()));
                }
                let ghost name = before[i as int].unwrap().name;
                let ghost domain = before[i as int].unwrap().value;
                proof {
                    self.lemma_count_bound(i as int);
                    assert(self.slots@[i as int].unwrap().wf());
                    lemma_domain_expire(domain, now);
                    assert forall|other: Name| #[trigger]
                        self@.domains.contains_key(other) implies self@.domains[name].next_expiry
                        <= self@.domains[other].next_expiry by {
                        let j = choose|j: int| taken_by(before, other, j);
                        lemma_slot_unique(before, other, j);
                        assert(times.contains_key(j as usize));
                    }
                }
                let mut pruned: usize = 0;
                let mut left: usize = 0;
                let mut next: u64 = 0;
                match &mut self.slots[i] {
                    Some(records) => {
                        pruned = records.expire(now);
                        left = records.size();
                        next = records.next_expiry();
                    },
                    None => {},
                }
                if left > 0 {
                    queue_push(&mut self.expiry_priority, i, next);
                    proof {
                        assert(slots_of(self.slots@) =~= before.update(
                            i as int,
                            taken(name, domain.expire(now)),
                        ));
                        lemma_slots_set(before, i as int, name, domain.expire(now));
                        lemma_total_insert(domains_of(before), name, domain.expire(now));
                    }
                } else {
                    self.slots[i] = None;
                    queue_remove(&mut self.access_priority, i);
                    proof {
                        assert(slots_of(self.slots@) =~= before.update(i as int, None));
                        lemma_slots_clear(before, i as int);
                        lemma_total_remove(domains_of(before), name);
                    }
                }
                self.current_size -= pruned;
                (pruned, Ghost(name))
            },
        }
    }

    /// The expiry pass at `now`: steps until one finds nothing that is due.
    /// Returns the number of tuples dropped.
    fn remove_expired(&mut self, now: u64) -> (pruned: usize)
        requires
            old(self).wf(),
        ensures
            final(self).wf(),
            final(self)@ == old(self)@.expired(now),
            pruned + final(self)@.current_size() == old(self)@.current_size(),
    {
        let ghost start = self@;
        let mut pruned: usize = 0;
        proof {
            self.lemma_wf();
        }
        loop
            invariant_except_break
                pruned + self@.current_size() == start.current_size(),
                start.expiring(now, self@),
            invariant
                self.wf(),
                start.wf(),
                start.current_size() <= usize::MAX,
            ensures
                self@ == start.expired(now),
                pruned + self@.current_size() == start.current_size(),
            decreases self@.current_size(),
        {
            proof {
                self.lemma_wf();
            }
            let ghost mid = self@;
            let (step, Ghost(name)) = self.remove_expired_step(now);
            if step == 0 {
                proof {
                    lemma_expiring_done(start, now, mid);
                }
                break ;
            }
            pruned += step;
            proof {
                self.lemma_wf();
                lemma_expiring_step(start, now, mid, self@, name);
            }
        }
        pruned
    }

    /// One step of the eviction pass: the domain that was read least
    /// recently is deleted with all its tuples. Returns their number, with
    /// the name of the domain. A cache that stores nothing is left as it
    /// is, and the number is 0.
    fn remove_least_recently_used(&mut self) -> (pruned: (usize, Ghost<Name>))
        requires
            old(self).wf(),
        ensures
            final(self).wf(),
            final(self)@.desired_size == old(self)@.desired_size,
            pruned.0 + final(self)@.current_size() == old(self)@.current_size(),
            old(self)@.current_size() > 0 ==> pruned.0 > 0,
            pruned.0 == 0 ==> final(self)@ == old(self)@ && forall|name: Name|
                !(#[trigger] old(self)@.domains.contains_key(name)),
            pruned.0 > 0 ==> {
                &&& old(self)@.domains.contains_key(pruned.1@)
                &&& final(self)@.domains == old(self)@.domains.remove(pruned.1@)
                &&& pruned.0 == old(self)@.domains[pruned.1@].count()
                &&& forall|other: Name| #[trigger]
                    old(self)@.domains.contains_key(other) ==> old(self)@.domains[pruned.1@].last_read
                        <= old(self)@.domains[other].last_read
            },
    {
        let ghost before = slots_of(self.slots@);
        let ghost times = queue_times(self.access_priority);
        assert(self.slots.len() == self.slots@.len());
        match queue_pop(&mut self.access_priority) {
            Some((i, _)) => {
                let ghost name = before[i as int].unwrap().name;
                proof {
                    self.lemma_count_bound(i as int);
                    assert(self.slots@[i as int].unwrap().wf());
                    assert forall|other: Name| #[trigger]
                        self@.domains.contains_key(other) implies self@.domains[name].last_read
                        <= self@.domains[other].last_read by {
                        let j = choose|j: int| taken_by(before, other, j);
                        lemma_slot_unique(before, other, j);
                        assert(times.contains_key(j as usize));
                    }
                }
                queue_remove(&mut self.expiry_priority, i);
                let size = match &self.slots[i] {
                    Some(records) => records.size(),
                    None => 0,
                };
                self.slots[i] = None;
                self.current_size -= size;
                proof {
                    assert(slots_of(self.slots@) =~= before.update(i as int, None));
                    lemma_slots_clear(before, i as int);
                    lemma_total_remove(domains_of(before), name);
                }
                (size, Ghost(name))
            },
            None => {
                proof {
                    assert forall|name: Name| !self@.domains.contains_key(name) by {
                        if self@.domains.contains_key(name) {
                            let i = choose|i: int| taken_by(before, name, i);
                            assert(times.contains_key(i as usize));
                        }
                    }
                    assert(self@.domains.dom() =~= Set::<Name>::empty());
                }
                (0, Ghost(Seq::empty()))
            },
        }
    }

    /// Prunes at time `now`. While the size is within the desired size
    /// nothing happens. Else every domain that is filed under an expiry not
    /// in the future loses its expired tuples; then, while the size is still
    /// above the desired size, the domain read least recently is deleted.
    /// Returns the number of tuples removed.
    pub fn prune_at(&mut self, now: u64) -> (pruned: usize)
        requires
            old(self).wf(),
        ensures
            final(self).wf(),
            old(self)@.pruned(now, final(self)@),
            pruned + final(self)@.current_size() == old(self)@.current_size(),
            final(self)@.desired_size == old(self)@.desired_size,
            final(self)@.current_size() <= old(self)@.desired_size,
            old(self)@.exact() ==> final(self)@.exact(),
    {
        if self.current_size <= self.desired_size {
            return 0;
        }
        proof {
            self.lemma_wf();
        }
        let mut pruned = self.remove_expired(now);
        let ghost swept = self@;
        let ghost mut last: Name = Seq::empty();
        while self.current_size > self.desired_size
            invariant
                self.wf(),
                swept.evicting(self@, last),
                swept.desired_size == self.desired_size,
                old(self)@.current_size() <= usize::MAX,
                pruned + self@.current_size() == old(self)@.current_size(),
            decreases self@.current_size(),
        {
            let ghost mid = self@;
            let (size, Ghost(name)) = self.remove_least_recently_used();
            proof {
                lemma_evicting_step(swept, mid, last, self@, name);
                last = name;
            }
            pruned += size;
        }
        proof {
            if old(self)@.exact() {
                lemma_prune_keeps_exact(old(self)@, now, self@);
            }
        }
        pruned
    }

    /// Looks up, at the time the cache's clock shows, the records stored
    /// under `name` that answer a query for `qtype` and `qclass`.
    pub fn get(&mut self, name: &DomainName, qtype: &QueryType, qclass: &QueryClass) -> (out: Vec<
        ResourceRecord,
    >)
        requires
            old(self).wf(),
        ensures
            final(self).wf(),
            exists|now: u64|
                records_of(out@) == #[trigger] old(self)@.answers(name@, *qtype, *qclass, now)
                    && final(self)@ == old(self)@.read(name@, *qtype, *qclass, now),
            final(self)@.desired_size == old(self)@.desired_size,
            final(self)@.current_size() == old(self)@.current_size(),
            old(self)@.exact() ==> final(self)@.exact(),
    {
        let now = self.clock.now();
        self.get_at(name, qtype, qclass, now)
    }

    /// Inserts `record` at the time the cache's clock shows. The record is
    /// stored whatever that time is.
    pub fn insert(&mut self, record: &ResourceRecord)
        requires
            old(self).wf(),
            old(self)@.current_size() < usize::MAX,
        ensures
            final(self).wf(),
            exists|now: u64| final(self)@ == #[trigger] old(self)@.insert(record@, now),
            final(self)@.domains.contains_key(record.name@),
            final(self)@.desired_size == old(self)@.desired_size,
            final(self)@.current_size() == old(self)@.current_size() + if old(self)@.stores(
                record@,
            ) {
                0nat
            } else {
                1nat
            },
    {
        let now = self.clock.now();
        self.insert_at(record, now);
    }

    /// Prunes at the time the cache's clock shows. Returns the number of
    /// tuples removed.
    pub fn prune(&mut self) -> (pruned: usize)
        requires
            old(self).wf(),
        ensures
            final(self).wf(),
            exists|now: u64| #[trigger] old(self)@.pruned(now, final(self)@),
            pruned + final(self)@.current_size() == old(self)@.current_size(),
            final(self)@.desired_size == old(self)@.desired_size,
            final(self)@.current_size() <= old(self)@.desired_size,
            old(self)@.exact() ==> final(self)@.exact(),
    {
        let now = self.clock.now();
        self.prune_at(now)
    }
}

/// The names an ordering holds, each with the time it is filed under.
pub open spec fn order_of(slots: Seq<Slot>, times: Map<usize, u64>) -> Map<Name, u64> {
    Map::new(
        |name: Name| exists|i: int| taken_by(slots, name, i) && times.contains_key(i as usize),
        |name: Name| times[slot_of(slots, name) as usize],
    )
}

impl BetterCache {
    /// The size that the cache keeps count of.
    pub closed spec fn kept_size(&self) -> nat {
        self.current_size as nat
    }

    /// The tuple count that the cache keeps for each name.
    pub closed spec fn sizes(&self) -> Map<Name, nat> {
        Map::new(
            |name: Name| exists|i: int| taken_by(slots_of(self.slots@), name, i),
            |name: Name| self.slots@[slot_of(slots_of(self.slots@), name)].unwrap().tally(),
        )
    }

    /// The ordering by last read: its names, each with the time it is filed
    /// under.
    pub closed spec fn access_order(&self) -> Map<Name, u64> {
        order_of(slots_of(self.slots@), queue_times(self.access_priority))
    }

    /// The ordering by expiry: its names, each with the time it is filed
    /// under.
    pub closed spec fn expiry_order(&self) -> Map<Name, u64> {
        order_of(slots_of(self.slots@), queue_times(self.expiry_priority))
    }

    /// What the invariant says of the three structures. For every name that
    /// is stored, the size kept for it is the number of its tuples, and the
    /// name is in both orderings, filed under the time it was last read and
    /// under its next expiry, which is the expiry of one of its tuples; the
    /// orderings hold no other name. The size kept for the cache is the sum
    /// of the sizes.
    pub proof fn lemma_invariant(&self)
        requires
            self.wf(),
        ensures
            self@.wf(),
            self.kept_size() == self@.current_size(),
            self.sizes() == self@.domains.map_values(|domain: Domain| domain.count()),
            self.access_order() == self@.domains.map_values(|domain: Domain| domain.last_read),
            self.expiry_order() == self@.domains.map_values(|domain: Domain| domain.next_expiry),
    {
        self.lemma_wf();
        let slots = slots_of(self.slots@);
        assert(self.slots.len() == self.slots@.len());
        assert forall|name: Name| #[trigger] self@.domains.contains_key(name) implies {
            &&& self.sizes()[name] == self@.domains[name].count()
            &&& self.access_order().contains_key(name)
            &&& self.access_order()[name] == self@.domains[name].last_read
            &&& self.expiry_order().contains_key(name)
            &&& self.expiry_order()[name] == self@.domains[name].next_expiry
        } by {
            let i = choose|i: int| taken_by(slots, name, i);
            lemma_slot_unique(slots, name, i);
            assert(self.slots@[i].unwrap().wf());
            assert(queue_times(self.access_priority).contains_key(i as usize));
            assert(queue_times(self.expiry_priority).contains_key(i as usize));
        }
        assert(self.sizes() =~= self@.domains.map_values(|domain: Domain| domain.count()));
        assert(self.access_order() =~= self@.domains.map_values(
            |domain: Domain| domain.last_read,
        ));
        assert(self.expiry_order() =~= self@.domains.map_values(
            |domain: Domain| domain.next_expiry,
        ));
    }
}

} // verus!
