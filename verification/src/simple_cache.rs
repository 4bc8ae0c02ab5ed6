//! A cache without a bound: every inserted record is kept under the name it
//! was inserted for, and nothing is ever removed.

use crate::clock::Clock;
use crate::dns::{records_of, DomainName, QueryClass, QueryType, Record, ResourceRecord};
use crate::model::{tuple_of, Name, Tuple};
use crate::slots::{
    Stored, domains_of, lemma_slot_unique, lemma_slots_push, lemma_slots_set, names_distinct,
    taken, taken_by,
};
use crate::records::{expiry_at, tuples_of, CachedRecord};
use vstd::prelude::*;

verus! {

/// The tuples kept under one name.
#[derive(Debug)]
pub struct SimpleEntry {
    name: DomainName,
    tuples: Vec<CachedRecord>,
}

/// An unbounded cache of resource records.
#[derive(Debug)]
pub struct SimpleCache {
    entries: Vec<SimpleEntry>,
    clock: Clock,
}

/// What the entries of the cache stand for: every slot is taken.
pub closed spec fn kept(entries: Seq<SimpleEntry>) -> Seq<Option<Stored<Seq<Tuple>>>> {
    entries.map_values(|entry: SimpleEntry| taken(entry.name@, tuples_of(entry.tuples@)))
}

/// The tuples stored under `name`, in the order they were inserted; none
/// for a name that is not stored.
pub open spec fn stored_under(stored: Map<Name, Seq<Tuple>>, name: Name) -> Seq<Tuple> {
    if stored.contains_key(name) {
        stored[name]
    } else {
        Seq::empty()
    }
}

/// What a lookup at `now` answers from `stored`: a record for every tuple
/// under `name` whose type and class answer the query.
pub open spec fn simple_answers(
    stored: Map<Name, Seq<Tuple>>,
    name: Name,
    qtype: QueryType,
    qclass: QueryClass,
    now: u64,
) -> Seq<Record> {
    stored_under(stored, name).filter(
        |t: Tuple| qtype.admits(t.data.rtype()) && qclass.admits(t.rclass),
    ).map_values(|t: Tuple| t.answer(name, now))
}

/// What is stored after `record` was inserted for `name` at `now`: the
/// tuples under `name` have the new tuple appended. The name inside the
/// record plays no part.
pub open spec fn simple_insert(stored: Map<Name, Seq<Tuple>>, name: Name, record: Record, now: u64) -> Map<
    Name,
    Seq<Tuple>,
> {
    stored.insert(name, stored_under(stored, name).push(tuple_of(record, now)))
}

impl View for SimpleCache {
    type V = Map<Name, Seq<Tuple>>;

    closed spec fn view(&self) -> Map<Name, Seq<Tuple>> {
        domains_of(kept(self.entries@))
    }
}

impl SimpleCache {
    /// No name has two entries.
    pub closed spec fn wf(&self) -> bool {
        names_distinct(kept(self.entries@))
    }

    /// A cache that stores nothing.
    pub fn new() -> (cache: SimpleCache)
        ensures
            cache.wf(),
            cache@ == Map::<Name, Seq<Tuple>>::empty(),
    {
        let cache = SimpleCache { entries: Vec::new(), clock: Clock::new() };
        proof {
            assert forall|name: Name| !cache@.contains_key(name) by {
                if cache@.contains_key(name) {
                    let i = choose|i: int| taken_by(kept(cache.entries@), name, i);
                }
            }
            assert(cache@ =~= Map::<Name, Seq<Tuple>>::empty());
        }
        cache
    }

    /// The entry of `name`, if it has one.
    fn find(&self, name: &DomainName) -> (found: Option<usize>)
        ensures
            match found {
                Some(i) => taken_by(kept(self.entries@), name@, i as int),
                None => !self@.contains_key(name@),
            },
    {
        let mut i: usize = 0;
        while i < self.entries.len()
            invariant
                i <= self.entries.len(),
                forall|k: int| 0 <= k < i ==> !taken_by(kept(self.entries@), name@, k),
            decreases self.entries.len() - i,
        {
            if self.entries[i].name.same_as(name) {
                return Some(i);
            }
            i += 1;
        }
        None
    }

    /// Inserts `rr` for `name` at time `now`: it expires at `now` plus its
    /// time to live, and at the end of the time line where that lies beyond
    /// it.
    pub fn insert_at(&mut self, name: &DomainName, rr: ResourceRecord, now: u64)
        requires
            old(self).wf(),
        ensures
            final(self).wf(),
            final(self)@ == simple_insert(old(self)@, name@, rr@, now),
            final(self)@.contains_key(name@),
            stored_under(final(self)@, name@).len() == stored_under(old(self)@, name@).len() + 1,
    {
        let ghost before = kept(self.entries@);
        let tuple = CachedRecord {
            data: rr.rtype,
            rclass: rr.rclass,
            expires: expiry_at(now, rr.ttl),
        };
        let ghost added = tuple@;
        match self.find(name) {
            Some(i) => {
                proof {
                    lemma_slot_unique(before, name@, i as int);
                }
                let ghost tuples = before[i as int].unwrap().value;
                self.entries[i].tuples.push(tuple);
                proof {
                    assert(tuples_of(self.entries@[i as int].tuples@) =~= tuples.push(added));
                    assert(kept(self.entries@) =~= before.update(
                        i as int,
                        taken(name@, tuples.push(added)),
                    ));
                    lemma_slots_set(before, i as int, name@, tuples.push(added));
                }
            },
            None => {
                let mut tuples: Vec<CachedRecord> = Vec::new();
                tuples.push(tuple);
                self.entries.push(SimpleEntry { name: name.clone(), tuples });
                proof {
                    let first = Seq::<Tuple>::empty().push(added);
                    assert(tuples_of(self.entries@[self.entries@.len() - 1].tuples@) =~= first);
                    assert(kept(self.entries@) =~= before.push(taken(name@, first)));
                    lemma_slots_push(before, name@, first);
                }
            },
        }
    }

    /// Looks up at time `now` the records stored under `name` that answer
    /// a query for `qtype` and `qclass`.
    pub fn get_at(&self, name: &DomainName, qtype: QueryType, qclass: QueryClass, now: u64) -> (out:
        Vec<ResourceRecord>)
        requires
            self.wf(),
        ensures
            records_of(out@) == simple_answers(self@, name@, qtype, qclass, now),
    {
        let mut out: Vec<ResourceRecord> = Vec::new();
        let ghost wanted = |t: Tuple| qtype.admits(t.data.rtype()) && qclass.admits(t.rclass);
        let ghost answer = |t: Tuple| t.answer(name@, now);
        assert(Seq::<Tuple>::empty().filter(wanted) =~= Seq::<Tuple>::empty()) by {
            reveal(Seq::filter);
        }
        match self.find(name) {
            None => {
                assert(records_of(out@) =~= Seq::<Tuple>::empty().filter(wanted).map_values(
                    answer,
                ));
            },
            Some(i) => {
                proof {
                    lemma_slot_unique(kept(self.entries@), name@, i as int);
                }
                let stored = &self.entries[i].tuples;
                let ghost tuples = tuples_of(stored@);
                let mut k: usize = 0;
                assert(tuples.take(0) =~= Seq::<Tuple>::empty());
                assert(records_of(out@) =~= tuples.take(0).filter(wanted).map_values(answer));
                while k < stored.len()
                    invariant
                        k <= stored.len(),
                        tuples == tuples_of(stored@),
                        wanted == |t: Tuple|
                            qtype.admits(t.data.rtype()) && qclass.admits(t.rclass),
                        answer == |t: Tuple| t.answer(name@, now),
                        records_of(out@) == tuples.take(k as int).filter(wanted).map_values(
                            answer,
                        ),
                    decreases stored.len() - k,
                {
                    let tuple = &stored[k];
                    proof {
                        assert(tuples.take(k + 1) =~= tuples.take(k as int).push(tuples[k as int]));
                        tuples.take(k as int).lemma_filter_push(tuples[k as int], wanted);
                        assert(tuples[k as int] == tuple@);
                    }
                    if tuple.data.rtype().matches(&qtype) && tuple.rclass.matches(&qclass) {
                        let ghost sofar = records_of(out@);
                        out.push(tuple.answer(name, now));
                        assert(records_of(out@) =~= sofar.push(answer(tuple@)));
                        assert(records_of(out@) =~= tuples.take(k + 1).filter(
                            wanted,
                        ).map_values(answer));
                    }
                    k += 1;
                }
                assert(tuples.take(tuples.len() as int) =~= tuples);
            },
        }
        out
    }

    /// Inserts `rr` for `name` at the time the cache's clock shows. The
    /// record is stored whatever that time is.
    pub fn insert(&mut self, name: &DomainName, rr: ResourceRecord)
        requires
            old(self).wf(),
        ensures
            final(self).wf(),
            exists|now: u64| final(self)@ == #[trigger] simple_insert(old(self)@, name@, rr@, now),
            final(self)@.contains_key(name@),
            stored_under(final(self)@, name@).len() == stored_under(old(self)@, name@).len() + 1,
    {
        let now = self.clock.now();
        self.insert_at(name, rr, now);
    }

    /// Looks up, at the time the cache's clock shows, the records stored
    /// under `name` that answer a query for `qtype` and `qclass`.
    pub fn get(&self, name: &DomainName, qtype: QueryType, qclass: QueryClass) -> (out: Vec<
        ResourceRecord,
    >)
        requires
            self.wf(),
        ensures
            exists|now: u64|
                records_of(out@) == #[trigger] simple_answers(self@, name@, qtype, qclass, now),
    {
        let now = self.clock.now();
        self.get_at(name, qtype, qclass, now)
    }
}

} // verus!
