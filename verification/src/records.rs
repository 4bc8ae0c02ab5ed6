//! What a cache stores under one domain name: the tuples, grouped by record
//! type, with the bookkeeping the cache's orderings rest on.

use crate::dns::{
    records_of, DomainName, QueryClass, QueryType, Record, RecordClass, RecordType,
    RecordTypeWithData, ResourceRecord,
};
use crate::lemmas::{
    lemma_count_prefix, lemma_count_take, lemma_domain_expire, lemma_domain_insert,
    lemma_domain_single, lemma_earliest_push, lemma_earliest_push_empty, lemma_earliest_unique,
    lemma_group_expire, lemma_group_index_unique, lemma_group_insert, lemma_position_unique,
};
use crate::model::{count_tuples, earliest, expiry, is_earliest, Domain, Group, Name, Tuple};
use vstd::prelude::*;

verus! {

/// One cached record: its payload, its class, and the time at which it
/// expires.
#[derive(Debug)]
pub struct CachedRecord {
    pub data: RecordTypeWithData,
    pub rclass: RecordClass,
    pub expires: u64,
}

impl View for CachedRecord {
    type V = Tuple;

    open spec fn view(&self) -> Tuple {
        Tuple { data: self.data@, rclass: self.rclass, expires: self.expires }
    }
}

/// The tuples that a sequence of cached records stands for.
pub open spec fn tuples_of(records: Seq<CachedRecord>) -> Seq<Tuple> {
    records.map_values(|r: CachedRecord| r@)
}

/// When a record with time to live `ttl` that is inserted at `now` expires.
pub fn expiry_at(now: u64, ttl: u64) -> (expires: u64)
    ensures
        expires == expiry(now, ttl),
{
    if ttl <= u64::MAX - now {
        now + ttl
    } else {
        u64::MAX
    }
}

impl CachedRecord {
    /// The resource record that a lookup at `now` hands out for this tuple
    /// under `name`.
    pub fn answer(&self, name: &DomainName, now: u64) -> (record: ResourceRecord)
        ensures
            record@ == self@.answer(name@, now),
    {
        let ttl: u64 = if self.expires > now {
            self.expires - now
        } else {
            0
        };
        ResourceRecord { name: name.clone(), rtype: self.data.clone(), rclass: self.rclass, ttl }
    }
}

/// The tuples of one record type.
#[derive(Debug)]
pub struct RecordGroup {
    rtype: RecordType,
    tuples: Vec<CachedRecord>,
}

impl View for RecordGroup {
    type V = Group;

    closed spec fn view(&self) -> Group {
        Group { rtype: self.rtype, tuples: tuples_of(self.tuples@) }
    }
}

impl RecordGroup {
    /// A group that holds one tuple.
    fn single(tuple: CachedRecord) -> (group: RecordGroup)
        ensures
            group@ == (Group { rtype: tuple@.data.rtype(), tuples: seq![tuple@] }),
    {
        let rtype = tuple.data.rtype();
        let mut tuples: Vec<CachedRecord> = Vec::new();
        tuples.push(tuple);
        let group = RecordGroup { rtype, tuples };
        assert(group@.tuples =~= seq![tuple@]);
        group
    }

    /// Where the group holds the record of `tuple`, if it does.
    fn position(&self, tuple: &CachedRecord) -> (found: Option<usize>)
        ensures
            match found {
                Some(i) => self@.holds_at(tuple@, i as int),
                None => !self@.holds(tuple@),
            },
    {
        let mut i: usize = 0;
        while i < self.tuples.len()
            invariant
                i <= self.tuples.len(),
                forall|k: int| 0 <= k < i ==> !self@.holds_at(tuple@, k),
            decreases self.tuples.len() - i,
        {
            let stored = &self.tuples[i];
            if stored.data.same_as(&tuple.data) && stored.rclass == tuple.rclass {
                return Some(i);
            }
            i += 1;
        }
        None
    }

    /// Stores `tuple`, in place of the tuple of the same record if there is
    /// one; returns the expiry of the tuple that was replaced.
    fn insert(&mut self, tuple: CachedRecord) -> (replaced: Option<u64>)
        requires
            old(self)@.wf(),
            tuple@.data.rtype() == old(self)@.rtype,
        ensures
            final(self)@ == old(self)@.insert(tuple@),
            final(self)@.wf(),
            replaced == if old(self)@.holds(tuple@) {
                Some(old(self)@.tuples[old(self)@.position(tuple@)].expires)
            } else {
                None::<u64>
            },
    {
        let found = self.position(&tuple);
        let replaced = match found {
            Some(i) => {
                proof {
                    lemma_position_unique(self@, tuple@, i as int);
                }
                let stored = self.tuples.swap_remove(i);
                Some(stored.expires)
            },
            None => None,
        };
        self.tuples.push(tuple);
        proof {
            assert(self@.tuples =~= old(self)@.insert(tuple@).tuples);
            lemma_group_insert(old(self)@, tuple@);
        }
        replaced
    }

    /// The earliest expiry among the tuples of this group alone.
    fn earliest(&self) -> (t: u64)
        requires
            self@.tuples.len() > 0,
        ensures
            is_earliest(seq![self@], t),
    {
        let mut t: u64 = self.tuples[0].expires;
        let mut i: usize = 1;
        let ghost mut at: int = 0;
        while i < self.tuples.len()
            invariant
                1 <= i <= self.tuples.len(),
                0 <= at < i,
                self@.tuples[at].expires == t,
                forall|k: int| 0 <= k < i ==> (#[trigger] self@.tuples[k]).expires >= t,
            decreases self.tuples.len() - i,
        {
            if self.tuples[i].expires < t {
                t = self.tuples[i].expires;
                proof {
                    at = i as int;
                }
            }
            i += 1;
        }
        proof {
            let groups = seq![self@];
            assert(groups[0].tuples[at].expires == t);
        }
        t
    }

    /// Drops the tuples that have expired at `now`; returns how many.
    fn expire(&mut self, now: u64) -> (pruned: usize)
        requires
            old(self)@.wf(),
        ensures
            final(self)@ == old(self)@.expire(now),
            final(self)@.wf(),
            pruned == old(self)@.tuples.len() - final(self)@.tuples.len(),
    {
        let mut stale: Vec<CachedRecord> = Vec::new();
        core::mem::swap(&mut stale, &mut self.tuples);
        let ghost before = tuples_of(stale@);
        let total: usize = stale.len();
        let ghost live = |t: Tuple| t.live(now);
        let mut pruned: usize = 0;
        for tuple in it: stale
            invariant
                self.rtype == old(self).rtype,
                live == |t: Tuple| t.live(now),
                before.len() == total,
                tuples_of(it.seq()) == before,
                tuples_of(self.tuples@) == before.take(it.index() as int).filter(live),
                pruned + self.tuples.len() == it.index(),
        {
            proof {
                let k = it.index() as int;
                assert(before.take(k + 1) =~= before.take(k).push(before[k]));
                before.take(k).lemma_filter_push(before[k], live);
                assert(before[k] == tuple@);
            }
            if tuple.expires > now {
                self.tuples.push(tuple);
                assert(tuples_of(self.tuples@) =~= before.take(it.index() as int).filter(live).push(
                    tuple@,
                ));
            } else {
                pruned += 1;
            }
        }
        proof {
            assert(before.take(before.len() as int) =~= before);
            lemma_group_expire(old(self)@, now);
        }
        pruned
    }

    /// Appends to `out` what this group answers to a lookup at `now`.
    fn answers(
        &self,
        name: &DomainName,
        qtype: &QueryType,
        qclass: &QueryClass,
        now: u64,
        out: &mut Vec<ResourceRecord>,
    )
        ensures
            records_of(final(out)@) == records_of(old(out)@) + self@.answers(
                name@,
                *qtype,
                *qclass,
                now,
            ),
    {
        if !self.rtype.matches(qtype) {
            assert(records_of(out@) =~= records_of(out@) + Seq::<Record>::empty());
            return ;
        }
        let ghost wanted = |t: Tuple| qclass.admits(t.rclass);
        let ghost answer = |t: Tuple| t.answer(name@, now);
        let ghost tuples = self@.tuples;
        let mut i: usize = 0;
        assert(tuples.take(0) =~= Seq::<Tuple>::empty());
        assert(Seq::<Tuple>::empty().filter(wanted) =~= Seq::<Tuple>::empty()) by {
            reveal(Seq::filter);
        }
        assert(records_of(out@) =~= records_of(old(out)@) + tuples.take(0).filter(
            wanted,
        ).map_values(answer));
        while i < self.tuples.len()
            invariant
                i <= self.tuples.len(),
                tuples == self@.tuples,
                wanted == |t: Tuple| qclass.admits(t.rclass),
                answer == |t: Tuple| t.answer(name@, now),
                records_of(out@) == records_of(old(out)@) + tuples.take(i as int).filter(
                    wanted,
                ).map_values(answer),
            decreases self.tuples.len() - i,
        {
            let stored = &self.tuples[i];
            proof {
                assert(tuples.take(i + 1) =~= tuples.take(i as int).push(tuples[i as int]));
                tuples.take(i as int).lemma_filter_push(tuples[i as int], wanted);
                assert(tuples[i as int] == stored@);
            }
            if stored.rclass.matches(qclass) {
                let ghost sofar = records_of(out@);
                out.push(stored.answer(name, now));
                assert(records_of(out@) =~= sofar.push(answer(stored@)));
                assert(records_of(out@) =~= records_of(old(out)@) + tuples.take(i + 1).filter(
                    wanted,
                ).map_values(answer));
            }
            i += 1;
        }
        assert(tuples.take(tuples.len() as int) =~= tuples);
    }
}

/// The groups that a sequence of record groups stands for.
pub open spec fn groups_of(records: Seq<RecordGroup>) -> Seq<Group> {
    records.map_values(|g: RecordGroup| g@)
}

/// All that a cache stores under one domain name.
#[derive(Debug)]
pub struct CachedDomainRecords {
    name: DomainName,
    last_read: u64,
    next_expiry: u64,
    size: usize,
    records: Vec<RecordGroup>,
}

impl View for CachedDomainRecords {
    type V = Domain;

    closed spec fn view(&self) -> Domain {
        Domain {
            last_read: self.last_read,
            next_expiry: self.next_expiry,
            groups: groups_of(self.records@),
        }
    }
}

impl CachedDomainRecords {
    /// The domain name that the records are stored under.
    pub closed spec fn key(&self) -> Name {
        self.name@
    }

    /// The tuple count that is kept beside the tuples.
    pub closed spec fn tally(&self) -> nat {
        self.size as nat
    }

    /// The stored domain is well formed and the count kept beside the tuples
    /// is the number of tuples.
    pub open spec fn wf(&self) -> bool {
        self@.wf() && self.tally() == self@.count()
    }

    /// The domain name that the records are stored under.
    pub fn name(&self) -> (name: &DomainName)
        ensures
            name@ == self.key(),
    {
        &self.name
    }

    /// When the domain was last read with a result, or written.
    pub fn last_read(&self) -> (t: u64)
        ensures
            t == self@.last_read,
    {
        self.last_read
    }

    /// The expiry the domain is filed under.
    pub fn next_expiry(&self) -> (t: u64)
        ensures
            t == self@.next_expiry,
    {
        self.next_expiry
    }

    /// The number of tuples stored under the domain.
    pub fn size(&self) -> (n: usize)
        ensures
            n == self.tally(),
    {
        self.size
    }

    /// The records of a domain whose first tuple is written at `now`.
    pub fn first(name: DomainName, tuple: CachedRecord, now: u64) -> (entry: CachedDomainRecords)
        ensures
            entry@ == Domain::single(tuple@, now),
            entry.key() == name@,
            entry.tally() == 1,
            entry.wf(),
    {
        let next_expiry = tuple.expires;
        let mut records: Vec<RecordGroup> = Vec::new();
        records.push(RecordGroup::single(tuple));
        let entry = CachedDomainRecords { name, last_read: now, next_expiry, size: 1, records };
        proof {
            assert(entry@.groups =~= Domain::single(tuple@, now).groups);
            lemma_domain_single(tuple@, now);
        }
        entry
    }

    /// Where the group of type `rtype` is, if there is one.
    fn group_index(&self, rtype: RecordType) -> (found: Option<usize>)
        ensures
            match found {
                Some(g) => self@.group_at(rtype, g as int),
                None => !self@.has_group(rtype),
            },
    {
        let mut g: usize = 0;
        while g < self.records.len()
            invariant
                g <= self.records.len(),
                forall|k: int| 0 <= k < g ==> !self@.group_at(rtype, k),
            decreases self.records.len() - g,
        {
            if self.records[g].rtype == rtype {
                return Some(g);
            }
            g += 1;
        }
        None
    }

    /// Stores `tuple` at `now`; returns whether the tuple count grew, which
    /// it does unless the record was already stored.
    pub fn insert(&mut self, tuple: CachedRecord, now: u64) -> (grew: bool)
        requires
            old(self).wf(),
            old(self).tally() < usize::MAX,
        ensures
            final(self)@ == old(self)@.insert(tuple@, now),
            final(self).wf(),
            final(self).key() == old(self).key(),
            grew == !old(self)@.holds(tuple@),
            final(self).tally() == old(self).tally() + if grew {
                1nat
            } else {
                0nat
            },
    {
        let rtype = tuple.data.rtype();
        let expiry = tuple.expires;
        let ghost before = self@;
        let ghost added = tuple@;
        let mut grew = true;
        match self.group_index(rtype) {
            Some(g) => {
                proof {
                    lemma_group_index_unique(before, rtype, g as int);
                    assert(before.groups[g as int].wf());
                }
                let replaced = self.records[g].insert(tuple);
                assert(groups_of(self.records@) =~= before.groups.update(
                    g as int,
                    before.groups[g as int].insert(added),
                ));
                match replaced {
                    Some(stale) => {
                        grew = false;
                        if stale == self.next_expiry {
                            proof {
                                lemma_group_insert(before.groups[g as int], added);
                            }
                            let t = self.records[g].earliest();
                            proof {
                                lemma_earliest_unique(seq![self.records@[g as int]@], t);
                            }
                            self.next_expiry = t;
                        } else if expiry < self.next_expiry {
                            self.next_expiry = expiry;
                        }
                    },
                    None => {
                        self.size += 1;
                        if expiry < self.next_expiry {
                            self.next_expiry = expiry;
                        }
                    },
                }
            },
            None => {
                self.records.push(RecordGroup::single(tuple));
                assert(groups_of(self.records@) =~= before.groups.push(
                    Group { rtype, tuples: seq![added] },
                ));
                self.size += 1;
                if expiry < self.next_expiry {
                    self.next_expiry = expiry;
                }
            },
        }
        self.last_read = now;
        proof {
            lemma_domain_insert(before, added, now);
        }
        grew
    }

    /// Records that a lookup at `now` had a result.
    pub fn touch(&mut self, now: u64)
        ensures
            final(self)@ == old(self)@.touch(now),
            final(self).key() == old(self).key(),
            final(self).tally() == old(self).tally(),
            old(self).wf() ==> final(self).wf(),
    {
        self.last_read = now;
    }

    /// What a lookup at `now` answers from this domain.
    pub fn answers(&self, qtype: &QueryType, qclass: &QueryClass, now: u64) -> (out: Vec<
        ResourceRecord,
    >)
        ensures
            records_of(out@) == self@.answers(self.key(), *qtype, *qclass, now),
    {
        let mut out: Vec<ResourceRecord> = Vec::new();
        let ghost part = |g: Group| g.answers(self.key(), *qtype, *qclass, now);
        let ghost groups = self@.groups;
        let mut k: usize = 0;
        assert(groups.take(0).map_values(part) =~= Seq::<Seq<Record>>::empty());
        assert(records_of(out@) =~= groups.take(0).map_values(part).flatten());
        while k < self.records.len()
            invariant
                k <= self.records.len(),
                groups == self@.groups,
                part == |g: Group| g.answers(self.key(), *qtype, *qclass, now),
                records_of(out@) == groups.take(k as int).map_values(part).flatten(),
            decreases self.records.len() - k,
        {
            self.records[k].answers(&self.name, qtype, qclass, now, &mut out);
            proof {
                let done = groups.take(k as int).map_values(part);
                assert(groups.take(k + 1).map_values(part) =~= done.push(part(groups[k as int])));
                done.lemma_flatten_push(part(groups[k as int]));
            }
            k += 1;
        }
        assert(groups.take(groups.len() as int) =~= groups);
        out
    }
}

impl CachedDomainRecords {
    /// Drops the tuples that have expired at `now` and files the domain under
    /// the earliest expiry that is left; returns how many tuples were dropped.
    /// A domain left without tuples is for its owner to delete.
    pub fn expire(&mut self, now: u64) -> (pruned: usize)
        requires
            old(self).wf(),
        ensures
            final(self)@ == old(self)@.expire(now),
            final(self).key() == old(self).key(),
            final(self).tally() == final(self)@.count(),
            pruned == old(self).tally() - final(self).tally(),
            final(self).tally() > 0 ==> final(self).wf(),
    {
        let ghost before = self@;
        let ghost swept = before.groups.map_values(|g: Group| g.expire(now));
        let mut pruned: usize = 0;
        let mut next: Option<u64> = None;
        let mut k: usize = 0;
        assert(swept.take(0) =~= Seq::<Group>::empty());
        assert(before.groups.take(0) =~= Seq::<Group>::empty());
        while k < self.records.len()
            invariant
                k <= self.records.len(),
                self.records.len() == before.groups.len(),
                before.wf(),
                before.count() == self.size,
                self.name == old(self).name,
                self.last_read == before.last_read,
                self.next_expiry == before.next_expiry,
                swept == before.groups.map_values(|g: Group| g.expire(now)),
                forall|j: int| 0 <= j < k ==> (#[trigger] groups_of(self.records@)[j]) == swept[j],
                forall|j: int|
                    k <= j < self.records.len() ==> (#[trigger] groups_of(self.records@)[j])
                        == before.groups[j],
                pruned + count_tuples(swept.take(k as int)) == count_tuples(
                    before.groups.take(k as int),
                ),
                match next {
                    None => count_tuples(swept.take(k as int)) == 0,
                    Some(m) => count_tuples(swept.take(k as int)) > 0 && is_earliest(
                        swept.take(k as int),
                        m,
                    ),
                },
            decreases self.records.len() - k,
        {
            let ghost groups = groups_of(self.records@);
            proof {
                assert(groups[k as int] == before.groups[k as int]);
                assert(before.groups[k as int].wf());
                lemma_count_take(swept, k as int);
                lemma_count_take(before.groups, k as int);
                lemma_count_prefix(before.groups, k + 1);
                assert(swept.take(k + 1) =~= swept.take(k as int).push(swept[k as int]));
            }
            let dropped = self.records[k].expire(now);
            pruned += dropped;
            assert(self.records@[k as int]@ == swept[k as int]);
            assert forall|j: int| 0 <= j < k + 1 implies (#[trigger] groups_of(self.records@)[j])
                == swept[j] by {
                if j < k {
                    assert(groups_of(self.records@)[j] == groups[j]);
                }
            }
            assert forall|j: int| k + 1 <= j < self.records.len() implies (#[trigger] groups_of(
                self.records@,
            )[j]) == before.groups[j] by {
                assert(groups_of(self.records@)[j] == groups[j]);
            }
            if self.records[k].tuples.len() > 0 {
                let t = self.records[k].earliest();
                proof {
                    let m = match next {
                        Some(m) => m,
                        None => t,
                    };
                    lemma_earliest_push(swept.take(k as int), swept[k as int], t, m);
                }
                next = match next {
                    Some(m) => if m <= t {
                        Some(m)
                    } else {
                        Some(t)
                    },
                    None => Some(t),
                };
            } else {
                proof {
                    let m = match next {
                        Some(m) => m,
                        None => 0,
                    };
                    lemma_earliest_push_empty(swept.take(k as int), swept[k as int], m);
                }
            }
            k += 1;
        }
        proof {
            assert(swept.take(swept.len() as int) =~= swept);
            assert(before.groups.take(before.groups.len() as int) =~= before.groups);
            assert(groups_of(self.records@) =~= swept);
            lemma_domain_expire(before, now);
        }
        self.size = self.size - pruned;
        match next {
            Some(t) => {
                proof {
                    lemma_earliest_unique(swept, t);
                }
                self.next_expiry = t;
            },
            None => {},
        }
        pruned
    }
}

} // verus!
