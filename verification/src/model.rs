//! The mathematical model of a cache: what is stored under a domain name, what
//! a lookup answers, and what inserting a record, expiring records and
//! evicting domains do to it.

use crate::dns::{QueryClass, QueryType, Record, RecordClass, RecordData, RecordType};
use vstd::prelude::*;

verus! {

/// A domain name as a value: the sequence of its labels.
pub type Name = Seq<Seq<u8>>;

/// The earlier of two times.
pub open spec fn earlier(a: u64, b: u64) -> u64 {
    if a <= b {
        a
    } else {
        b
    }
}

/// One cached record: its payload, its class, and the time at which it expires.
pub struct Tuple {
    pub data: RecordData,
    pub rclass: RecordClass,
    pub expires: u64,
}

impl Tuple {
    /// Two tuples stand for the same record if payload and class agree.
    pub open spec fn same_record(self, other: Tuple) -> bool {
        self.data == other.data && self.rclass == other.rclass
    }

    /// A tuple is live while its expiry lies in the future.
    pub open spec fn live(self, now: u64) -> bool {
        self.expires > now
    }

    /// The time to live that is left at `now`: never negative, zero from the
    /// expiry on.
    pub open spec fn remaining(self, now: u64) -> u64 {
        if self.expires > now {
            (self.expires - now) as u64
        } else {
            0
        }
    }

    /// The resource record a lookup at `now` hands out for this tuple.
    pub open spec fn answer(self, name: Name, now: u64) -> Record {
        Record { name, rtype: self.data, rclass: self.rclass, ttl: self.remaining(now) }
    }
}

/// The tuples of one record type under one domain name.
pub struct Group {
    pub rtype: RecordType,
    pub tuples: Seq<Tuple>,
}

impl Group {
    /// Every tuple has the group's type, and no record is stored twice.
    pub open spec fn wf(self) -> bool {
        &&& forall|i: int|
            0 <= i < self.tuples.len() ==> (#[trigger] self.tuples[i]).data.rtype() == self.rtype
        &&& forall|i: int, j: int|
            0 <= i < j < self.tuples.len() ==> !(#[trigger] self.tuples[i]).same_record(
                #[trigger] self.tuples[j],
            )
    }

    /// The tuple at `i` stands for the same record as `tuple`.
    pub open spec fn holds_at(self, tuple: Tuple, i: int) -> bool {
        0 <= i < self.tuples.len() && self.tuples[i].same_record(tuple)
    }

    /// Some tuple of the group stands for the same record as `tuple`.
    pub open spec fn holds(self, tuple: Tuple) -> bool {
        exists|i: int| self.holds_at(tuple, i)
    }

    /// Where the group holds the record of `tuple`.
    pub open spec fn position(self, tuple: Tuple) -> int {
        choose|i: int| self.holds_at(tuple, i)
    }

    /// The group after `tuple` was inserted. A record that is already stored
    /// is taken out, the last tuple moving into its place, before the new
    /// tuple is appended; so a record never occurs twice.
    pub open spec fn insert(self, tuple: Tuple) -> Group {
        if self.holds(tuple) {
            Group {
                rtype: self.rtype,
                tuples: self.tuples.update(self.position(tuple), self.tuples.last()).drop_last().push(
                    tuple,
                ),
            }
        } else {
            Group { rtype: self.rtype, tuples: self.tuples.push(tuple) }
        }
    }

    /// The group without the tuples that have expired at `now`.
    pub open spec fn expire(self, now: u64) -> Group {
        Group { rtype: self.rtype, tuples: self.tuples.filter(|t: Tuple| t.live(now)) }
    }

    /// What the group contributes to a lookup: nothing unless its type answers
    /// the query, else a record for each tuple whose class answers the query.
    pub open spec fn answers(self, name: Name, qtype: QueryType, qclass: QueryClass, now: u64) -> Seq<
        Record,
    > {
        if qtype.admits(self.rtype) {
            self.tuples.filter(|t: Tuple| qclass.admits(t.rclass)).map_values(
                |t: Tuple| t.answer(name, now),
            )
        } else {
            Seq::empty()
        }
    }
}

/// The number of tuples in all the groups together.
pub open spec fn count_tuples(groups: Seq<Group>) -> nat
    decreases groups.len(),
{
    if groups.len() == 0 {
        0
    } else {
        count_tuples(groups.drop_last()) + groups.last().tuples.len()
    }
}

/// Some tuple of the groups expires at `t`.
pub open spec fn expires_at(groups: Seq<Group>, t: u64) -> bool {
    exists|g: int, i: int|
        0 <= g < groups.len() && 0 <= i < groups[g].tuples.len() && (
        #[trigger] groups[g].tuples[i]).expires == t
}

/// No tuple of the groups expires before `t`.
pub open spec fn none_before(groups: Seq<Group>, t: u64) -> bool {
    forall|g: int, i: int|
        0 <= g < groups.len() && 0 <= i < groups[g].tuples.len() ==> (
        #[trigger] groups[g].tuples[i]).expires >= t
}

/// `t` is the earliest expiry among the tuples of the groups.
pub open spec fn is_earliest(groups: Seq<Group>, t: u64) -> bool {
    expires_at(groups, t) && none_before(groups, t)
}

/// The earliest expiry among the tuples of the groups, if there is a tuple.
pub open spec fn earliest(groups: Seq<Group>) -> u64 {
    choose|t: u64| is_earliest(groups, t)
}

/// All that is stored under one domain name.
pub struct Domain {
    /// When the domain was last read with a result, or written.
    pub last_read: u64,
    /// The expiry the domain is filed under in the expiry ordering.
    pub next_expiry: u64,
    /// The tuples, grouped by record type.
    pub groups: Seq<Group>,
}

impl Domain {
    /// The number of tuples stored under the domain.
    pub open spec fn count(self) -> nat {
        count_tuples(self.groups)
    }

    /// The groups are well formed and of pairwise different types, there is
    /// at least one tuple, and `next_expiry` is the expiry of one of them.
    pub open spec fn wf(self) -> bool {
        &&& forall|g: int| 0 <= g < self.groups.len() ==> (#[trigger] self.groups[g]).wf()
        &&& forall|g: int, h: int|
            0 <= g < h < self.groups.len() ==> (#[trigger] self.groups[g]).rtype != (
            #[trigger] self.groups[h]).rtype
        &&& self.count() >= 1
        &&& expires_at(self.groups, self.next_expiry)
    }

    /// `next_expiry` is the earliest expiry of the domain's tuples.
    pub open spec fn exact(self) -> bool {
        is_earliest(self.groups, self.next_expiry)
    }

    /// The group at `g` is the one of type `rtype`.
    pub open spec fn group_at(self, rtype: RecordType, g: int) -> bool {
        0 <= g < self.groups.len() && self.groups[g].rtype == rtype
    }

    /// The domain has a group of type `rtype`.
    pub open spec fn has_group(self, rtype: RecordType) -> bool {
        exists|g: int| self.group_at(rtype, g)
    }

    /// Where the group of type `rtype` is.
    pub open spec fn group_index(self, rtype: RecordType) -> int {
        choose|g: int| self.group_at(rtype, g)
    }

    /// The record of `tuple` is already stored under the domain.
    pub open spec fn holds(self, tuple: Tuple) -> bool {
        self.has_group(tuple.data.rtype()) && self.groups[self.group_index(
            tuple.data.rtype(),
        )].holds(tuple)
    }

    /// The stored tuple that stands for the record of `tuple`.
    pub open spec fn stored(self, tuple: Tuple) -> Tuple {
        let group = self.groups[self.group_index(tuple.data.rtype())];
        group.tuples[group.position(tuple)]
    }

    /// A domain that holds one tuple, written at `now`.
    pub open spec fn single(tuple: Tuple, now: u64) -> Domain {
        Domain {
            last_read: now,
            next_expiry: tuple.expires,
            groups: seq![Group { rtype: tuple.data.rtype(), tuples: seq![tuple] }],
        }
    }

    /// The domain after `tuple` was inserted at `now`.
    ///
    /// A record that is not stored yet is added, to a new group if it is the
    /// first of its type, and `next_expiry` becomes the earlier of its old
    /// value and the new expiry. A record that is already stored has its tuple
    /// replaced. If the replaced tuple expired at `next_expiry`, then
    /// `next_expiry` becomes the earliest expiry within the group of that
    /// type alone, the other groups are not looked at; else it becomes the
    /// earlier of its old value and the new expiry.
    pub open spec fn insert(self, tuple: Tuple, now: u64) -> Domain {
        let rtype = tuple.data.rtype();
        if !self.has_group(rtype) {
            Domain {
                last_read: now,
                next_expiry: earlier(self.next_expiry, tuple.expires),
                groups: self.groups.push(Group { rtype, tuples: seq![tuple] }),
            }
        } else {
            let g = self.group_index(rtype);
            let next = self.groups[g].insert(tuple);
            Domain {
                last_read: now,
                next_expiry: if self.holds(tuple) && self.stored(tuple).expires
                    == self.next_expiry {
                    earliest(seq![next])
                } else {
                    earlier(self.next_expiry, tuple.expires)
                },
                groups: self.groups.update(g, next),
            }
        }
    }

    /// The domain without the tuples that have expired at `now`;
    /// `next_expiry` is the earliest expiry of those that are left.
    pub open spec fn expire(self, now: u64) -> Domain {
        let groups = self.groups.map_values(|g: Group| g.expire(now));
        Domain {
            last_read: self.last_read,
            next_expiry: if count_tuples(groups) > 0 {
                earliest(groups)
            } else {
                self.next_expiry
            },
            groups,
        }
    }

    /// Replacing the tuple of `tuple`'s record leaves the domain filed under
    /// an expiry that is not its earliest: the tuple that is replaced expires
    /// at `next_expiry`, so the group of its type is searched for the new
    /// earliest expiry, while a group of another type holds a tuple that
    /// expires before anything in that group.
    pub open spec fn rescan_falls_short(self, tuple: Tuple) -> bool {
        let g = self.group_index(tuple.data.rtype());
        &&& self.holds(tuple)
        &&& self.stored(tuple).expires == self.next_expiry
        &&& exists|h: int, i: int|
            0 <= h < self.groups.len() && h != g && 0 <= i < self.groups[h].tuples.len() && (
            #[trigger] self.groups[h].tuples[i]).expires < earliest(
                seq![self.groups[g].insert(tuple)],
            )
    }

    /// The domain after the expiry pass at `now`, which leaves alone a domain
    /// that is filed under an expiry in the future.
    pub open spec fn sweep(self, now: u64) -> Domain {
        if self.next_expiry <= now {
            self.expire(now)
        } else {
            self
        }
    }

    /// The domain after a lookup at `now` that had a result.
    pub open spec fn touch(self, now: u64) -> Domain {
        Domain { last_read: now, next_expiry: self.next_expiry, groups: self.groups }
    }

    /// What a lookup at `now` answers: the contributions of the groups, in
    /// their order.
    pub open spec fn answers(self, name: Name, qtype: QueryType, qclass: QueryClass, now: u64) -> Seq<
        Record,
    > {
        self.groups.map_values(|g: Group| g.answers(name, qtype, qclass, now)).flatten()
    }
}

/// The number of tuples under all the names together.
pub open spec fn total_size(domains: Map<Name, Domain>) -> nat
    decreases domains.dom().len(),
{
    if domains.dom().finite() && domains.dom().len() > 0 {
        let name = domains.dom().choose();
        domains[name].count() + total_size(domains.remove(name))
    } else {
        0
    }
}

/// The state of a cache: what is stored under each name, and the number of
/// tuples the cache is to be pruned down to.
pub struct Cache {
    pub domains: Map<Name, Domain>,
    pub desired_size: nat,
}

impl Cache {
    /// The number of tuples in the cache.
    pub open spec fn current_size(self) -> nat {
        total_size(self.domains)
    }

    /// Finitely many names are stored, each with a well-formed domain, and
    /// the desired size is positive.
    pub open spec fn wf(self) -> bool {
        &&& self.desired_size > 0
        &&& self.domains.dom().finite()
        &&& forall|name: Name| #[trigger]
            self.domains.contains_key(name) ==> self.domains[name].wf()
    }

    /// Every domain is filed under the earliest expiry of its tuples.
    pub open spec fn exact(self) -> bool {
        forall|name: Name| #[trigger] self.domains.contains_key(name) ==> self.domains[name].exact()
    }

    /// A cache that stores nothing.
    pub open spec fn empty(desired_size: nat) -> Cache {
        Cache { domains: Map::empty(), desired_size }
    }

    /// What a lookup at `now` answers: nothing for a name that is not
    /// stored, else what the domain of that name answers.
    pub open spec fn answers(self, name: Name, qtype: QueryType, qclass: QueryClass, now: u64) -> Seq<
        Record,
    > {
        if self.domains.contains_key(name) {
            self.domains[name].answers(name, qtype, qclass, now)
        } else {
            Seq::empty()
        }
    }

    /// The cache after a lookup at `now`: a lookup with a result marks the
    /// domain as read at `now`, one without changes nothing.
    pub open spec fn read(self, name: Name, qtype: QueryType, qclass: QueryClass, now: u64) -> Cache {
        if self.answers(name, qtype, qclass, now).len() > 0 {
            Cache {
                domains: self.domains.insert(name, self.domains[name].touch(now)),
                desired_size: self.desired_size,
            }
        } else {
            self
        }
    }

    /// The cache after `record` was inserted at `now`.
    pub open spec fn insert(self, record: Record, now: u64) -> Cache {
        let tuple = tuple_of(record, now);
        let domain = if self.domains.contains_key(record.name) {
            self.domains[record.name].insert(tuple, now)
        } else {
            Domain::single(tuple, now)
        };
        Cache { domains: self.domains.insert(record.name, domain), desired_size: self.desired_size }
    }

    /// The record of `record` is already stored under its name, with
    /// whatever expiry.
    pub open spec fn stores(self, record: Record) -> bool {
        self.domains.contains_key(record.name) && self.domains[record.name].holds(
            tuple_of(record, 0),
        )
    }

    /// Inserting `record` at `now` replaces a tuple of its domain and leaves
    /// the domain filed under an expiry that is not its earliest.
    pub open spec fn rescan_falls_short(self, record: Record, now: u64) -> bool {
        self.domains.contains_key(record.name) && self.domains[record.name].rescan_falls_short(
            tuple_of(record, now),
        )
    }

    /// The cache after the expiry pass at `now`: every domain that is
    /// filed under an expiry not in the future has lost its expired tuples,
    /// and is deleted if none is left; the other domains are as they were.
    pub open spec fn expired(self, now: u64) -> Cache {
        Cache {
            domains: Map::new(
                |name: Name|
                    self.domains.contains_key(name) && self.domains[name].sweep(now).count() > 0,
                |name: Name| self.domains[name].sweep(now),
            ),
            desired_size: self.desired_size,
        }
    }

    /// `name` is stored in `self` and no longer in `after`.
    pub open spec fn gone(self, after: Cache, name: Name) -> bool {
        self.domains.contains_key(name) && !after.domains.contains_key(name)
    }

    /// The expiry pass at `now`, begun on `self`, may have reached `mid`: a
    /// domain is as it was or, if it was due, has lost its expired tuples;
    /// a domain that is missing was due and had no other tuples.
    pub open spec fn expiring(self, now: u64, mid: Cache) -> bool {
        &&& mid.desired_size == self.desired_size
        &&& forall|name: Name| #[trigger]
            mid.domains.contains_key(name) ==> self.domains.contains_key(name) && (
            mid.domains[name] == self.domains[name] || (self.domains[name].next_expiry <= now
                && mid.domains[name] == self.domains[name].expire(now)))
        &&& forall|name: Name| #[trigger]
            self.gone(mid, name) ==> self.domains[name].next_expiry <= now
                && self.domains[name].expire(now).count() == 0
    }

    /// The eviction pass, begun on `self`, may have reached `mid`, with
    /// `last` the domain it deleted last: what is left is as it was, no
    /// deleted domain was read later than a domain that is left or than
    /// `last`, and before `last` was deleted the size was above the desired
    /// size.
    pub open spec fn evicting(self, mid: Cache, last: Name) -> bool {
        &&& mid.desired_size == self.desired_size
        &&& forall|name: Name| #[trigger]
            mid.domains.contains_key(name) ==> self.domains.contains_key(name)
                && mid.domains[name] == self.domains[name]
        &&& forall|kept: Name, lost: Name|
            #![trigger mid.domains.contains_key(kept), self.gone(mid, lost)]
            mid.domains.contains_key(kept) && self.gone(mid, lost)
                ==> self.domains[lost].last_read <= self.domains[kept].last_read
        &&& (exists|lost: Name| self.gone(mid, lost)) ==> {
            &&& self.gone(mid, last)
            &&& mid.current_size() + self.domains[last].count() > self.desired_size
            &&& forall|lost: Name| #[trigger]
                self.gone(mid, lost) ==> self.domains[lost].last_read
                    <= self.domains[last].last_read
        }
    }

    /// `after` is what the eviction pass leaves of `self`: whole domains
    /// are deleted, least recently read first, until the size is within the
    /// desired size, and no longer than that.
    pub open spec fn evicted(self, after: Cache) -> bool {
        &&& after.current_size() <= self.desired_size
        &&& exists|last: Name| self.evicting(after, last)
    }

    /// `after` is what pruning at `now` leaves of `self`: nothing happens
    /// while the size is within the desired size; else the expiry pass runs,
    /// and the eviction pass on what it leaves.
    pub open spec fn pruned(self, now: u64, after: Cache) -> bool {
        if self.current_size() <= self.desired_size {
            after == self
        } else {
            self.expired(now).evicted(after)
        }
    }
}

/// When a record with time to live `ttl` that is inserted at `now` expires:
/// at `now + ttl`, and at the end of the time line where that lies beyond it.
pub open spec fn expiry(now: u64, ttl: u64) -> u64 {
    if now + ttl <= u64::MAX {
        (now + ttl) as u64
    } else {
        u64::MAX
    }
}

/// The tuple that stands for `record` when it is inserted at `now`.
pub open spec fn tuple_of(record: Record, now: u64) -> Tuple {
    Tuple { data: record.rtype, rclass: record.rclass, expires: expiry(now, record.ttl) }
}

} // verus!
