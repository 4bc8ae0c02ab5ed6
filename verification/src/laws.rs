//! Laws of the cache, stated over its model and proved from the definitions.

use crate::dns::{QueryClass, QueryType, Record};
use crate::lemmas::{
    lemma_count_positive, lemma_count_update, lemma_earliest_unique, lemma_holds_any_expiry,
    lemma_domain_expire, lemma_domain_insert, lemma_domain_single, lemma_earliest_of_some,
    lemma_group_index_unique, lemma_group_insert, lemma_position_unique, lemma_total_insert,
    lemma_total_part, lemma_total_remove,
};
use crate::model::{Cache, Domain, Group, Name, Tuple, count_tuples, earliest, tuple_of};
use vstd::prelude::*;

verus! {

/// A sequence that is part of a concatenation has its elements in the
/// concatenation.
pub proof fn lemma_flatten_contains(parts: Seq<Seq<Record>>, g: int, record: Record)
    requires
        0 <= g < parts.len(),
        parts[g].contains(record),
    ensures
        parts.flatten().contains(record),
    decreases parts.len(),
{
    let front = parts.drop_last();
    let last = parts.last();
    assert(front.push(last) =~= parts);
    front.lemma_flatten_push(last);
    let whole = front.flatten() + last;
    if g == parts.len() - 1 {
        let i = choose|i: int| 0 <= i < last.len() && last[i] == record;
        assert(whole[front.flatten().len() + i] == record);
    } else {
        lemma_flatten_contains(front, g, record);
        let i = choose|i: int| 0 <= i < front.flatten().len() && front.flatten()[i] == record;
        assert(whole[i] == record);
    }
}

/// A lookup answers with every stored tuple whose type and class answer
/// the query, and gives it the time to live that is left.
pub proof fn lemma_answers_contain(
    domain: Domain,
    g: int,
    i: int,
    name: Name,
    qtype: QueryType,
    qclass: QueryClass,
    now: u64,
)
    requires
        0 <= g < domain.groups.len(),
        0 <= i < domain.groups[g].tuples.len(),
        qtype.admits(domain.groups[g].rtype),
        qclass.admits(domain.groups[g].tuples[i].rclass),
    ensures
        domain.answers(name, qtype, qclass, now).contains(
            domain.groups[g].tuples[i].answer(name, now),
        ),
{
    let group = domain.groups[g];
    let wanted = |t: Tuple| qclass.admits(t.rclass);
    let answer = |t: Tuple| t.answer(name, now);
    broadcast use vstd::seq_lib::group_filter_ensures;

    let kept = group.tuples.filter(wanted);
    assert(kept.contains(group.tuples[i]));
    let k = choose|k: int| 0 <= k < kept.len() && kept[k] == group.tuples[i];
    assert(kept.map_values(answer)[k] == answer(group.tuples[i]));
    let parts = domain.groups.map_values(|g: Group| g.answers(name, qtype, qclass, now));
    assert(parts[g] == group.answers(name, qtype, qclass, now));
    lemma_flatten_contains(parts, g, group.tuples[i].answer(name, now));
}

/// Time to live runs down with the clock: a record inserted at `t0` with
/// a time to live of `ttl` is answered at a later time `t1` with what is
/// left of it, `ttl - (t1 - t0)`, and with zero once that time has passed.
pub proof fn lemma_ttl_runs_down(
    cache: Cache,
    record: Record,
    t0: u64,
    t1: u64,
    qtype: QueryType,
    qclass: QueryClass,
)
    requires
        cache.wf(),
        t0 + record.ttl <= u64::MAX,
        t0 <= t1,
        qtype.admits(record.rtype.rtype()),
        qclass.admits(record.rclass),
    ensures
        cache.insert(record, t0).answers(record.name, qtype, qclass, t1).contains(
            Record {
                name: record.name,
                rtype: record.rtype,
                rclass: record.rclass,
                ttl: if t1 - t0 < record.ttl {
                    (record.ttl - (t1 - t0)) as u64
                } else {
                    0
                },
            },
        ),
{
    let tuple = tuple_of(record, t0);
    let after = cache.insert(record, t0).domains[record.name];
    if cache.domains.contains_key(record.name) {
        let domain = cache.domains[record.name];
        lemma_stored_after_insert(domain, tuple, t0);
        let g = after.group_index(tuple.data.rtype());
        let i = after.groups[g].position(tuple);
        lemma_answers_contain(after, g, i, record.name, qtype, qclass, t1);
    } else {
        lemma_answers_contain(after, 0, 0, record.name, qtype, qclass, t1);
    }
}

/// After a tuple was inserted, the domain holds its record, with the
/// tuple's expiry.
pub proof fn lemma_stored_after_insert(domain: Domain, tuple: Tuple, now: u64)
    requires
        domain.wf(),
    ensures
        domain.insert(tuple, now).holds(tuple),
        domain.insert(tuple, now).stored(tuple) == tuple,
        domain.insert(tuple, now).group_at(
            tuple.data.rtype(),
            domain.insert(tuple, now).group_index(tuple.data.rtype()),
        ),
        domain.insert(tuple, now).groups[domain.insert(tuple, now).group_index(
            tuple.data.rtype(),
        )].holds_at(
            tuple,
            domain.insert(tuple, now).groups[domain.insert(tuple, now).group_index(
                tuple.data.rtype(),
            )].position(tuple),
        ),
{
    let rtype = tuple.data.rtype();
    let next = domain.insert(tuple, now);
    lemma_domain_insert(domain, tuple, now);
    if !domain.has_group(rtype) {
        let g = domain.groups.len() as int;
        assert(next.group_at(rtype, g));
        lemma_group_index_unique(next, rtype, g);
        assert(next.groups[g].holds_at(tuple, 0));
        lemma_position_unique(next.groups[g], tuple, 0);
    } else {
        let g = domain.group_index(rtype);
        assert(domain.group_at(rtype, g));
        lemma_group_insert(domain.groups[g], tuple);
        assert(next.group_at(rtype, g));
        lemma_group_index_unique(next, rtype, g);
        let at = next.groups[g].tuples.len() - 1;
        assert(next.groups[g].holds_at(tuple, at));
        lemma_position_unique(next.groups[g], tuple, at);
    }
}

/// Inserting a record that is already stored leaves the number of tuples
/// as it is and changes the expiry of that record alone: the same records
/// are stored afterwards, the inserted one with its new expiry, every other
/// one with the tuple it had.
pub proof fn lemma_dedup(domain: Domain, tuple: Tuple, now: u64)
    requires
        domain.wf(),
        domain.holds(tuple),
    ensures
        domain.insert(tuple, now).count() == domain.count(),
        domain.insert(tuple, now).holds(tuple),
        domain.insert(tuple, now).stored(tuple).expires == tuple.expires,
        forall|other: Tuple|
            !other.same_record(tuple) ==> (#[trigger] domain.insert(tuple, now).holds(other))
                == domain.holds(other),
        forall|other: Tuple|
            !other.same_record(tuple) && domain.holds(other) ==> (#[trigger] domain.insert(
                tuple,
                now,
            ).stored(other)) == domain.stored(other),
{
    let rtype = tuple.data.rtype();
    let next = domain.insert(tuple, now);
    lemma_domain_insert(domain, tuple, now);
    lemma_stored_after_insert(domain, tuple, now);
    let g = domain.group_index(rtype);
    assert(domain.group_at(rtype, g));
    let group = domain.groups[g];
    let after = next.groups[g];
    let p = group.position(tuple);
    assert(group.holds_at(tuple, p));
    let n = group.tuples.len() as int;
    lemma_group_insert(group, tuple);
    assert forall|other: Tuple| !other.same_record(tuple) implies (#[trigger] next.holds(other))
        == domain.holds(other) && (domain.holds(other) ==> next.stored(other) == domain.stored(
        other,
    )) by {
        let r = other.data.rtype();
        if domain.has_group(r) {
            let h = domain.group_index(r);
            assert(domain.group_at(r, h));
            assert(next.group_at(r, h));
            lemma_group_index_unique(next, r, h);
            if h == g {
                if group.holds(other) {
                    let j = group.position(other);
                    assert(group.holds_at(other, j));
                    let at = if j == n - 1 {
                        p
                    } else {
                        j
                    };
                    assert(after.tuples[at] == group.tuples[j]);
                    assert(after.holds_at(other, at));
                    lemma_position_unique(after, other, at);
                }
                if after.holds(other) {
                    let j = after.position(other);
                    assert(after.holds_at(other, j));
                    let at = if j == p {
                        n - 1
                    } else {
                        j
                    };
                    assert(after.tuples[j] == group.tuples[at]);
                    assert(group.holds_at(other, at));
                    lemma_position_unique(group, other, at);
                }
            }
        } else {
            if next.has_group(r) {
                let h = next.group_index(r);
                assert(next.group_at(r, h));
                assert(domain.group_at(r, h));
            }
        }
    }
    assert forall|other: Tuple| !other.same_record(tuple) && domain.holds(other) implies (
    #[trigger] next.stored(other)) == domain.stored(other) by {
        assert(next.holds(other) == domain.holds(other));
    }
}

/// The same law for the cache: inserting a record that is already stored
/// under its name leaves the size of the cache as it is, and leaves every
/// other name alone.
pub proof fn lemma_dedup_keeps_size(cache: Cache, record: Record, now: u64)
    requires
        cache.wf(),
        cache.stores(record),
    ensures
        cache.insert(record, now).current_size() == cache.current_size(),
        cache.insert(record, now).domains.dom() == cache.domains.dom(),
        forall|other: Name|
            other != record.name && cache.domains.contains_key(other) ==> (
            #[trigger] cache.insert(record, now).domains[other]) == cache.domains[other],
{
    let tuple = tuple_of(record, now);
    let domain = cache.domains[record.name];
    lemma_holds_any_expiry(domain, tuple, tuple_of(record, 0));
    lemma_domain_insert(domain, tuple, now);
    lemma_total_insert(cache.domains, record.name, domain.insert(tuple, now));
    assert(cache.insert(record, now).domains.dom() =~= cache.domains.dom());
}

/// A lookup leaves every domain filed under its earliest expiry.
pub proof fn lemma_read_keeps_exact(
    cache: Cache,
    name: Name,
    qtype: QueryType,
    qclass: QueryClass,
    now: u64,
)
    requires
        cache.exact(),
    ensures
        cache.read(name, qtype, qclass, now).exact(),
{
    let after = cache.read(name, qtype, qclass, now);
    assert forall|other: Name| #[trigger] after.domains.contains_key(other) implies after.domains[other].exact() by {
        if other == name {
            assert(cache.domains.contains_key(name));
        } else {
            assert(cache.domains.contains_key(other));
        }
    }
}

/// Inserting a tuple into a domain that is filed under its earliest
/// expiry leaves it so in every case but one: the narrow search for the
/// new earliest expiry falls short.
pub proof fn lemma_insert_exact(domain: Domain, tuple: Tuple, now: u64)
    requires
        domain.wf(),
        domain.exact(),
    ensures
        domain.insert(tuple, now).exact() <==> !domain.rescan_falls_short(tuple),
{
    let rtype = tuple.data.rtype();
    let next = domain.insert(tuple, now);
    lemma_domain_insert(domain, tuple, now);
    if !domain.has_group(rtype) {
        assert forall|g: int, i: int|
            0 <= g < next.groups.len() && 0 <= i < next.groups[g].tuples.len() implies (
        #[trigger] next.groups[g].tuples[i]).expires >= next.next_expiry by {
            if g < domain.groups.len() {
                assert(domain.groups[g].tuples[i].expires >= domain.next_expiry);
            }
        }
    } else {
        let g = domain.group_index(rtype);
        assert(domain.group_at(rtype, g));
        let group = domain.groups[g];
        let after = group.insert(tuple);
        let n = group.tuples.len() as int;
        lemma_group_insert(group, tuple);
        if domain.holds(tuple) && domain.stored(tuple).expires == domain.next_expiry {
            let single = seq![after];
            assert(single.drop_last() =~= Seq::<Group>::empty());
            assert(count_tuples(single.drop_last()) == 0);
            lemma_earliest_of_some(single);
            let m = earliest(single);
            assert forall|i: int| 0 <= i < after.tuples.len() implies (
            #[trigger] after.tuples[i]).expires >= m by {
                assert(single[0].tuples[i].expires >= m);
            }
            if domain.rescan_falls_short(tuple) {
                let (h, i) = choose|h: int, i: int|
                    0 <= h < domain.groups.len() && h != g && 0 <= i
                        < domain.groups[h].tuples.len() && (
                    #[trigger] domain.groups[h].tuples[i]).expires < m;
                assert(next.groups[h].tuples[i].expires < m);
            } else {
                assert forall|h: int, i: int|
                    0 <= h < next.groups.len() && 0 <= i < next.groups[h].tuples.len() implies (
                #[trigger] next.groups[h].tuples[i]).expires >= next.next_expiry by {
                    if h != g {
                        assert(!(domain.groups[h].tuples[i].expires < m));
                    }
                }
            }
        } else {
            assert forall|h: int, i: int|
                0 <= h < next.groups.len() && 0 <= i < next.groups[h].tuples.len() implies (
            #[trigger] next.groups[h].tuples[i]).expires >= next.next_expiry by {
                if h != g {
                    assert(domain.groups[h].tuples[i].expires >= domain.next_expiry);
                } else if i < after.tuples.len() - 1 {
                    if group.holds(tuple) {
                        let p = group.position(tuple);
                        assert(group.holds_at(tuple, p));
                        let at = if i == p {
                            n - 1
                        } else {
                            i
                        };
                        assert(after.tuples[i] == group.tuples[at]);
                        assert(domain.groups[g].tuples[at].expires >= domain.next_expiry);
                    } else {
                        assert(domain.groups[g].tuples[i].expires >= domain.next_expiry);
                    }
                }
            }
        }
    }
}

/// The same law for the cache: inserting a record leaves every domain filed
/// under its earliest expiry, unless the narrow search falls short for the
/// domain of the record.
pub proof fn lemma_insert_keeps_exact(cache: Cache, record: Record, now: u64)
    requires
        cache.wf(),
        cache.exact(),
        !cache.rescan_falls_short(record, now),
    ensures
        cache.insert(record, now).exact(),
{
    let after = cache.insert(record, now);
    let tuple = tuple_of(record, now);
    assert forall|name: Name| #[trigger] after.domains.contains_key(name) implies after.domains[name].exact() by {
        if name == record.name {
            if cache.domains.contains_key(name) {
                lemma_insert_exact(cache.domains[name], tuple, now);
            } else {
                lemma_domain_single(tuple, now);
            }
        } else {
            assert(cache.domains.contains_key(name));
        }
    }
}

/// Pruning leaves every domain filed under its earliest expiry.
pub proof fn lemma_prune_keeps_exact(cache: Cache, now: u64, after: Cache)
    requires
        cache.wf(),
        cache.exact(),
        cache.pruned(now, after),
    ensures
        after.exact(),
{
    if cache.current_size() > cache.desired_size {
        let swept = cache.expired(now);
        assert forall|name: Name| #[trigger] after.domains.contains_key(name) implies after.domains[name].exact() by {
            assert(swept.domains.contains_key(name));
            assert(cache.domains.contains_key(name));
            lemma_domain_expire(cache.domains[name], now);
        }
    }
}

/// Where the size is within the desired size, the eviction pass deletes
/// nothing.
pub proof fn lemma_no_eviction_when_fits(cache: Cache, after: Cache)
    requires
        cache.domains.dom().finite(),
        cache.current_size() <= cache.desired_size,
        cache.evicted(after),
    ensures
        after == cache,
{
    if exists|lost: Name| cache.gone(after, lost) {
        let last = choose|last: Name| cache.evicting(after, last);
        assert(cache.gone(after, last));
        assert forall|name: Name| #[trigger] after.domains.contains_key(name) implies cache.domains.remove(
            last,
        ).contains_key(name) && after.domains[name] == cache.domains.remove(last)[name] by {
            assert(cache.domains.contains_key(name));
        }
        lemma_total_part(after.domains, cache.domains.remove(last));
        lemma_total_remove(cache.domains, last);
    } else {
        assert forall|name: Name| #[trigger]
            cache.domains.contains_key(name) implies after.domains.contains_key(name) by {
            assert(!cache.gone(after, name));
        }
        assert(after.domains =~= cache.domains);
    }
}

/// Eviction ordering. Where no tuple has expired and the size is above the
/// desired size, pruning deletes whole domains and nothing else, least
/// recently read first: a deleted domain was read no later than any domain
/// that is left, the size that is left is within the desired size, and
/// before the domain that went last was deleted it was not.
pub proof fn lemma_eviction_order(cache: Cache, now: u64, after: Cache)
    requires
        cache.wf(),
        cache.current_size() > cache.desired_size,
        forall|name: Name, g: int, i: int|
            cache.domains.contains_key(name) && 0 <= g < cache.domains[name].groups.len() && 0 <= i
                < cache.domains[name].groups[g].tuples.len() ==> (
            #[trigger] cache.domains[name].groups[g].tuples[i]).live(now),
        cache.pruned(now, after),
    ensures
        cache.expired(now) == cache,
        cache.evicted(after),
        after.current_size() <= cache.desired_size,
        forall|name: Name| #[trigger]
            after.domains.contains_key(name) ==> cache.domains.contains_key(name)
                && after.domains[name] == cache.domains[name],
        forall|kept: Name, lost: Name|
            #![trigger after.domains.contains_key(kept), cache.gone(after, lost)]
            after.domains.contains_key(kept) && cache.gone(after, lost)
                ==> cache.domains[lost].last_read <= cache.domains[kept].last_read,
        exists|last: Name|
            {
                &&& #[trigger] cache.gone(after, last)
                &&& after.current_size() + cache.domains[last].count() > cache.desired_size
                &&& forall|lost: Name| #[trigger]
                    cache.gone(after, lost) ==> cache.domains[lost].last_read
                        <= cache.domains[last].last_read
            },
{
    let swept = cache.expired(now);
    assert forall|name: Name| #[trigger] cache.domains.contains_key(name) implies cache.domains[name].sweep(
        now,
    ) == cache.domains[name] by {
        let domain = cache.domains[name];
        assert(domain.wf());
        let (g, i) = choose|g: int, i: int|
            0 <= g < domain.groups.len() && 0 <= i < domain.groups[g].tuples.len() && (
            #[trigger] domain.groups[g].tuples[i]).expires == domain.next_expiry;
        assert(cache.domains[name].groups[g].tuples[i].live(now));
    }
    assert(swept.domains =~= cache.domains) by {
        assert forall|name: Name| #[trigger] cache.domains.contains_key(name) implies swept.domains.contains_key(
            name,
        ) by {
            assert(cache.domains[name].wf());
        }
    }
    let last = choose|last: Name| cache.evicting(after, last);
    if !(exists|lost: Name| cache.gone(after, lost)) {
        assert forall|name: Name| #[trigger]
            cache.domains.contains_key(name) implies after.domains.contains_key(name) by {
            assert(!cache.gone(after, name));
        }
        assert(after.domains =~= cache.domains);
    }
    assert(cache.gone(after, last));
}

/// Expiry first. Pruning a cache whose domains are filed under their
/// earliest expiry leaves no expired tuple. A domain that is left has lost
/// its expired tuples and no other. And where dropping the expired tuples
/// brings the size within the desired size, no domain is evicted: what is
/// left is what the expiry pass leaves.
pub proof fn lemma_expiry_first(cache: Cache, now: u64, after: Cache)
    requires
        cache.wf(),
        cache.exact(),
        cache.current_size() > cache.desired_size,
        cache.pruned(now, after),
    ensures
        forall|name: Name, g: int, i: int|
            after.domains.contains_key(name) && 0 <= g < after.domains[name].groups.len() && 0 <= i
                < after.domains[name].groups[g].tuples.len() ==> (
            #[trigger] after.domains[name].groups[g].tuples[i]).live(now),
        forall|name: Name| #[trigger]
            after.domains.contains_key(name) ==> cache.domains.contains_key(name)
                && after.domains[name] == cache.domains[name].sweep(now),
        cache.expired(now).current_size() <= cache.desired_size ==> after == cache.expired(now),
{
    let swept = cache.expired(now);
    assert forall|name: Name| #[trigger] after.domains.contains_key(name) implies cache.domains.contains_key(
        name,
    ) && after.domains[name] == cache.domains[name].sweep(now) by {
        assert(swept.domains.contains_key(name));
    }
    assert forall|name: Name, g: int, i: int|
        after.domains.contains_key(name) && 0 <= g < after.domains[name].groups.len() && 0 <= i
            < after.domains[name].groups[g].tuples.len() implies (
    #[trigger] after.domains[name].groups[g].tuples[i]).live(now) by {
        assert(swept.domains.contains_key(name));
        let domain = cache.domains[name];
        assert(domain.wf() && domain.exact());
        lemma_domain_expire(domain, now);
        if domain.next_expiry > now {
            assert(domain.groups[g].tuples[i].expires >= domain.next_expiry);
        }
    }
    if swept.current_size() <= cache.desired_size {
        assert(swept.domains.dom().finite()) by {
            assert(swept.domains.dom().subset_of(cache.domains.dom()));
            vstd::set_lib::lemma_len_subset(swept.domains.dom(), cache.domains.dom());
        }
        lemma_no_eviction_when_fits(swept, after);
    }
}

/// Pruning brings the size within the desired size, and removes a tuple
/// whenever the size was above it.
pub proof fn lemma_prune_fits(cache: Cache, now: u64, after: Cache)
    requires
        cache.pruned(now, after),
    ensures
        after.current_size() <= cache.desired_size,
        cache.current_size() > cache.desired_size ==> after.current_size() < cache.current_size(),
{
}

/// A domain of a single tuple holds the record of that tuple, with the
/// tuple's expiry.
pub proof fn lemma_single_holds(tuple: Tuple, now: u64)
    ensures
        Domain::single(tuple, now).holds(tuple),
        Domain::single(tuple, now).stored(tuple) == tuple,
{
    let domain = Domain::single(tuple, now);
    lemma_domain_single(tuple, now);
    assert(domain.group_at(tuple.data.rtype(), 0));
    lemma_group_index_unique(domain, tuple.data.rtype(), 0);
    assert(domain.groups[0].holds_at(tuple, 0));
    lemma_position_unique(domain.groups[0], tuple, 0);
}

/// What inserting does, for every record and every time. The state stays
/// well formed. The stored names are the old ones and the record's name, and
/// every other name is left alone. The record is stored under its name, with
/// its new expiry, and its domain counts as read at the time of the insert.
/// The size grows by one unless the record was already stored.
pub proof fn lemma_insert(cache: Cache, record: Record, now: u64)
    requires
        cache.wf(),
    ensures
        cache.insert(record, now).wf(),
        cache.insert(record, now).domains.dom() == cache.domains.dom().insert(record.name),
        forall|other: Name|
            other != record.name && cache.domains.contains_key(other) ==> (
            #[trigger] cache.insert(record, now).domains[other]) == cache.domains[other],
        cache.insert(record, now).stores(record),
        cache.insert(record, now).domains[record.name].stored(tuple_of(record, now)) == tuple_of(
            record,
            now,
        ),
        cache.insert(record, now).domains[record.name].last_read == now,
        cache.insert(record, now).domains[record.name].count() == if cache.stores(record) {
            cache.domains[record.name].count()
        } else if cache.domains.contains_key(record.name) {
            cache.domains[record.name].count() + 1
        } else {
            1
        },
        cache.insert(record, now).current_size() == cache.current_size() + if cache.stores(
            record,
        ) {
            0nat
        } else {
            1nat
        },
{
    let tuple = tuple_of(record, now);
    let after = cache.insert(record, now);
    let domain = after.domains[record.name];
    if cache.domains.contains_key(record.name) {
        let before = cache.domains[record.name];
        lemma_domain_insert(before, tuple, now);
        lemma_stored_after_insert(before, tuple, now);
        lemma_holds_any_expiry(before, tuple, tuple_of(record, 0));
    } else {
        lemma_domain_single(tuple, now);
        lemma_single_holds(tuple, now);
    }
    lemma_holds_any_expiry(domain, tuple, tuple_of(record, 0));
    lemma_total_insert(cache.domains, record.name, domain);
    assert(after.domains.dom() =~= cache.domains.dom().insert(record.name));
    assert forall|name: Name| #[trigger] after.domains.contains_key(name) implies after.domains[name].wf() by {
        if name != record.name {
            assert(cache.domains.contains_key(name));
        }
    }
}

/// Refreshing the only tuple of a domain files the domain under the new
/// expiry, whether that is earlier or later than the one it replaces.
pub proof fn lemma_refresh_only_tuple(domain: Domain, tuple: Tuple, now: u64)
    requires
        domain.wf(),
        domain.count() == 1,
        domain.holds(tuple),
    ensures
        domain.insert(tuple, now).count() == 1,
        domain.insert(tuple, now).next_expiry == tuple.expires,
        domain.insert(tuple, now).exact(),
{
    let rtype = tuple.data.rtype();
    let next = domain.insert(tuple, now);
    let g = domain.group_index(rtype);
    assert(domain.group_at(rtype, g));
    let group = domain.groups[g];
    let p = group.position(tuple);
    assert(group.holds_at(tuple, p));
    let none = Group { rtype, tuples: Seq::empty() };
    let rest = domain.groups.update(g, none);
    lemma_count_update(domain.groups, g, none);
    lemma_count_positive(rest);
    assert forall|h: int| 0 <= h < domain.groups.len() && h != g implies (
    #[trigger] domain.groups[h]).tuples.len() == 0 by {
        if domain.groups[h].tuples.len() > 0 {
            assert(rest[h].tuples.len() > 0);
        }
    }
    let (g0, i0) = choose|g0: int, i0: int|
        0 <= g0 < domain.groups.len() && 0 <= i0 < domain.groups[g0].tuples.len() && (
        #[trigger] domain.groups[g0].tuples[i0]).expires == domain.next_expiry;
    assert(g0 == g);
    lemma_domain_insert(domain, tuple, now);
    let after = group.insert(tuple);
    assert(after.tuples =~= seq![tuple]);
    let single = seq![after];
    assert(single[0].tuples[0].expires == tuple.expires);
    lemma_earliest_unique(single, tuple.expires);
    assert(next.groups[g].tuples[0].expires == tuple.expires);
}

} // verus!
