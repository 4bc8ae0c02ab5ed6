//! What follows from the definitions of the model: how counts and earliest
//! expiries change, and that inserting and expiring keep what is stored well
//! formed.

use crate::dns::RecordType;
use crate::model::{
    Cache, Domain, Group, Name, Tuple, count_tuples, earlier, earliest, expires_at, is_earliest,
    none_before, total_size,
};
use vstd::prelude::*;

verus! {

/// Appending a group adds its tuples to the count.
pub proof fn lemma_count_push(groups: Seq<Group>, group: Group)
    ensures
        count_tuples(groups.push(group)) == count_tuples(groups) + group.tuples.len(),
{
    assert(groups.push(group).drop_last() =~= groups);
}

/// Counting one group more of a sequence adds that group's tuples.
pub proof fn lemma_count_take(groups: Seq<Group>, k: int)
    requires
        0 <= k < groups.len(),
    ensures
        count_tuples(groups.take(k + 1)) == count_tuples(groups.take(k)) + groups[k].tuples.len(),
{
    assert(groups.take(k + 1).drop_last() =~= groups.take(k));
}

/// Replacing one group changes the count by the difference of the two sizes.
pub proof fn lemma_count_update(groups: Seq<Group>, k: int, group: Group)
    requires
        0 <= k < groups.len(),
    ensures
        count_tuples(groups.update(k, group)) + groups[k].tuples.len() == count_tuples(groups)
            + group.tuples.len(),
    decreases groups.len(),
{
    if k == groups.len() - 1 {
        assert(groups.update(k, group).drop_last() =~= groups.drop_last());
    } else {
        assert(groups.update(k, group).drop_last() =~= groups.drop_last().update(k, group));
        lemma_count_update(groups.drop_last(), k, group);
    }
}

/// A group with a tuple makes the count positive, and a positive count means
/// that some group has a tuple.
pub proof fn lemma_count_positive(groups: Seq<Group>)
    ensures
        count_tuples(groups) > 0 <==> exists|g: int|
            0 <= g < groups.len() && (#[trigger] groups[g]).tuples.len() > 0,
    decreases groups.len(),
{
    if groups.len() > 0 {
        lemma_count_positive(groups.drop_last());
        if count_tuples(groups) > 0 {
            if groups.last().tuples.len() > 0 {
                assert(groups[groups.len() - 1].tuples.len() > 0);
            } else {
                let g = choose|g: int|
                    0 <= g < groups.drop_last().len() && (#[trigger] groups.drop_last()[g]).tuples.len()
                        > 0;
                assert(groups[g].tuples.len() > 0);
            }
        }
        if exists|g: int| 0 <= g < groups.len() && (#[trigger] groups[g]).tuples.len() > 0 {
            let g = choose|g: int| 0 <= g < groups.len() && (#[trigger] groups[g]).tuples.len() > 0;
            if g < groups.len() - 1 {
                assert(groups.drop_last()[g].tuples.len() > 0);
            }
        }
    }
}

/// There is at most one earliest expiry.
pub proof fn lemma_earliest_unique(groups: Seq<Group>, t: u64)
    requires
        is_earliest(groups, t),
    ensures
        earliest(groups) == t,
{
    let e = earliest(groups);
    assert(is_earliest(groups, e));
}

/// In a well-formed group, tuples at different places stand for different
/// records.
pub proof fn lemma_group_distinct(group: Group, i: int, j: int)
    requires
        group.wf(),
        0 <= i < group.tuples.len(),
        0 <= j < group.tuples.len(),
        i != j,
    ensures
        !group.tuples[i].same_record(group.tuples[j]),
{
    if i < j {
        assert(!group.tuples[i].same_record(group.tuples[j]));
    } else {
        assert(!group.tuples[j].same_record(group.tuples[i]));
    }
}

/// A well-formed group holds a record at one place only.
pub proof fn lemma_position_unique(group: Group, tuple: Tuple, i: int)
    requires
        group.wf(),
        group.holds_at(tuple, i),
    ensures
        group.holds(tuple),
        group.position(tuple) == i,
{
    let p = group.position(tuple);
    assert(group.holds_at(tuple, p));
    if p != i {
        lemma_group_distinct(group, p, i);
    }
}

/// Inserting a tuple of the group's type keeps the group well formed; the
/// group grows by one tuple unless the record was already stored.
pub proof fn lemma_group_insert(group: Group, tuple: Tuple)
    requires
        group.wf(),
        tuple.data.rtype() == group.rtype,
    ensures
        group.insert(tuple).wf(),
        group.insert(tuple).rtype == group.rtype,
        group.insert(tuple).tuples.len() == if group.holds(tuple) {
            group.tuples.len()
        } else {
            group.tuples.len() + 1
        },
        group.insert(tuple).tuples.len() > 0,
        group.insert(tuple).tuples.last() == tuple,
{
    let next = group.insert(tuple);
    let n = group.tuples.len() as int;
    if group.holds(tuple) {
        let p = group.position(tuple);
        assert(group.holds_at(tuple, p));
        assert forall|i: int, j: int| 0 <= i < j < next.tuples.len() implies !(
        #[trigger] next.tuples[i]).same_record(#[trigger] next.tuples[j]) by {
            let a = if i == p {
                n - 1
            } else {
                i
            };
            assert(next.tuples[i] == group.tuples[a]);
            if j == n - 1 {
                lemma_group_distinct(group, a, p);
            } else {
                let b = if j == p {
                    n - 1
                } else {
                    j
                };
                assert(next.tuples[j] == group.tuples[b]);
                lemma_group_distinct(group, a, b);
            }
        }
        assert forall|i: int| 0 <= i < next.tuples.len() implies (
        #[trigger] next.tuples[i]).data.rtype() == next.rtype by {
            if i < n - 1 {
                let a = if i == p {
                    n - 1
                } else {
                    i
                };
                assert(next.tuples[i] == group.tuples[a]);
            }
        }
    } else {
        assert forall|i: int, j: int| 0 <= i < j < next.tuples.len() implies !(
        #[trigger] next.tuples[i]).same_record(#[trigger] next.tuples[j]) by {
            if j == n {
                assert(!group.holds_at(tuple, i));
            }
        }
    }
}

/// Expiring keeps a group well formed. What is left are the live tuples
/// of the group, each of which is kept.
pub proof fn lemma_group_expire(group: Group, now: u64)
    requires
        group.wf(),
    ensures
        group.expire(now).wf(),
        group.expire(now).tuples.len() <= group.tuples.len(),
        forall|i: int|
            0 <= i < group.expire(now).tuples.len() ==> (#[trigger] group.expire(now).tuples[i]).live(
                now,
            ) && group.tuples.contains(group.expire(now).tuples[i]),
        forall|i: int|
            0 <= i < group.tuples.len() && (#[trigger] group.tuples[i]).live(now)
                ==> group.expire(now).tuples.contains(group.tuples[i]),
    decreases group.tuples.len(),
{
    let live = |t: Tuple| t.live(now);
    let kept = group.expire(now);
    if group.tuples.len() == 0 {
        assert(group.tuples =~= Seq::<Tuple>::empty().push(group.tuples[0]).drop_last()) by {
            assert(group.tuples =~= Seq::<Tuple>::empty());
        }
        reveal(Seq::filter);
        assert(kept.tuples.len() == 0);
    } else {
        let front = Group { rtype: group.rtype, tuples: group.tuples.drop_last() };
        let last = group.tuples.last();
        let n = group.tuples.len() as int;
        assert(front.wf()) by {
            assert forall|i: int, j: int| 0 <= i < j < front.tuples.len() implies !(
            #[trigger] front.tuples[i]).same_record(#[trigger] front.tuples[j]) by {
                lemma_group_distinct(group, i, j);
            }
            assert forall|i: int| 0 <= i < front.tuples.len() implies (
            #[trigger] front.tuples[i]).data.rtype() == front.rtype by {
                assert(front.tuples[i] == group.tuples[i]);
            }
        }
        lemma_group_expire(front, now);
        let front_kept = front.expire(now);
        assert(front.tuples.push(last) =~= group.tuples);
        front.tuples.lemma_filter_push(last, live);
        assert forall|i: int| 0 <= i < kept.tuples.len() implies (#[trigger] kept.tuples[i]).live(
            now,
        ) && group.tuples.contains(kept.tuples[i]) by {
            if i < front_kept.tuples.len() {
                assert(kept.tuples[i] == front_kept.tuples[i]);
                let c = choose|c: int|
                    0 <= c < front.tuples.len() && front.tuples[c] == front_kept.tuples[i];
                assert(group.tuples[c] == kept.tuples[i]);
            } else {
                assert(group.tuples[n - 1] == kept.tuples[i]);
            }
        }
        assert forall|i: int|
            0 <= i < group.tuples.len() && (#[trigger] group.tuples[i]).live(
                now,
            ) implies kept.tuples.contains(group.tuples[i]) by {
            if i < n - 1 {
                assert(front.tuples[i].live(now));
                let c = choose|c: int|
                    0 <= c < front_kept.tuples.len() && front_kept.tuples[c] == front.tuples[i];
                assert(kept.tuples[c] == group.tuples[i]);
            } else {
                assert(kept.tuples[kept.tuples.len() - 1] == group.tuples[i]);
            }
        }
        assert forall|i: int, j: int| 0 <= i < j < kept.tuples.len() implies !(
        #[trigger] kept.tuples[i]).same_record(#[trigger] kept.tuples[j]) by {
            if j < front_kept.tuples.len() {
                assert(kept.tuples[i] == front_kept.tuples[i]);
                assert(kept.tuples[j] == front_kept.tuples[j]);
            } else {
                assert(kept.tuples[i] == front_kept.tuples[i]);
                let c = choose|c: int|
                    0 <= c < front.tuples.len() && front.tuples[c] == front_kept.tuples[i];
                lemma_group_distinct(group, c, n - 1);
            }
        }
        assert forall|i: int| 0 <= i < kept.tuples.len() implies (
        #[trigger] kept.tuples[i]).data.rtype() == kept.rtype by {
            let c = choose|c: int| 0 <= c < group.tuples.len() && group.tuples[c] == kept.tuples[i];
            assert(group.tuples[c].data.rtype() == group.rtype);
        }
    }
}

/// Counting a prefix of the groups never gives more than counting them all.
pub proof fn lemma_count_prefix(groups: Seq<Group>, k: int)
    requires
        0 <= k <= groups.len(),
    ensures
        count_tuples(groups.take(k)) <= count_tuples(groups),
    decreases groups.len() - k,
{
    if k == groups.len() {
        assert(groups.take(k) =~= groups);
    } else {
        lemma_count_take(groups, k);
        lemma_count_prefix(groups, k + 1);
    }
}

/// Where there is a tuple there is an earliest expiry, and it is no later
/// than the expiry of any tuple.
pub proof fn lemma_earliest_exists(groups: Seq<Group>, t: u64)
    requires
        expires_at(groups, t),
    ensures
        is_earliest(groups, earliest(groups)),
        earliest(groups) <= t,
    decreases t,
{
    if none_before(groups, t) {
        lemma_earliest_unique(groups, t);
    } else {
        let (g, i) = choose|g: int, i: int|
            0 <= g < groups.len() && 0 <= i < groups[g].tuples.len() && !((
            #[trigger] groups[g].tuples[i]).expires >= t);
        lemma_earliest_exists(groups, groups[g].tuples[i].expires);
    }
}

/// A positive count means that there is an earliest expiry.
pub proof fn lemma_earliest_of_some(groups: Seq<Group>)
    requires
        count_tuples(groups) > 0,
    ensures
        is_earliest(groups, earliest(groups)),
{
    lemma_count_positive(groups);
    let g = choose|g: int| 0 <= g < groups.len() && (#[trigger] groups[g]).tuples.len() > 0;
    assert(groups[g].tuples[0].expires == groups[g].tuples[0].expires);
    lemma_earliest_exists(groups, groups[g].tuples[0].expires);
}

/// A well-formed domain has one group of a type at most.
pub proof fn lemma_group_index_unique(domain: Domain, rtype: RecordType, g: int)
    requires
        domain.wf(),
        domain.group_at(rtype, g),
    ensures
        domain.has_group(rtype),
        domain.group_index(rtype) == g,
{
    let h = domain.group_index(rtype);
    assert(domain.group_at(rtype, h));
    if h < g {
        assert(domain.groups[h].rtype != domain.groups[g].rtype);
    } else if g < h {
        assert(domain.groups[g].rtype != domain.groups[h].rtype);
    }
}

/// A domain of a single tuple is well formed and files under that tuple's
/// expiry, which is the earliest there is.
pub proof fn lemma_domain_single(tuple: Tuple, now: u64)
    ensures
        Domain::single(tuple, now).wf(),
        Domain::single(tuple, now).exact(),
        Domain::single(tuple, now).count() == 1,
{
    let domain = Domain::single(tuple, now);
    assert(domain.groups.drop_last() =~= Seq::<Group>::empty());
    assert(count_tuples(domain.groups.drop_last()) == 0);
    assert(domain.groups[0].tuples[0].expires == tuple.expires);
}

/// Inserting a tuple keeps a domain well formed; the count grows by one
/// unless the record was already stored.
pub proof fn lemma_domain_insert(domain: Domain, tuple: Tuple, now: u64)
    requires
        domain.wf(),
    ensures
        domain.insert(tuple, now).wf(),
        domain.insert(tuple, now).count() == domain.count() + if domain.holds(tuple) {
            0nat
        } else {
            1nat
        },
{
    let rtype = tuple.data.rtype();
    let next = domain.insert(tuple, now);
    let (g0, i0) = choose|g: int, i: int|
        0 <= g < domain.groups.len() && 0 <= i < domain.groups[g].tuples.len() && (
        #[trigger] domain.groups[g].tuples[i]).expires == domain.next_expiry;
    if !domain.has_group(rtype) {
        let fresh = Group { rtype, tuples: seq![tuple] };
        let n = domain.groups.len() as int;
        lemma_count_push(domain.groups, fresh);
        assert forall|g: int, h: int| 0 <= g < h < next.groups.len() implies (
        #[trigger] next.groups[g]).rtype != (#[trigger] next.groups[h]).rtype by {
            if h == n {
                assert(!domain.group_at(rtype, g));
            }
        }
        if next.next_expiry == tuple.expires {
            assert(next.groups[n].tuples[0].expires == next.next_expiry);
        } else {
            assert(next.groups[g0].tuples[i0].expires == next.next_expiry);
        }
    } else {
        let g = domain.group_index(rtype);
        assert(domain.group_at(rtype, g));
        let group = domain.groups[g];
        let after = group.insert(tuple);
        lemma_group_insert(group, tuple);
        lemma_count_update(domain.groups, g, after);
        let n = group.tuples.len() as int;
        if domain.holds(tuple) && domain.stored(tuple).expires == domain.next_expiry {
            let single = seq![after];
            assert(single.drop_last() =~= Seq::<Group>::empty());
            assert(count_tuples(single.drop_last()) == 0);
            lemma_earliest_of_some(single);
            let (a, b) = choose|a: int, b: int|
                0 <= a < single.len() && 0 <= b < single[a].tuples.len() && (
                #[trigger] single[a].tuples[b]).expires == earliest(single);
            assert(next.groups[g].tuples[b].expires == next.next_expiry);
        } else if next.next_expiry == tuple.expires {
            assert(next.groups[g].tuples[after.tuples.len() - 1].expires == next.next_expiry);
        } else if g0 != g {
            assert(next.groups[g0].tuples[i0].expires == next.next_expiry);
        } else if group.holds(tuple) {
            let p = group.position(tuple);
            assert(group.holds_at(tuple, p));
            let at = if i0 == n - 1 {
                p
            } else {
                i0
            };
            assert(next.groups[g].tuples[at].expires == next.next_expiry);
        } else {
            assert(next.groups[g].tuples[i0].expires == next.next_expiry);
        }
    }
}

/// After a group with tuples, the earliest expiry is the earlier of what it
/// was before and the group's own; before any tuple, it is the group's own.
pub proof fn lemma_earliest_push(groups: Seq<Group>, group: Group, t: u64, m: u64)
    requires
        is_earliest(seq![group], t),
        count_tuples(groups) == 0 || is_earliest(groups, m),
    ensures
        count_tuples(groups) == 0 ==> is_earliest(groups.push(group), t),
        count_tuples(groups) > 0 ==> is_earliest(groups.push(group), earlier(m, t)),
{
    let single = seq![group];
    let all = groups.push(group);
    let n = groups.len() as int;
    let (a, b) = choose|a: int, b: int|
        0 <= a < single.len() && 0 <= b < single[a].tuples.len() && (
        #[trigger] single[a].tuples[b]).expires == t;
    assert(all[n].tuples[b].expires == t);
    lemma_count_positive(groups);
    if count_tuples(groups) == 0 {
        assert forall|g: int, i: int|
            0 <= g < all.len() && 0 <= i < all[g].tuples.len() implies (
        #[trigger] all[g].tuples[i]).expires >= t by {
            if g < n {
                assert(groups[g].tuples.len() == 0);
            } else {
                assert(single[0].tuples[i].expires >= t);
            }
        }
    } else {
        let (c, d) = choose|c: int, d: int|
            0 <= c < groups.len() && 0 <= d < groups[c].tuples.len() && (
            #[trigger] groups[c].tuples[d]).expires == m;
        assert(all[c].tuples[d].expires == m);
        assert forall|g: int, i: int|
            0 <= g < all.len() && 0 <= i < all[g].tuples.len() implies (
        #[trigger] all[g].tuples[i]).expires >= earlier(m, t) by {
            if g < n {
                assert(groups[g].tuples[i].expires >= m);
            } else {
                assert(single[0].tuples[i].expires >= t);
            }
        }
    }
}

/// A group without tuples changes neither the count nor the earliest expiry.
pub proof fn lemma_earliest_push_empty(groups: Seq<Group>, group: Group, m: u64)
    requires
        group.tuples.len() == 0,
        count_tuples(groups) == 0 || is_earliest(groups, m),
    ensures
        count_tuples(groups.push(group)) == count_tuples(groups),
        count_tuples(groups) > 0 ==> is_earliest(groups.push(group), m),
{
    let all = groups.push(group);
    lemma_count_push(groups, group);
    lemma_count_positive(groups);
    if count_tuples(groups) > 0 {
        let (c, d) = choose|c: int, d: int|
            0 <= c < groups.len() && 0 <= d < groups[c].tuples.len() && (
            #[trigger] groups[c].tuples[d]).expires == m;
        assert(all[c].tuples[d].expires == m);
        assert forall|g: int, i: int|
            0 <= g < all.len() && 0 <= i < all[g].tuples.len() implies (
        #[trigger] all[g].tuples[i]).expires >= m by {
            assert(groups[g].tuples[i].expires >= m);
        }
    }
}

/// Groups that are each no larger count no more; one that is smaller makes
/// the count smaller.
pub proof fn lemma_count_shrink(small: Seq<Group>, large: Seq<Group>)
    requires
        small.len() == large.len(),
        forall|g: int|
            0 <= g < small.len() ==> (#[trigger] small[g]).tuples.len() <= large[g].tuples.len(),
    ensures
        count_tuples(small) <= count_tuples(large),
        (exists|g: int| 0 <= g < small.len() && (#[trigger] small[g]).tuples.len() < large[g].tuples.len())
            ==> count_tuples(small) < count_tuples(large),
    decreases small.len(),
{
    if small.len() > 0 {
        let n = small.len() as int;
        assert forall|g: int| 0 <= g < small.drop_last().len() implies (
        #[trigger] small.drop_last()[g]).tuples.len() <= large.drop_last()[g].tuples.len() by {
            assert(small[g].tuples.len() <= large[g].tuples.len());
        }
        lemma_count_shrink(small.drop_last(), large.drop_last());
        assert(small[n - 1].tuples.len() <= large[n - 1].tuples.len());
        if exists|g: int|
            0 <= g < small.len() && (#[trigger] small[g]).tuples.len() < large[g].tuples.len() {
            let g = choose|g: int|
                0 <= g < small.len() && (#[trigger] small[g]).tuples.len() < large[g].tuples.len();
            if g < n - 1 {
                assert(small.drop_last()[g].tuples.len() < large.drop_last()[g].tuples.len());
            }
        }
    }
}

/// Filtering drops at least the element that fails the test.
pub proof fn lemma_filter_drops(tuples: Seq<Tuple>, pred: spec_fn(Tuple) -> bool, i: int)
    requires
        0 <= i < tuples.len(),
        !pred(tuples[i]),
    ensures
        tuples.filter(pred).len() < tuples.len(),
    decreases tuples.len(),
{
    let front = tuples.drop_last();
    assert(front.push(tuples.last()) =~= tuples);
    front.lemma_filter_push(tuples.last(), pred);
    front.lemma_filter_len(pred);
    if i < tuples.len() - 1 {
        lemma_filter_drops(front, pred, i);
    }
}

/// Expiring leaves live tuples only and never adds one. If any tuple is
/// left, the domain is well formed and filed under its earliest expiry. A
/// domain that was due, its `next_expiry` not in the future, loses a tuple.
pub proof fn lemma_domain_expire(domain: Domain, now: u64)
    requires
        domain.wf(),
    ensures
        domain.expire(now).count() <= domain.count(),
        domain.next_expiry <= now ==> domain.expire(now).count() < domain.count(),
        domain.expire(now).count() > 0 ==> domain.expire(now).wf() && domain.expire(now).exact()
            && domain.expire(now).next_expiry > now,
        forall|g: int, i: int|
            0 <= g < domain.expire(now).groups.len() && 0 <= i < domain.expire(
                now,
            ).groups[g].tuples.len() ==> (#[trigger] domain.expire(now).groups[g].tuples[i]).live(
                now,
            ),
{
    let swept = domain.expire(now);
    assert forall|g: int| 0 <= g < swept.groups.len() implies (#[trigger] swept.groups[g]).wf()
        && swept.groups[g].tuples.len() <= domain.groups[g].tuples.len() by {
        assert(domain.groups[g].wf());
        lemma_group_expire(domain.groups[g], now);
    }
    assert forall|g: int, i: int|
        0 <= g < swept.groups.len() && 0 <= i < swept.groups[g].tuples.len() implies (
    #[trigger] swept.groups[g].tuples[i]).live(now) by {
        assert(domain.groups[g].wf());
        lemma_group_expire(domain.groups[g], now);
    }
    lemma_count_shrink(swept.groups, domain.groups);
    if domain.next_expiry <= now {
        let (g0, i0) = choose|g: int, i: int|
            0 <= g < domain.groups.len() && 0 <= i < domain.groups[g].tuples.len() && (
            #[trigger] domain.groups[g].tuples[i]).expires == domain.next_expiry;
        lemma_filter_drops(domain.groups[g0].tuples, |t: Tuple| t.live(now), i0);
        assert(swept.groups[g0].tuples.len() < domain.groups[g0].tuples.len());
    }
    if swept.count() > 0 {
        lemma_earliest_of_some(swept.groups);
        let (a, b) = choose|a: int, b: int|
            0 <= a < swept.groups.len() && 0 <= b < swept.groups[a].tuples.len() && (
            #[trigger] swept.groups[a].tuples[b]).expires == swept.next_expiry;
        assert(swept.groups[a].tuples[b].live(now));
        assert forall|g: int, h: int| 0 <= g < h < swept.groups.len() implies (
        #[trigger] swept.groups[g]).rtype != (#[trigger] swept.groups[h]).rtype by {
            assert(domain.groups[g].rtype != domain.groups[h].rtype);
        }
    }
}

/// The total is the count under any one name plus the total of the rest.
pub proof fn lemma_total_remove(domains: Map<Name, Domain>, name: Name)
    requires
        domains.dom().finite(),
        domains.contains_key(name),
    ensures
        total_size(domains) == domains[name].count() + total_size(domains.remove(name)),
    decreases domains.dom().len(),
{
    let picked = domains.dom().choose();
    if picked != name {
        lemma_total_remove(domains.remove(picked), name);
        lemma_total_remove(domains.remove(name), picked);
        assert(domains.remove(picked).remove(name) =~= domains.remove(name).remove(picked));
    }
}

/// Storing a domain under a name exchanges what that name counted before
/// for what it counts now.
pub proof fn lemma_total_insert(domains: Map<Name, Domain>, name: Name, domain: Domain)
    requires
        domains.dom().finite(),
    ensures
        domains.contains_key(name) ==> total_size(domains.insert(name, domain))
            + domains[name].count() == total_size(domains) + domain.count(),
        !domains.contains_key(name) ==> total_size(domains.insert(name, domain)) == total_size(
            domains,
        ) + domain.count(),
{
    lemma_total_remove(domains.insert(name, domain), name);
    assert(domains.insert(name, domain).remove(name) =~= domains.remove(name));
    if domains.contains_key(name) {
        lemma_total_remove(domains, name);
    } else {
        assert(domains.remove(name) =~= domains);
    }
}

/// A step of the expiry pass on a domain that is due continues the pass.
pub proof fn lemma_expiring_step(start: Cache, now: u64, mid: Cache, next: Cache, name: Name)
    requires
        start.wf(),
        mid.wf(),
        start.expiring(now, mid),
        mid.domains.contains_key(name),
        mid.domains[name].next_expiry <= now,
        next.desired_size == mid.desired_size,
        next.domains == if mid.domains[name].expire(now).count() > 0 {
            mid.domains.insert(name, mid.domains[name].expire(now))
        } else {
            mid.domains.remove(name)
        },
    ensures
        start.expiring(now, next),
{
    assert(start.domains.contains_key(name));
    lemma_domain_expire(start.domains[name], now);
    assert(mid.domains[name].wf());
    assert(mid.domains[name] == start.domains[name]);
    assert forall|other: Name| #[trigger] next.domains.contains_key(other) implies start.domains.contains_key(
        other,
    ) && (next.domains[other] == start.domains[other] || (start.domains[other].next_expiry <= now
        && next.domains[other] == start.domains[other].expire(now))) by {
        if other != name {
            assert(mid.domains.contains_key(other));
        }
    }
    assert forall|other: Name| #[trigger] start.gone(next, other) implies start.domains[other].next_expiry
        <= now && start.domains[other].expire(now).count() == 0 by {
        if other != name {
            assert(start.gone(mid, other));
        }
    }
}

/// When no domain is due any more, the expiry pass has done its work.
pub proof fn lemma_expiring_done(start: Cache, now: u64, mid: Cache)
    requires
        start.wf(),
        mid.wf(),
        start.expiring(now, mid),
        forall|name: Name| #[trigger]
            mid.domains.contains_key(name) ==> mid.domains[name].next_expiry > now,
    ensures
        mid == start.expired(now),
{
    let done = start.expired(now);
    assert forall|name: Name| #[trigger]
        mid.domains.contains_key(name) == done.domains.contains_key(name) by {
        if mid.domains.contains_key(name) {
            assert(mid.domains[name].wf());
            assert(start.domains.contains_key(name));
        }
        if done.domains.contains_key(name) && !mid.domains.contains_key(name) {
            assert(start.gone(mid, name));
        }
    }
    assert forall|name: Name| #[trigger] mid.domains.contains_key(name) implies mid.domains[name]
        == done.domains[name] by {
        assert(mid.domains[name].wf());
        assert(start.domains.contains_key(name));
        assert(start.domains[name].wf());
        lemma_domain_expire(start.domains[name], now);
    }
    assert(mid.domains =~= done.domains);
}

/// Deleting a domain that was read no later than any other continues the
/// eviction pass, provided the size was above the desired size.
pub proof fn lemma_evicting_step(start: Cache, mid: Cache, last: Name, next: Cache, name: Name)
    requires
        mid.domains.dom().finite(),
        start.evicting(mid, last),
        mid.current_size() > start.desired_size,
        mid.domains.contains_key(name),
        forall|other: Name| #[trigger]
            mid.domains.contains_key(other) ==> mid.domains[name].last_read
                <= mid.domains[other].last_read,
        next.desired_size == mid.desired_size,
        next.domains == mid.domains.remove(name),
    ensures
        start.evicting(next, name),
        next.current_size() + mid.domains[name].count() == mid.current_size(),
{
    lemma_total_remove(mid.domains, name);
    assert(start.domains.contains_key(name) && start.domains[name] == mid.domains[name]);
    assert(start.gone(next, name));
    assert forall|kept: Name, lost: Name|
        #![trigger next.domains.contains_key(kept), start.gone(next, lost)]
        next.domains.contains_key(kept) && start.gone(next, lost) implies start.domains[lost].last_read
        <= start.domains[kept].last_read by {
        assert(mid.domains.contains_key(kept));
        if lost != name {
            assert(start.gone(mid, lost));
        }
    }
    assert forall|lost: Name| #[trigger] start.gone(next, lost) implies start.domains[lost].last_read
        <= start.domains[name].last_read by {
        if lost != name {
            assert(start.gone(mid, lost));
            assert(mid.domains.contains_key(name));
        }
    }
}

/// A part of what is stored counts no more tuples than the whole.
pub proof fn lemma_total_part(part: Map<Name, Domain>, whole: Map<Name, Domain>)
    requires
        whole.dom().finite(),
        forall|name: Name| #[trigger]
            part.contains_key(name) ==> whole.contains_key(name) && part[name] == whole[name],
    ensures
        part.dom().finite(),
        total_size(part) <= total_size(whole),
    decreases whole.dom().len(),
{
    if whole.dom().len() == 0 {
        assert forall|name: Name| !part.dom().contains(name) by {
            if part.contains_key(name) {
                assert(whole.dom().contains(name));
            }
        }
        assert(part.dom() =~= Set::<Name>::empty());
    } else {
        let picked = whole.dom().choose();
        assert forall|name: Name| #[trigger]
            part.remove(picked).contains_key(name) implies whole.remove(picked).contains_key(name)
            && part.remove(picked)[name] == whole.remove(picked)[name] by {
            assert(part.contains_key(name));
        }
        lemma_total_part(part.remove(picked), whole.remove(picked));
        lemma_total_remove(whole, picked);
        if part.contains_key(picked) {
            assert(part.dom() =~= part.remove(picked).dom().insert(picked));
            lemma_total_remove(part, picked);
        } else {
            assert(part.remove(picked) =~= part);
        }
    }
}

/// Whether a domain holds a record does not depend on the expiry that is
/// asked with.
pub proof fn lemma_holds_any_expiry(domain: Domain, a: Tuple, b: Tuple)
    requires
        a.same_record(b),
    ensures
        domain.holds(a) == domain.holds(b),
{
    if domain.has_group(a.data.rtype()) {
        let group = domain.groups[domain.group_index(a.data.rtype())];
        if group.holds(a) {
            assert(group.holds_at(b, group.position(a)));
        }
        if group.holds(b) {
            assert(group.holds_at(a, group.position(b)));
        }
    }
}

} // verus!
