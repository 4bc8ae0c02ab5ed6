//! Values stored in numbered slots, one slot to a name, read as a map from
//! names to values.

use crate::model::{Domain, Name};
use vstd::prelude::*;

verus! {

/// A name with what is stored under it.
pub struct Stored<V> {
    pub name: Name,
    pub value: V,
}

/// A slot of a cache: free, or taken by a name and what is stored under it.
pub type Slot = Option<Stored<Domain>>;

/// The slot that holds `value` under `name`.
pub open spec fn taken<V>(name: Name, value: V) -> Option<Stored<V>> {
    Some(Stored { name, value })
}

/// The slot at `i` is taken by `name`.
pub open spec fn taken_by<V>(slots: Seq<Option<Stored<V>>>, name: Name, i: int) -> bool {
    0 <= i < slots.len() && slots[i] is Some && slots[i].unwrap().name == name
}

/// The slot that is taken by `name`.
pub open spec fn slot_of<V>(slots: Seq<Option<Stored<V>>>, name: Name) -> int {
    choose|i: int| taken_by(slots, name, i)
}

/// No two slots are taken by the same name.
pub open spec fn names_distinct<V>(slots: Seq<Option<Stored<V>>>) -> bool {
    forall|i: int, j: int|
        0 <= i < j < slots.len() && (#[trigger] slots[i]) is Some && (#[trigger] slots[j]) is Some
            ==> slots[i].unwrap().name != slots[j].unwrap().name
}

/// What the slots store, by name.
pub open spec fn domains_of<V>(slots: Seq<Option<Stored<V>>>) -> Map<Name, V> {
    Map::new(
        |name: Name| exists|i: int| taken_by(slots, name, i),
        |name: Name| slots[slot_of(slots, name)].unwrap().value,
    )
}

/// A name takes one slot at most, and that slot holds what is stored under
/// the name.
pub proof fn lemma_slot_unique<V>(slots: Seq<Option<Stored<V>>>, name: Name, i: int)
    requires
        names_distinct(slots),
        taken_by(slots, name, i),
    ensures
        domains_of(slots).contains_key(name),
        slot_of(slots, name) == i,
        domains_of(slots)[name] == slots[i].unwrap().value,
{
    let j = slot_of(slots, name);
    assert(taken_by(slots, name, j));
    if j < i {
        assert(slots[j].unwrap().name != slots[i].unwrap().name);
    } else if i < j {
        assert(slots[i].unwrap().name != slots[j].unwrap().name);
    }
}

/// Writing a value into the slot of its name, or into a free slot when
/// the name has none, stores it under that name and changes nothing else.
pub proof fn lemma_slots_set<V>(slots: Seq<Option<Stored<V>>>, i: int, name: Name, value: V)
    requires
        names_distinct(slots),
        0 <= i < slots.len(),
        slots[i] is Some ==> slots[i].unwrap().name == name,
        slots[i] is None ==> !domains_of(slots).contains_key(name),
    ensures
        names_distinct(slots.update(i, taken(name, value))),
        domains_of(slots.update(i, taken(name, value))) == domains_of(slots).insert(name, value),
{
    let next = slots.update(i, taken(name, value));
    assert forall|a: int, b: int|
        0 <= a < b < next.len() && (#[trigger] next[a]) is Some && (
        #[trigger] next[b]) is Some implies next[a].unwrap().name != next[b].unwrap().name by {
        if a == i {
            if slots[i] is Some {
                assert(slots[a].unwrap().name != slots[b].unwrap().name);
            } else {
                assert(!taken_by(slots, name, b));
            }
        } else if b == i {
            if slots[i] is Some {
                assert(slots[a].unwrap().name != slots[b].unwrap().name);
            } else {
                assert(!taken_by(slots, name, a));
            }
        } else {
            assert(slots[a].unwrap().name != slots[b].unwrap().name);
        }
    }
    assert(taken_by(next, name, i));
    lemma_slot_unique(next, name, i);
    assert forall|other: Name| #[trigger]
        domains_of(next).contains_key(other) == domains_of(slots).insert(
            name,
            value,
        ).contains_key(other) by {
        if other != name {
            if domains_of(next).contains_key(other) {
                let j = slot_of(next, other);
                assert(taken_by(next, other, j));
                assert(taken_by(slots, other, j));
            }
            if domains_of(slots).contains_key(other) {
                let j = slot_of(slots, other);
                assert(taken_by(slots, other, j));
                assert(taken_by(next, other, j));
            }
        }
    }
    assert forall|other: Name| #[trigger]
        domains_of(next).contains_key(other) implies domains_of(next)[other] == domains_of(
        slots,
    ).insert(name, value)[other] by {
        if other != name {
            let j = slot_of(next, other);
            assert(taken_by(next, other, j));
            assert(taken_by(slots, other, j));
            lemma_slot_unique(slots, other, j);
        }
    }
    assert(domains_of(next) =~= domains_of(slots).insert(name, value));
}

/// Appending a slot for a name that has none stores the value under that
/// name and changes nothing else.
pub proof fn lemma_slots_push<V>(slots: Seq<Option<Stored<V>>>, name: Name, value: V)
    requires
        names_distinct(slots),
        !domains_of(slots).contains_key(name),
    ensures
        names_distinct(slots.push(taken(name, value))),
        domains_of(slots.push(taken(name, value))) == domains_of(slots).insert(name, value),
{
    let wider = slots.push(None);
    assert forall|a: int, b: int|
        0 <= a < b < wider.len() && (#[trigger] wider[a]) is Some && (
        #[trigger] wider[b]) is Some implies wider[a].unwrap().name != wider[b].unwrap().name by {
        assert(slots[a].unwrap().name != slots[b].unwrap().name);
    }
    assert forall|other: Name| #[trigger]
        domains_of(wider).contains_key(other) == domains_of(slots).contains_key(other) by {
        if domains_of(wider).contains_key(other) {
            let j = slot_of(wider, other);
            assert(taken_by(wider, other, j));
            assert(taken_by(slots, other, j));
        }
        if domains_of(slots).contains_key(other) {
            let j = slot_of(slots, other);
            assert(taken_by(slots, other, j));
            assert(taken_by(wider, other, j));
        }
    }
    assert forall|other: Name| #[trigger]
        domains_of(wider).contains_key(other) implies domains_of(wider)[other] == domains_of(
        slots,
    )[other] by {
        let j = slot_of(wider, other);
        assert(taken_by(wider, other, j));
        assert(taken_by(slots, other, j));
        lemma_slot_unique(slots, other, j);
        lemma_slot_unique(wider, other, j);
    }
    assert(domains_of(wider) =~= domains_of(slots));
    lemma_slots_set(wider, slots.len() as int, name, value);
    assert(wider.update(slots.len() as int, taken(name, value)) =~= slots.push(
        taken(name, value),
    ));
}

/// Freeing a slot deletes what was stored under its name and changes
/// nothing else.
pub proof fn lemma_slots_clear<V>(slots: Seq<Option<Stored<V>>>, i: int)
    requires
        names_distinct(slots),
        0 <= i < slots.len(),
        slots[i] is Some,
    ensures
        names_distinct(slots.update(i, None)),
        domains_of(slots.update(i, None)) == domains_of(slots).remove(slots[i].unwrap().name),
{
    let next = slots.update(i, None);
    let name = slots[i].unwrap().name;
    assert forall|a: int, b: int|
        0 <= a < b < next.len() && (#[trigger] next[a]) is Some && (
        #[trigger] next[b]) is Some implies next[a].unwrap().name != next[b].unwrap().name by {
        assert(slots[a].unwrap().name != slots[b].unwrap().name);
    }
    assert(taken_by(slots, name, i));
    lemma_slot_unique(slots, name, i);
    assert forall|other: Name| #[trigger]
        domains_of(next).contains_key(other) == domains_of(slots).remove(name).contains_key(
            other,
        ) by {
        if domains_of(next).contains_key(other) {
            let j = slot_of(next, other);
            assert(taken_by(next, other, j));
            assert(taken_by(slots, other, j));
            lemma_slot_unique(slots, other, j);
        }
        if domains_of(slots).contains_key(other) && other != name {
            let j = slot_of(slots, other);
            assert(taken_by(slots, other, j));
            assert(taken_by(next, other, j));
        }
    }
    assert forall|other: Name| #[trigger]
        domains_of(next).contains_key(other) implies domains_of(next)[other] == domains_of(
        slots,
    ).remove(name)[other] by {
        let j = slot_of(next, other);
        assert(taken_by(next, other, j));
        assert(taken_by(slots, other, j));
        lemma_slot_unique(slots, other, j);
        lemma_slot_unique(next, other, j);
    }
    assert(domains_of(next) =~= domains_of(slots).remove(name));
}

} // verus!
