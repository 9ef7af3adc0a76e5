//! Deep merge of two mappings.

use crate::keys::{
    fallback_slots, key_order, lemma_fallback_slots, members, own_slots, slot_order, slots_get,
    slots_len,
};
use crate::value::{
    has_key, lemma_position_of, lookup, unique_keys, Mapping, Tree, Value,
};
use vstd::prelude::*;

verus! {

/// The key under which a document names the documents that it extends:
/// the plain string `extend`. A tagged string of the same text is a key
/// like any other.
pub open spec fn directive_key() -> Tree {
    Tree::String("extend"@)
}

/// What the fallback holds under a key: its value, or null where it has none.
pub open spec fn fallback_value(fallback: Seq<(Tree, Tree)>, key: Tree) -> Tree {
    match lookup(fallback, key) {
        Some(value) => value,
        None => Tree::Null,
    }
}

/// One key's value after a merge: two mappings merge, a null defers to the
/// fallback, and anything else stands as it is.
pub open spec fn merged_value(default: Tree, value: Tree) -> Tree
    decreases value, 0int,
{
    match (default, value) {
        (Tree::Mapping(d), Tree::Mapping(v)) => Tree::Mapping(merged_mapping(v, d)),
        (_, Tree::Null) => default,
        _ => value,
    }
}

/// The overriding mapping's entries after a merge, in their order and
/// without the directive.
pub open spec fn merged_own(own: Seq<(Tree, Tree)>, fallback: Seq<(Tree, Tree)>) -> Seq<
    (Tree, Tree),
>
    decreases own, 0int,
{
    if own.len() == 0 {
        Seq::empty()
    } else {
        let rest = merged_own(own.drop_last(), fallback);
        let entry = own.last();
        if entry.0 == directive_key() {
            rest
        } else {
            rest.push((entry.0, merged_value(fallback_value(fallback, entry.0), entry.1)))
        }
    }
}

/// The fallback's entries whose key the overriding mapping lacks, in their
/// order and without the directive.
pub open spec fn inherited(own: Seq<(Tree, Tree)>, fallback: Seq<(Tree, Tree)>) -> Seq<
    (Tree, Tree),
>
    decreases fallback.len(),
{
    if fallback.len() == 0 {
        Seq::empty()
    } else {
        let rest = inherited(own, fallback.drop_last());
        let entry = fallback.last();
        if entry.0 == directive_key() || has_key(own, entry.0) {
            rest
        } else {
            rest.push(entry)
        }
    }
}

/// The merge of two mappings: the overriding mapping's keys first, then the
/// keys that only the fallback has.
pub open spec fn merged_mapping(own: Seq<(Tree, Tree)>, fallback: Seq<(Tree, Tree)>) -> Seq<
    (Tree, Tree),
>
    decreases own, 1int,
{
    merged_own(own, fallback) + inherited(own, fallback)
}

/// The key that a slot names.
pub open spec fn slot_key(
    own: Seq<(Tree, Tree)>,
    fallback: Seq<(Tree, Tree)>,
    slot: (bool, usize),
) -> Tree {
    if slot.0 {
        fallback[slot.1 as int].0
    } else {
        own[slot.1 as int].0
    }
}

/// The entry that a merge makes for a slot, if it makes one.
pub open spec fn slot_entry(
    own: Seq<(Tree, Tree)>,
    fallback: Seq<(Tree, Tree)>,
    slot: (bool, usize),
) -> Option<(Tree, Tree)> {
    let key = slot_key(own, fallback, slot);
    if key == directive_key() {
        None
    } else if slot.0 {
        Some(fallback[slot.1 as int])
    } else {
        Some((key, merged_value(fallback_value(fallback, key), own[slot.1 as int].1)))
    }
}

/// The entries that a merge makes for a sequence of slots.
pub open spec fn gathered(
    own: Seq<(Tree, Tree)>,
    fallback: Seq<(Tree, Tree)>,
    slots: Seq<(bool, usize)>,
) -> Seq<(Tree, Tree)>
    decreases slots.len(),
{
    if slots.len() == 0 {
        Seq::empty()
    } else {
        let rest = gathered(own, fallback, slots.drop_last());
        match slot_entry(own, fallback, slots.last()) {
            Some(entry) => rest.push(entry),
            None => rest,
        }
    }
}

proof fn lemma_gathered_concat(
    own: Seq<(Tree, Tree)>,
    fallback: Seq<(Tree, Tree)>,
    first: Seq<(bool, usize)>,
    second: Seq<(bool, usize)>,
)
    ensures
        gathered(own, fallback, first + second) == gathered(own, fallback, first) + gathered(
            own,
            fallback,
            second,
        ),
    decreases second.len(),
{
    if second.len() == 0 {
        assert(first + second =~= first);
        assert(gathered(own, fallback, first) + gathered(own, fallback, second) =~= gathered(
            own,
            fallback,
            first,
        ));
    } else {
        lemma_gathered_concat(own, fallback, first, second.drop_last());
        assert((first + second).drop_last() =~= first + second.drop_last());
        assert((first + second).last() == second.last());
        let rest = gathered(own, fallback, first + second.drop_last());
        match slot_entry(own, fallback, second.last()) {
            Some(entry) => {
                assert(rest.push(entry) =~= gathered(own, fallback, first) + gathered(
                    own,
                    fallback,
                    second,
                ));
            },
            None => {},
        }
    }
}

proof fn lemma_gathered_own(own: Seq<(Tree, Tree)>, fallback: Seq<(Tree, Tree)>, n: nat)
    requires
        n <= own.len() <= usize::MAX,
    ensures
        gathered(own, fallback, own_slots(n)) == merged_own(own.take(n as int), fallback),
    decreases n,
{
    let prefix = own.take(n as int);
    if n == 0 {
    } else {
        lemma_gathered_own(own, fallback, (n - 1) as nat);
        assert(own_slots(n).drop_last() =~= own_slots((n - 1) as nat));
        assert(own_slots(n).last() == (false, (n - 1) as usize));
        assert(prefix.drop_last() =~= own.take(n - 1));
        assert(prefix.last() == own[n - 1]);
    }
}

proof fn lemma_gathered_fallback(own: Seq<(Tree, Tree)>, fallback: Seq<(Tree, Tree)>, n: nat)
    requires
        n <= fallback.len() <= usize::MAX,
    ensures
        gathered(own, fallback, fallback_slots(own, fallback, n)) == inherited(
            own,
            fallback.take(n as int),
        ),
    decreases n,
{
    let prefix = fallback.take(n as int);
    if n == 0 {
    } else {
        lemma_gathered_fallback(own, fallback, (n - 1) as nat);
        assert(prefix.drop_last() =~= fallback.take(n - 1));
        assert(prefix.last() == fallback[n - 1]);
        let rest = fallback_slots(own, fallback, (n - 1) as nat);
        if !has_key(own, fallback[n - 1].0) {
            assert(rest.push((true, (n - 1) as usize)).drop_last() =~= rest);
        }
    }
}

/// Visiting the keys in the order of the slots gives the merge.
proof fn lemma_gathered_order(own: Seq<(Tree, Tree)>, fallback: Seq<(Tree, Tree)>)
    requires
        own.len() <= usize::MAX,
        fallback.len() <= usize::MAX,
    ensures
        gathered(own, fallback, slot_order(own, fallback)) == merged_mapping(own, fallback),
{
    lemma_gathered_concat(
        own,
        fallback,
        own_slots(own.len()),
        fallback_slots(own, fallback, fallback.len()),
    );
    lemma_gathered_own(own, fallback, own.len());
    lemma_gathered_fallback(own, fallback, fallback.len());
    assert(own.take(own.len() as int) =~= own);
    assert(fallback.take(fallback.len() as int) =~= fallback);
}

/// No two slots of a merge's order name the same key.
proof fn lemma_slot_keys_distinct(own: Seq<(Tree, Tree)>, fallback: Seq<(Tree, Tree)>)
    requires
        own.len() <= usize::MAX,
        fallback.len() <= usize::MAX,
        unique_keys(own),
        unique_keys(fallback),
    ensures
        forall|a: int, b: int|
            0 <= a < b < slot_order(own, fallback).len() ==> slot_key(
                own,
                fallback,
                #[trigger] slot_order(own, fallback)[a],
            ) != slot_key(own, fallback, #[trigger] slot_order(own, fallback)[b]),
{
    let order = slot_order(own, fallback);
    let tail = fallback_slots(own, fallback, fallback.len());
    lemma_fallback_slots(own, fallback, fallback.len());
    assert forall|a: int, b: int| 0 <= a < b < order.len() implies slot_key(
        own,
        fallback,
        #[trigger] order[a],
    ) != slot_key(own, fallback, #[trigger] order[b]) by {
        if b < own.len() {
        } else if a < own.len() {
            assert(order[b] == tail[b - own.len()]);
        } else {
            assert(order[a] == tail[a - own.len()]);
            assert(order[b] == tail[b - own.len()]);
        }
    }
}

/// A key that none of the slots names is not among the entries made for them.
proof fn lemma_gathered_fresh(
    own: Seq<(Tree, Tree)>,
    fallback: Seq<(Tree, Tree)>,
    slots: Seq<(bool, usize)>,
    key: Tree,
)
    requires
        forall|t: int| 0 <= t < slots.len() ==> slot_key(own, fallback, #[trigger] slots[t]) != key,
    ensures
        !has_key(gathered(own, fallback, slots), key),
    decreases slots.len(),
{
    if slots.len() > 0 {
        let front = slots.drop_last();
        assert forall|t: int| 0 <= t < front.len() implies slot_key(
            own,
            fallback,
            #[trigger] front[t],
        ) != key by {
            assert(front[t] == slots[t]);
        }
        lemma_gathered_fresh(own, fallback, front, key);
        let rest = gathered(own, fallback, front);
        let all = gathered(own, fallback, slots);
        assert(slot_key(own, fallback, slots[slots.len() - 1]) != key);
        if has_key(all, key) {
            let i = choose|i: int| 0 <= i < all.len() && all[i].0 == key;
            if i < rest.len() {
                assert(rest[i] == all[i]);
            }
        }
    }
}

fn is_directive(key: &Value) -> (answer: bool)
    ensures
        answer == (key@ == directive_key()),
{
    match key {
        Value::String(name) => *name == "extend".to_owned(),
        _ => false,
    }
}

/// Combines the value that a key has in the fallback with the value that it
/// has in the overriding mapping.
pub fn merge_value(default: &Value, value: &Value) -> (merged: Value)
    ensures
        merged@ == merged_value(default@, value@),
    decreases value, 0int,
{
    match value {
        Value::Mapping(own) => match default {
            Value::Mapping(fallback) => Value::Mapping(merge_mapping(own, fallback)),
            _ => value.clone(),
        },
        Value::Null => default.clone(),
        _ => value.clone(),
    }
}

/// Merges two mappings. The keys of `value_map` come first, in their order,
/// then the keys that only `default_map` has, in theirs; the directive key
/// is left out.
pub fn merge_mapping(value_map: &Mapping, default_map: &Mapping) -> (merged: Mapping)
    ensures
        merged@ == merged_mapping(value_map@, default_map@),
    decreases value_map, 1int,
{
    let order = key_order(value_map, default_map);
    let count = slots_len(&order);
    let own_len = value_map.len();
    let fallback_len = default_map.len();
    let mut result = Mapping::new();
    let mut k: usize = 0;
    proof {
        crate::keys::lemma_slot_order_in_range(value_map@, default_map@);
        lemma_slot_keys_distinct(value_map@, default_map@);
    }
    while k < count
        invariant
            k <= count,
            count == members(order).len(),
            members(order) == slot_order(value_map@, default_map@),
            own_len == value_map@.len(),
            fallback_len == default_map@.len(),
            result@ == gathered(value_map@, default_map@, members(order).take(k as int)),
            forall|t: int|
                0 <= t < members(order).len() ==> crate::keys::slot_in_range(
                    #[trigger] members(order)[t],
                    value_map@.len(),
                    default_map@.len(),
                ),
            forall|a: int, b: int|
                0 <= a < b < members(order).len() ==> slot_key(
                    value_map@,
                    default_map@,
                    #[trigger] members(order)[a],
                ) != slot_key(value_map@, default_map@, #[trigger] members(order)[b]),
        decreases count - k,
    {
        let ghost done = members(order).take(k as int);
        let ghost next = members(order).take(k + 1);
        proof {
            assert(next.drop_last() =~= done);
            assert(next.last() == members(order)[k as int]);
            let key = slot_key(value_map@, default_map@, members(order)[k as int]);
            assert forall|t: int| 0 <= t < done.len() implies slot_key(
                value_map@,
                default_map@,
                #[trigger] done[t],
            ) != key by {
                assert(done[t] == members(order)[t]);
            }
            lemma_gathered_fresh(value_map@, default_map@, done, key);
            lemma_position_of(result@, key);
        }
        match slots_get(&order, k) {
            Some(slot) => {
                if slot.0 {
                    let key = default_map.key_at(slot.1);
                    if !is_directive(key) {
                        result.insert(key.clone(), default_map.value_at(slot.1).clone());
                    }
                } else {
                    let key = value_map.key_at(slot.1);
                    let value = value_map.value_at(slot.1);
                    if !is_directive(key) {
                        let merged = match default_map.get(key) {
                            Some(default) => merge_value(default, value),
                            None => value.clone(),
                        };
                        result.insert(key.clone(), merged);
                    }
                }
            },
            None => {},
        }
        k += 1;
    }
    proof {
        assert(members(order).take(k as int) =~= members(order));
        lemma_gathered_order(value_map@, default_map@);
    }
    result
}

} // verus!
