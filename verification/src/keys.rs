//! The order in which a merge visits the keys of its two mappings.
//!
//! A key is named by a slot: `(false, i)` is the key of entry `i` of the
//! overriding mapping, `(true, j)` the key of entry `j` of the fallback.
//! The slots are collected in an `indexmap::IndexSet`, which keeps each item
//! once, at the place where it was first inserted.

use crate::value::{has_key, Mapping, Tree};
use indexmap::IndexSet;
use vstd::prelude::*;

verus! {

/// `indexmap::IndexSet`, of which nothing is known but what the wrappers
/// below say.
#[verifier::external_type_specification]
#[verifier::external_body]
#[verifier::reject_recursive_types(T)]
#[verifier::reject_recursive_types(S)]
pub struct ExIndexSet<T, S>(IndexSet<T, S>);

/// The items of a set of slots, in the order in which the set hands them out.
pub uninterp spec fn members(set: IndexSet<(bool, usize)>) -> Seq<(bool, usize)>;

/// `IndexSet::new`: a new set holds nothing.
#[verifier::external_body]
fn slots_new() -> (set: IndexSet<(bool, usize)>)
    ensures
        members(set) == Seq::<(bool, usize)>::empty(),
{
    IndexSet::new()
}

/// `IndexSet::insert`: an item that the set holds already leaves the set as
/// it is and gives `false`; any other item becomes the last one and gives
/// `true`.
#[verifier::external_body]
fn slots_insert(set: &mut IndexSet<(bool, usize)>, slot: (bool, usize)) -> (fresh: bool)
    ensures
        fresh == !members(*old(set)).contains(slot),
        members(*final(set)) == if fresh {
            members(*old(set)).push(slot)
        } else {
            members(*old(set))
        },
{
    set.insert(slot)
}

/// `IndexSet::len`: the number of items.
#[verifier::external_body]
pub(crate) fn slots_len(set: &IndexSet<(bool, usize)>) -> (n: usize)
    ensures
        n == members(*set).len(),
{
    set.len()
}

/// `IndexSet::get_index`: the item at a position below the length, and
/// nothing at any other position.
#[verifier::external_body]
pub(crate) fn slots_get(set: &IndexSet<(bool, usize)>, index: usize) -> (slot: Option<
    (bool, usize),
>)
    ensures
        slot == if index < members(*set).len() {
            Some(members(*set)[index as int])
        } else {
            None
        },
{
    set.get_index(index).copied()
}

/// The slots of the first `n` entries of the overriding mapping.
pub open spec fn own_slots(n: nat) -> Seq<(bool, usize)> {
    Seq::new(n, |i: int| (false, i as usize))
}

/// The slots of those among the first `n` fallback entries whose key the
/// overriding mapping lacks.
pub open spec fn fallback_slots(own: Seq<(Tree, Tree)>, fallback: Seq<(Tree, Tree)>, n: nat) -> Seq<
    (bool, usize),
>
    decreases n,
{
    if n == 0 || n > fallback.len() {
        Seq::empty()
    } else {
        let rest = fallback_slots(own, fallback, (n - 1) as nat);
        if has_key(own, fallback[n - 1].0) {
            rest
        } else {
            rest.push((true, (n - 1) as usize))
        }
    }
}

/// Every key of either mapping once: those of the overriding mapping in its
/// order, then those that only the fallback has, in its order.
pub open spec fn slot_order(own: Seq<(Tree, Tree)>, fallback: Seq<(Tree, Tree)>) -> Seq<
    (bool, usize),
> {
    own_slots(own.len()) + fallback_slots(own, fallback, fallback.len())
}

/// What a slot may be: a position in the mapping that it names.
pub open spec fn slot_in_range(slot: (bool, usize), own_len: nat, fallback_len: nat) -> bool {
    if slot.0 {
        slot.1 < fallback_len
    } else {
        slot.1 < own_len
    }
}

/// The slots taken from the fallback name entries of the fallback whose key
/// the overriding mapping lacks, each once and in the fallback's order.
pub proof fn lemma_fallback_slots(own: Seq<(Tree, Tree)>, fallback: Seq<(Tree, Tree)>, n: nat)
    requires
        n <= fallback.len() <= usize::MAX,
    ensures
        forall|k: int|
            0 <= k < fallback_slots(own, fallback, n).len() ==> {
                let slot = #[trigger] fallback_slots(own, fallback, n)[k];
                slot.0 && slot.1 < n && !has_key(own, fallback[slot.1 as int].0)
            },
        forall|a: int, b: int|
            0 <= a < b < fallback_slots(own, fallback, n).len() ==> (#[trigger] fallback_slots(
                own,
                fallback,
                n,
            )[a]).1 < (#[trigger] fallback_slots(own, fallback, n)[b]).1,
    decreases n,
{
    if n > 0 {
        lemma_fallback_slots(own, fallback, (n - 1) as nat);
        let rest = fallback_slots(own, fallback, (n - 1) as nat);
        let all = fallback_slots(own, fallback, n);
        assert forall|k: int| 0 <= k < all.len() implies {
            let slot = #[trigger] all[k];
            slot.0 && slot.1 < n && !has_key(own, fallback[slot.1 as int].0)
        } by {
            if k < rest.len() {
                assert(all[k] == rest[k]);
            }
        }
        assert forall|a: int, b: int| 0 <= a < b < all.len() implies (#[trigger] all[a]).1 < (
        #[trigger] all[b]).1 by {
            assert(all[a] == rest[a]);
            if b < rest.len() {
                assert(all[b] == rest[b]);
            }
        }
    }
}

/// Every slot of the order names an entry of the mapping that it speaks of.
pub proof fn lemma_slot_order_in_range(own: Seq<(Tree, Tree)>, fallback: Seq<(Tree, Tree)>)
    requires
        own.len() <= usize::MAX,
        fallback.len() <= usize::MAX,
    ensures
        forall|k: int|
            0 <= k < slot_order(own, fallback).len() ==> slot_in_range(
                #[trigger] slot_order(own, fallback)[k],
                own.len(),
                fallback.len(),
            ),
{
    lemma_fallback_slots(own, fallback, fallback.len());
}

/// Collects the keys of both mappings, each once, in the order of a merge.
pub(crate) fn key_order(own: &Mapping, fallback: &Mapping) -> (set: IndexSet<(bool, usize)>)
    ensures
        members(set) == slot_order(own@, fallback@),
{
    let mut set = slots_new();
    let own_len = own.len();
    let fallback_len = fallback.len();
    let mut i: usize = 0;
    while i < own_len
        invariant
            i <= own_len,
            own_len == own@.len(),
            members(set) == own_slots(i as nat),
        decreases own_len - i,
    {
        let ghost before = members(set);
        assert(!before.contains((false, i))) by {
            if before.contains((false, i)) {
                let k = choose|k: int| 0 <= k < before.len() && before[k] == (false, i);
                assert(before[k].1 == k as usize);
            }
        }
        slots_insert(&mut set, (false, i));
        i += 1;
        assert(members(set) =~= own_slots(i as nat));
    }
    let mut j: usize = 0;
    while j < fallback_len
        invariant
            j <= fallback_len,
            own_len == own@.len(),
            fallback_len == fallback@.len(),
            members(set) == own_slots(own_len as nat) + fallback_slots(own@, fallback@, j as nat),
        decreases fallback_len - j,
    {
        let ghost before = members(set);
        let ghost tail = fallback_slots(own@, fallback@, j as nat);
        proof {
            lemma_fallback_slots(own@, fallback@, j as nat);
            crate::value::lemma_position_of(own@, fallback@[j as int].0);
        }
        let slot = match own.position(fallback.key_at(j)) {
            Some(at) => (false, at),
            None => (true, j),
        };
        proof {
            if !slot.0 {
                assert(before.contains(slot)) by {
                    assert(before[slot.1 as int] == slot);
                }
            } else {
                assert(!before.contains(slot)) by {
                    if before.contains(slot) {
                        let k = choose|k: int| 0 <= k < before.len() && before[k] == slot;
                        if k >= own_len {
                            assert(before[k] == tail[k - own_len]);
                        }
                    }
                }
            }
        }
        slots_insert(&mut set, slot);
        j += 1;
        assert(members(set) =~= own_slots(own_len as nat) + fallback_slots(
            own@,
            fallback@,
            j as nat,
        ));
    }
    set
}

} // verus!
