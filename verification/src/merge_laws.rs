//! What holds of every merge.

use crate::merge::{
    directive_key, fallback_value, inherited, merged_mapping, merged_own, merged_value,
};
use crate::value::{
    has_key, lemma_position_is, lemma_position_of, lookup, position_of, unique_keys, Tree,
};
use vstd::prelude::*;

verus! {

/// A mapping on which merging changes nothing: no key occurs twice, none is
/// the directive, and the same holds of every value that is a mapping.
pub open spec fn plain_entries(entries: Seq<(Tree, Tree)>) -> bool
    decreases entries,
{
    &&& unique_keys(entries)
    &&& forall|i: int|
        0 <= i < entries.len() ==> (#[trigger] entries[i]).0 != directive_key() && plain_value(
            entries[i].1,
        )
}

/// A value that is no mapping, or a mapping that is plain.
pub open spec fn plain_value(value: Tree) -> bool
    decreases value,
{
    match value {
        Tree::Mapping(entries) => plain_entries(entries),
        _ => true,
    }
}

/// Looking a key up in two runs of entries, one after the other.
pub proof fn lemma_lookup_concat(first: Seq<(Tree, Tree)>, second: Seq<(Tree, Tree)>, key: Tree)
    ensures
        has_key(first + second, key) <==> has_key(first, key) || has_key(second, key),
        lookup(first + second, key) == if has_key(first, key) {
            lookup(first, key)
        } else {
            lookup(second, key)
        },
{
    let all = first + second;
    lemma_position_of(first, key);
    lemma_position_of(second, key);
    let a = position_of(first, key);
    let b = position_of(second, key);
    if a < first.len() {
        assert forall|j: int| 0 <= j < a implies (#[trigger] all[j]).0 != key by {
            assert(all[j] == first[j]);
        }
        assert(all[a] == first[a]);
        lemma_position_is(all, key, a);
    } else {
        assert forall|j: int| 0 <= j < first.len() + b implies (#[trigger] all[j]).0 != key by {
            if j < first.len() {
                assert(all[j] == first[j]);
            } else {
                assert(all[j] == second[j - first.len()]);
            }
        }
        if b < second.len() {
            assert(all[first.len() + b] == second[b]);
        }
        lemma_position_is(all, key, first.len() + b);
    }
    lemma_position_of(all, key);
}

/// Looking a key up after one more entry was put at the end.
pub proof fn lemma_lookup_push(entries: Seq<(Tree, Tree)>, entry: (Tree, Tree), key: Tree)
    ensures
        has_key(entries.push(entry), key) <==> has_key(entries, key) || entry.0 == key,
        lookup(entries.push(entry), key) == if has_key(entries, key) {
            lookup(entries, key)
        } else if entry.0 == key {
            Some(entry.1)
        } else {
            None
        },
{
    let last = seq![entry];
    assert(entries.push(entry) =~= entries + last);
    lemma_lookup_concat(entries, last, key);
    lemma_position_of(last, key);
    if entry.0 == key {
        lemma_position_is(last, key, 0);
    } else {
        lemma_position_is(last, key, 1);
    }
}

/// What a key has among the overriding mapping's entries after a merge.
pub proof fn lemma_lookup_merged_own(own: Seq<(Tree, Tree)>, fallback: Seq<(Tree, Tree)>, key: Tree)
    ensures
        has_key(merged_own(own, fallback), key) <==> has_key(own, key) && key != directive_key(),
        key != directive_key() ==> lookup(merged_own(own, fallback), key) == match lookup(
            own,
            key,
        ) {
            Some(value) => Some(merged_value(fallback_value(fallback, key), value)),
            None => None,
        },
    decreases own.len(),
{
    lemma_position_of(own, key);
    lemma_position_of(merged_own(own, fallback), key);
    if own.len() > 0 {
        let front = own.drop_last();
        let entry = own.last();
        let rest = merged_own(front, fallback);
        lemma_lookup_merged_own(front, fallback, key);
        assert(own =~= front.push(entry));
        lemma_lookup_push(front, entry, key);
        if entry.0 != directive_key() {
            lemma_lookup_push(
                rest,
                (entry.0, merged_value(fallback_value(fallback, entry.0), entry.1)),
                key,
            );
        }
    }
}

/// What a key has among the entries that a merge takes from the fallback alone.
pub proof fn lemma_lookup_inherited(own: Seq<(Tree, Tree)>, fallback: Seq<(Tree, Tree)>, key: Tree)
    ensures
        has_key(inherited(own, fallback), key) <==> has_key(fallback, key) && !has_key(own, key)
            && key != directive_key(),
        lookup(inherited(own, fallback), key) == if has_key(own, key) || key == directive_key() {
            None
        } else {
            lookup(fallback, key)
        },
    decreases fallback.len(),
{
    lemma_position_of(fallback, key);
    lemma_position_of(inherited(own, fallback), key);
    if fallback.len() > 0 {
        let front = fallback.drop_last();
        let entry = fallback.last();
        let rest = inherited(own, front);
        lemma_lookup_inherited(own, front, key);
        assert(fallback =~= front.push(entry));
        lemma_lookup_push(front, entry, key);
        if !(entry.0 == directive_key() || has_key(own, entry.0)) {
            lemma_lookup_push(rest, entry, key);
        }
    }
}

/// The rule of a merge, key by key: a key that the overriding mapping has
/// keeps its place and gets the combination of both values; a key that only
/// the fallback has keeps the fallback's value.
pub proof fn law_merge_by_key(own: Seq<(Tree, Tree)>, fallback: Seq<(Tree, Tree)>, key: Tree)
    requires
        key != directive_key(),
    ensures
        lookup(merged_mapping(own, fallback), key) == match lookup(own, key) {
            Some(value) => Some(merged_value(fallback_value(fallback, key), value)),
            None => lookup(fallback, key),
        },
{
    lemma_lookup_concat(merged_own(own, fallback), inherited(own, fallback), key);
    lemma_lookup_merged_own(own, fallback, key);
    lemma_lookup_inherited(own, fallback, key);
    lemma_position_of(own, key);
}

/// A key that only the overriding mapping has keeps that mapping's value.
pub proof fn law_merge_only_in_override(
    own: Seq<(Tree, Tree)>,
    fallback: Seq<(Tree, Tree)>,
    key: Tree,
)
    requires
        key != directive_key(),
        has_key(own, key),
        !has_key(fallback, key),
    ensures
        lookup(merged_mapping(own, fallback), key) == lookup(own, key),
{
    law_merge_by_key(own, fallback, key);
    lemma_position_of(own, key);
    lemma_position_of(fallback, key);
}

/// A key that only the fallback has keeps the fallback's value.
pub proof fn law_merge_only_in_fallback(
    own: Seq<(Tree, Tree)>,
    fallback: Seq<(Tree, Tree)>,
    key: Tree,
)
    requires
        key != directive_key(),
        !has_key(own, key),
        has_key(fallback, key),
    ensures
        lookup(merged_mapping(own, fallback), key) == lookup(fallback, key),
{
    law_merge_by_key(own, fallback, key);
    lemma_position_of(own, key);
}

/// The keys of a merge are those of either mapping, but for the directive,
/// which no merge keeps.
pub proof fn law_merge_keys(own: Seq<(Tree, Tree)>, fallback: Seq<(Tree, Tree)>, key: Tree)
    ensures
        has_key(merged_mapping(own, fallback), key) <==> key != directive_key() && (has_key(
            own,
            key,
        ) || has_key(fallback, key)),
{
    lemma_lookup_concat(merged_own(own, fallback), inherited(own, fallback), key);
    lemma_lookup_merged_own(own, fallback, key);
    lemma_lookup_inherited(own, fallback, key);
}

proof fn lemma_inherited_nothing(own: Seq<(Tree, Tree)>, fallback: Seq<(Tree, Tree)>)
    requires
        forall|i: int| 0 <= i < fallback.len() ==> has_key(own, (#[trigger] fallback[i]).0),
    ensures
        inherited(own, fallback) == Seq::<(Tree, Tree)>::empty(),
    decreases fallback.len(),
{
    if fallback.len() > 0 {
        let front = fallback.drop_last();
        assert forall|i: int| 0 <= i < front.len() implies has_key(own, (#[trigger] front[i]).0) by {
            assert(front[i] == fallback[i]);
        }
        lemma_inherited_nothing(own, front);
        assert(has_key(own, fallback[fallback.len() - 1].0));
    }
}

proof fn lemma_merged_own_same(entries: Seq<(Tree, Tree)>, n: nat)
    requires
        plain_entries(entries),
        n <= entries.len(),
    ensures
        merged_own(entries.take(n as int), entries) == entries.take(n as int),
    decreases entries, n,
{
    let prefix = entries.take(n as int);
    if n > 0 {
        lemma_merged_own_same(entries, (n - 1) as nat);
        assert(prefix.drop_last() =~= entries.take(n - 1));
        let entry = entries[n - 1];
        assert(prefix.last() == entry);
        lemma_position_is(entries, entry.0, n - 1);
        lemma_merged_value_same(entry.1);
        assert(entries.take(n - 1).push(entry) =~= prefix);
    }
}

proof fn lemma_merged_value_same(value: Tree)
    requires
        plain_value(value),
    ensures
        merged_value(value, value) == value,
    decreases value, 0nat,
{
    match value {
        Tree::Mapping(entries) => {
            law_merge_idempotent(entries);
        },
        _ => {},
    }
}

/// Merging a mapping with itself gives the mapping back, where it holds no
/// directive, neither itself nor in a mapping nested in it as a value.
pub proof fn law_merge_idempotent(entries: Seq<(Tree, Tree)>)
    requires
        plain_entries(entries),
    ensures
        merged_mapping(entries, entries) == entries,
    decreases entries, entries.len() + 1,
{
    lemma_merged_own_same(entries, entries.len());
    assert(entries.take(entries.len() as int) =~= entries);
    lemma_inherited_nothing(entries, entries);
    assert(merged_own(entries, entries) + Seq::<(Tree, Tree)>::empty() =~= merged_own(
        entries,
        entries,
    ));
}

proof fn lemma_merged_own_unique(own: Seq<(Tree, Tree)>, fallback: Seq<(Tree, Tree)>)
    requires
        unique_keys(own),
    ensures
        unique_keys(merged_own(own, fallback)),
    decreases own.len(),
{
    if own.len() > 0 {
        let front = own.drop_last();
        let entry = own.last();
        let rest = merged_own(front, fallback);
        assert(unique_keys(front)) by {
            assert forall|i: int, j: int|
                0 <= i < front.len() && 0 <= j < front.len() && i != j implies front[i].0
                != front[j].0 by {
                assert(front[i] == own[i] && front[j] == own[j]);
            }
        }
        lemma_merged_own_unique(front, fallback);
        lemma_lookup_merged_own(front, fallback, entry.0);
        if has_key(front, entry.0) {
            let i = choose|i: int| 0 <= i < front.len() && front[i].0 == entry.0;
            assert(own[i].0 == own[own.len() - 1].0);
        }
        if entry.0 != directive_key() {
            let all = merged_own(own, fallback);
            assert forall|i: int, j: int|
                0 <= i < all.len() && 0 <= j < all.len() && i != j implies all[i].0
                != all[j].0 by {
                if i < rest.len() {
                    assert(all[i] == rest[i]);
                }
                if j < rest.len() {
                    assert(all[j] == rest[j]);
                }
            }
        }
    }
}

proof fn lemma_inherited_unique(own: Seq<(Tree, Tree)>, fallback: Seq<(Tree, Tree)>)
    requires
        unique_keys(fallback),
    ensures
        unique_keys(inherited(own, fallback)),
    decreases fallback.len(),
{
    if fallback.len() > 0 {
        let front = fallback.drop_last();
        let entry = fallback.last();
        let rest = inherited(own, front);
        assert(unique_keys(front)) by {
            assert forall|i: int, j: int|
                0 <= i < front.len() && 0 <= j < front.len() && i != j implies front[i].0
                != front[j].0 by {
                assert(front[i] == fallback[i] && front[j] == fallback[j]);
            }
        }
        lemma_inherited_unique(own, front);
        lemma_lookup_inherited(own, front, entry.0);
        if has_key(front, entry.0) {
            let i = choose|i: int| 0 <= i < front.len() && front[i].0 == entry.0;
            assert(fallback[i].0 == fallback[fallback.len() - 1].0);
        }
        if !(entry.0 == directive_key() || has_key(own, entry.0)) {
            let all = inherited(own, fallback);
            assert forall|i: int, j: int|
                0 <= i < all.len() && 0 <= j < all.len() && i != j implies all[i].0
                != all[j].0 by {
                if i < rest.len() {
                    assert(all[i] == rest[i]);
                }
                if j < rest.len() {
                    assert(all[j] == rest[j]);
                }
            }
        }
    }
}

/// A merge of two mappings in which no key occurs twice is such a mapping
/// too.
pub proof fn law_merge_keeps_keys_unique(own: Seq<(Tree, Tree)>, fallback: Seq<(Tree, Tree)>)
    requires
        unique_keys(own),
        unique_keys(fallback),
    ensures
        unique_keys(merged_mapping(own, fallback)),
{
    let first = merged_own(own, fallback);
    let second = inherited(own, fallback);
    let all = merged_mapping(own, fallback);
    lemma_merged_own_unique(own, fallback);
    lemma_inherited_unique(own, fallback);
    assert forall|i: int, j: int| 0 <= i < all.len() && 0 <= j < all.len() && i != j implies all[i].0
        != all[j].0 by {
        if i < first.len() && j >= first.len() {
            lemma_lookup_merged_own(own, fallback, first[i].0);
            lemma_lookup_inherited(own, fallback, second[j - first.len()].0);
        } else if j < first.len() && i >= first.len() {
            lemma_lookup_merged_own(own, fallback, first[j].0);
            lemma_lookup_inherited(own, fallback, second[i - first.len()].0);
        }
    }
}

} // verus!
