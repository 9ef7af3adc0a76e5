//! What holds of every resolution.

use crate::error::ErrorKind;
use crate::merge::directive_key;
use crate::merge_laws::law_merge_keys;
use crate::resolve::{
    extended, folded_bases, include_tag, included, included_entries, included_items,
    included_tagged, lemma_entries_keep_keys, lemma_remaining_decreases, located,
    reference_target, remaining,
    resolved_base, resolved_document, resolved_file, resolved_mapping_file, width, Outcome,
};
use crate::store::{LoadedView, RequestView, World};
use crate::value::{has_key, lemma_position_of, lookup, Tree};
use vstd::prelude::*;

verus! {

/// A tree in which no inclusion is left where a resolution looks for one:
/// at the root, in the values of mappings and in the items of sequences.
pub open spec fn settled(tree: Tree) -> bool
    decreases tree,
{
    match tree {
        Tree::Tagged(tag, _) => tag != include_tag(),
        Tree::Sequence(items) => forall|i: int|
            0 <= i < items.len() ==> settled(#[trigger] items[i]),
        Tree::Mapping(entries) => forall|i: int|
            0 <= i < entries.len() ==> settled((#[trigger] entries[i]).1),
        _ => true,
    }
}

/// A tree that is no mapping, or a mapping without the directive.
pub open spec fn undirected(tree: Tree) -> bool {
    match tree {
        Tree::Mapping(entries) => !has_key(entries, directive_key()),
        _ => true,
    }
}

/// The outcome asks nothing that the world answers already.
pub open spec fn asks_new<T>(world: World, outcome: Outcome<T>) -> bool {
    match outcome {
        Outcome::Need(RequestView::Locate(path)) => !world.locations.contains_key(path),
        Outcome::Need(RequestView::Read(file)) => !world.documents.contains_key(file),
        _ => true,
    }
}

/// A result, if the outcome is one, is settled and without the directive.
pub open spec fn ends_resolved(outcome: Outcome<Tree>) -> bool {
    match outcome {
        Outcome::Done(tree) => settled(tree) && undirected(tree),
        _ => true,
    }
}

proof fn lemma_file(world: World, path: Seq<char>, active: Seq<Seq<char>>)
    requires
        world.documents.dom().finite(),
    ensures
        asks_new(world, resolved_file(world, path, active)),
        ends_resolved(resolved_file(world, path, active)),
    decreases remaining(world, active), 1int, Tree::Null, 0int,
{
    match located(world, path) {
        Outcome::Done(file) => {
            if !active.contains(file) && world.documents.contains_key(file) {
                match world.documents[file] {
                    LoadedView::Document(tree) => match crate::path::path_parent(file) {
                        Some(dir) => {
                            lemma_remaining_decreases(world, active, file);
                            lemma_document(world, tree, file, dir, active.push(file));
                        },
                        None => {},
                    },
                    _ => {},
                }
            }
        },
        _ => {},
    }
}

proof fn lemma_document(
    world: World,
    tree: Tree,
    file: Seq<char>,
    dir: Seq<char>,
    active: Seq<Seq<char>>,
)
    requires
        world.documents.dom().finite(),
    ensures
        asks_new(world, resolved_document(world, tree, file, dir, active)),
        ends_resolved(resolved_document(world, tree, file, dir, active)),
    decreases remaining(world, active), 7int, Tree::Null, 0int,
{
    match tree {
        Tree::Mapping(own) => {
            lemma_extended(world, own, file, dir, active);
            match extended(world, own, file, dir, active) {
                Outcome::Done(merged) => {
                    lemma_included(world, Tree::Mapping(merged), file, dir, active);
                    lemma_entries_keep_keys(world, merged, merged.len(), file, dir, active);
                    match included_entries(world, merged, merged.len(), file, dir, active) {
                        Outcome::Done(resolved) => {
                            if has_key(resolved, directive_key()) {
                                let i = choose|i: int|
                                    0 <= i < resolved.len() && resolved[i].0 == directive_key();
                                assert(merged[i].0 == directive_key());
                            }
                        },
                        _ => {},
                    }
                },
                _ => {},
            }
        },
        _ => {
            lemma_included(world, tree, file, dir, active);
        },
    }
}

proof fn lemma_mapping_file(world: World, path: Seq<char>, active: Seq<Seq<char>>)
    requires
        world.documents.dom().finite(),
    ensures
        asks_new(world, resolved_mapping_file(world, path, active)),
    decreases remaining(world, active), 2int, Tree::Null, 0int,
{
    lemma_file(world, path, active);
}

proof fn lemma_base(world: World, reference: Seq<char>, dir: Seq<char>, active: Seq<Seq<char>>)
    requires
        world.documents.dom().finite(),
    ensures
        asks_new(world, resolved_base(world, reference, dir, active)),
    decreases remaining(world, active), 3int, Tree::Null, 0int,
{
    match reference_target(world, reference, dir) {
        Outcome::Done(path) => {
            lemma_mapping_file(world, path, active);
        },
        _ => {},
    }
}

proof fn lemma_bases(
    world: World,
    items: Seq<Tree>,
    n: nat,
    file: Seq<char>,
    dir: Seq<char>,
    active: Seq<Seq<char>>,
)
    requires
        world.documents.dom().finite(),
    ensures
        asks_new(world, folded_bases(world, items, n, file, dir, active)),
    decreases remaining(world, active), 4int, Tree::Null, n,
{
    if !(n == 0 || n > items.len()) {
        lemma_bases(world, items, (n - 1) as nat, file, dir, active);
        match items[n - 1] {
            Tree::String(reference) => {
                lemma_base(world, reference, dir, active);
            },
            _ => {},
        }
    }
}

proof fn lemma_extended(
    world: World,
    own: Seq<(Tree, Tree)>,
    file: Seq<char>,
    dir: Seq<char>,
    active: Seq<Seq<char>>,
)
    requires
        world.documents.dom().finite(),
    ensures
        asks_new(world, extended(world, own, file, dir, active)),
        extended(world, own, file, dir, active) matches Outcome::Done(merged) ==> !has_key(
            merged,
            directive_key(),
        ),
    decreases remaining(world, active), 5int, Tree::Null, 0int,
{
    lemma_position_of(own, directive_key());
    match lookup(own, directive_key()) {
        Some(Tree::String(reference)) => {
            lemma_base(world, reference, dir, active);
            match resolved_base(world, reference, dir, active) {
                Outcome::Done(base) => {
                    law_merge_keys(own, base, directive_key());
                },
                _ => {},
            }
        },
        Some(Tree::Sequence(items)) => {
            lemma_bases(world, items, items.len(), file, dir, active);
            match folded_bases(world, items, items.len(), file, dir, active) {
                Outcome::Done(bases) => {
                    law_merge_keys(own, bases, directive_key());
                },
                _ => {},
            }
        },
        _ => {},
    }
}

proof fn lemma_tagged(
    world: World,
    tag: Seq<char>,
    inner: Tree,
    file: Seq<char>,
    dir: Seq<char>,
    active: Seq<Seq<char>>,
)
    requires
        world.documents.dom().finite(),
    ensures
        asks_new(world, included_tagged(world, tag, inner, file, dir, active)),
        ends_resolved(included_tagged(world, tag, inner, file, dir, active)),
    decreases remaining(world, active), 3int, Tree::Null, 0int,
{
    if tag == include_tag() {
        match inner {
            Tree::String(reference) => match reference_target(world, reference, dir) {
                Outcome::Done(path) => {
                    lemma_file(world, path, active);
                },
                _ => {},
            },
            _ => {},
        }
    }
}

proof fn lemma_included(
    world: World,
    tree: Tree,
    file: Seq<char>,
    dir: Seq<char>,
    active: Seq<Seq<char>>,
)
    requires
        world.documents.dom().finite(),
    ensures
        asks_new(world, included(world, tree, file, dir, active)),
        included(world, tree, file, dir, active) matches Outcome::Done(resolved) ==> settled(
            resolved,
        ) && (!(tree is Mapping) ==> undirected(resolved)),
    decreases remaining(world, active), 6int, tree, width(tree) + 1,
{
    match tree {
        Tree::Mapping(entries) => {
            lemma_entries(world, entries, entries.len(), file, dir, active);
        },
        Tree::Sequence(items) => {
            lemma_items(world, items, items.len(), file, dir, active);
        },
        Tree::Tagged(tag, inner) => {
            lemma_tagged(world, tag, *inner, file, dir, active);
        },
        _ => {},
    }
}

proof fn lemma_items(
    world: World,
    items: Seq<Tree>,
    n: nat,
    file: Seq<char>,
    dir: Seq<char>,
    active: Seq<Seq<char>>,
)
    requires
        world.documents.dom().finite(),
    ensures
        asks_new(world, included_items(world, items, n, file, dir, active)),
        included_items(world, items, n, file, dir, active) matches Outcome::Done(resolved)
            ==> forall|i: int| 0 <= i < resolved.len() ==> settled(#[trigger] resolved[i]),
    decreases remaining(world, active), 6int, Tree::Sequence(items), n,
{
    if !(n == 0 || n > items.len()) {
        lemma_items(world, items, (n - 1) as nat, file, dir, active);
        let whole = Tree::Sequence(items);
        assert(decreases_to!(whole => whole->Sequence_0));
        assert(decreases_to!(items => items[n - 1]));
        lemma_included(world, items[n - 1], file, dir, active);
    }
}

proof fn lemma_entries(
    world: World,
    entries: Seq<(Tree, Tree)>,
    n: nat,
    file: Seq<char>,
    dir: Seq<char>,
    active: Seq<Seq<char>>,
)
    requires
        world.documents.dom().finite(),
    ensures
        asks_new(world, included_entries(world, entries, n, file, dir, active)),
        included_entries(world, entries, n, file, dir, active) matches Outcome::Done(resolved)
            ==> forall|i: int| 0 <= i < resolved.len() ==> settled((#[trigger] resolved[i]).1),
    decreases remaining(world, active), 6int, Tree::Mapping(entries), n,
{
    if !(n == 0 || n > entries.len()) {
        lemma_entries(world, entries, (n - 1) as nat, file, dir, active);
        let whole = Tree::Mapping(entries);
        assert(decreases_to!(whole => whole->Mapping_0));
        assert(decreases_to!(entries => entries[n - 1]));
        assert(decreases_to!(entries[n - 1] => entries[n - 1].1));
        lemma_included(world, entries[n - 1].1, file, dir, active);
    }
}

/// The document that a resolution gives holds no inclusion where a
/// resolution looks for one, and no directive at its root.
pub proof fn law_result_is_resolved(world: World, path: Seq<char>, active: Seq<Seq<char>>)
    requires
        world.documents.dom().finite(),
    ensures
        resolved_file(world, path, active) matches Outcome::Done(tree) ==> settled(tree)
            && undirected(tree),
{
    lemma_file(world, path, active);
}

/// A resolution that stops to ask, asks what the world does not answer yet.
pub proof fn law_request_is_new(world: World, path: Seq<char>, active: Seq<Seq<char>>)
    requires
        world.documents.dom().finite(),
    ensures
        asks_new(world, resolved_file(world, path, active)),
{
    lemma_file(world, path, active);
}

/// The second world answers every question as the first does, and may
/// answer more.
pub open spec fn knows_more(first: World, second: World) -> bool {
    first.locations.submap_of(second.locations) && first.documents.submap_of(second.documents)
}

/// An outcome that is a result or a failure stays what it is.
pub open spec fn stays<T>(before: Outcome<T>, after: Outcome<T>) -> bool {
    before is Need || before == after
}

proof fn lemma_file_stays(first: World, second: World, path: Seq<char>, active: Seq<Seq<char>>)
    requires
        first.documents.dom().finite(),
        second.documents.dom().finite(),
        knows_more(first, second),
    ensures
        stays(resolved_file(first, path, active), resolved_file(second, path, active)),
    decreases remaining(first, active), 1int, Tree::Null, 0int,
{
    match located(first, path) {
        Outcome::Done(file) => {
            assert(first.locations.dom().contains(path));
            if !active.contains(file) && first.documents.contains_key(file) {
                assert(first.documents.dom().contains(file));
                match first.documents[file] {
                    LoadedView::Document(tree) => match crate::path::path_parent(file) {
                        Some(dir) => {
                            lemma_remaining_decreases(first, active, file);
                            lemma_document_stays(first, second, tree, file, dir, active.push(file));
                        },
                        None => {},
                    },
                    _ => {},
                }
            }
        },
        Outcome::Failed(_) => {
            assert(first.locations.dom().contains(path));
        },
        _ => {},
    }
}

proof fn lemma_document_stays(
    first: World,
    second: World,
    tree: Tree,
    file: Seq<char>,
    dir: Seq<char>,
    active: Seq<Seq<char>>,
)
    requires
        first.documents.dom().finite(),
        second.documents.dom().finite(),
        knows_more(first, second),
    ensures
        stays(
            resolved_document(first, tree, file, dir, active),
            resolved_document(second, tree, file, dir, active),
        ),
    decreases remaining(first, active), 7int, Tree::Null, 0int,
{
    match tree {
        Tree::Mapping(own) => {
            lemma_extended_stays(first, second, own, file, dir, active);
            match extended(first, own, file, dir, active) {
                Outcome::Done(merged) => {
                    lemma_included_stays(first, second, Tree::Mapping(merged), file, dir, active);
                },
                _ => {},
            }
        },
        _ => {
            lemma_included_stays(first, second, tree, file, dir, active);
        },
    }
}

proof fn lemma_target_stays(first: World, second: World, reference: Seq<char>, dir: Seq<char>)
    requires
        knows_more(first, second),
    ensures
        stays(reference_target(first, reference, dir), reference_target(second, reference, dir)),
{
    let path = crate::path::path_join(dir, reference);
    if first.locations.contains_key(path) {
        assert(first.locations.dom().contains(path));
    }
}

proof fn lemma_mapping_file_stays(
    first: World,
    second: World,
    path: Seq<char>,
    active: Seq<Seq<char>>,
)
    requires
        first.documents.dom().finite(),
        second.documents.dom().finite(),
        knows_more(first, second),
    ensures
        stays(
            resolved_mapping_file(first, path, active),
            resolved_mapping_file(second, path, active),
        ),
    decreases remaining(first, active), 2int, Tree::Null, 0int,
{
    lemma_file_stays(first, second, path, active);
}

proof fn lemma_base_stays(
    first: World,
    second: World,
    reference: Seq<char>,
    dir: Seq<char>,
    active: Seq<Seq<char>>,
)
    requires
        first.documents.dom().finite(),
        second.documents.dom().finite(),
        knows_more(first, second),
    ensures
        stays(
            resolved_base(first, reference, dir, active),
            resolved_base(second, reference, dir, active),
        ),
    decreases remaining(first, active), 3int, Tree::Null, 0int,
{
    lemma_target_stays(first, second, reference, dir);
    match reference_target(first, reference, dir) {
        Outcome::Done(path) => {
            lemma_mapping_file_stays(first, second, path, active);
        },
        _ => {},
    }
}

proof fn lemma_bases_stay(
    first: World,
    second: World,
    items: Seq<Tree>,
    n: nat,
    file: Seq<char>,
    dir: Seq<char>,
    active: Seq<Seq<char>>,
)
    requires
        first.documents.dom().finite(),
        second.documents.dom().finite(),
        knows_more(first, second),
    ensures
        stays(
            folded_bases(first, items, n, file, dir, active),
            folded_bases(second, items, n, file, dir, active),
        ),
    decreases remaining(first, active), 4int, Tree::Null, n,
{
    if !(n == 0 || n > items.len()) {
        lemma_bases_stay(first, second, items, (n - 1) as nat, file, dir, active);
        match items[n - 1] {
            Tree::String(reference) => {
                lemma_base_stays(first, second, reference, dir, active);
            },
            _ => {},
        }
    }
}

proof fn lemma_extended_stays(
    first: World,
    second: World,
    own: Seq<(Tree, Tree)>,
    file: Seq<char>,
    dir: Seq<char>,
    active: Seq<Seq<char>>,
)
    requires
        first.documents.dom().finite(),
        second.documents.dom().finite(),
        knows_more(first, second),
    ensures
        stays(extended(first, own, file, dir, active), extended(second, own, file, dir, active)),
    decreases remaining(first, active), 5int, Tree::Null, 0int,
{
    match lookup(own, directive_key()) {
        Some(Tree::String(reference)) => {
            lemma_base_stays(first, second, reference, dir, active);
        },
        Some(Tree::Sequence(items)) => {
            lemma_bases_stay(first, second, items, items.len(), file, dir, active);
        },
        _ => {},
    }
}

proof fn lemma_tagged_stays(
    first: World,
    second: World,
    tag: Seq<char>,
    inner: Tree,
    file: Seq<char>,
    dir: Seq<char>,
    active: Seq<Seq<char>>,
)
    requires
        first.documents.dom().finite(),
        second.documents.dom().finite(),
        knows_more(first, second),
    ensures
        stays(
            included_tagged(first, tag, inner, file, dir, active),
            included_tagged(second, tag, inner, file, dir, active),
        ),
    decreases remaining(first, active), 3int, Tree::Null, 0int,
{
    if tag == include_tag() {
        match inner {
            Tree::String(reference) => {
                lemma_target_stays(first, second, reference, dir);
                match reference_target(first, reference, dir) {
                    Outcome::Done(path) => {
                        lemma_file_stays(first, second, path, active);
                    },
                    _ => {},
                }
            },
            _ => {},
        }
    }
}

proof fn lemma_included_stays(
    first: World,
    second: World,
    tree: Tree,
    file: Seq<char>,
    dir: Seq<char>,
    active: Seq<Seq<char>>,
)
    requires
        first.documents.dom().finite(),
        second.documents.dom().finite(),
        knows_more(first, second),
    ensures
        stays(included(first, tree, file, dir, active), included(second, tree, file, dir, active)),
    decreases remaining(first, active), 6int, tree, width(tree) + 1,
{
    match tree {
        Tree::Mapping(entries) => {
            lemma_entries_stay(first, second, entries, entries.len(), file, dir, active);
        },
        Tree::Sequence(items) => {
            lemma_items_stay(first, second, items, items.len(), file, dir, active);
        },
        Tree::Tagged(tag, inner) => {
            lemma_tagged_stays(first, second, tag, *inner, file, dir, active);
        },
        _ => {},
    }
}

proof fn lemma_items_stay(
    first: World,
    second: World,
    items: Seq<Tree>,
    n: nat,
    file: Seq<char>,
    dir: Seq<char>,
    active: Seq<Seq<char>>,
)
    requires
        first.documents.dom().finite(),
        second.documents.dom().finite(),
        knows_more(first, second),
    ensures
        stays(
            included_items(first, items, n, file, dir, active),
            included_items(second, items, n, file, dir, active),
        ),
    decreases remaining(first, active), 6int, Tree::Sequence(items), n,
{
    if !(n == 0 || n > items.len()) {
        lemma_items_stay(first, second, items, (n - 1) as nat, file, dir, active);
        let whole = Tree::Sequence(items);
        assert(decreases_to!(whole => whole->Sequence_0));
        assert(decreases_to!(items => items[n - 1]));
        lemma_included_stays(first, second, items[n - 1], file, dir, active);
    }
}

proof fn lemma_entries_stay(
    first: World,
    second: World,
    entries: Seq<(Tree, Tree)>,
    n: nat,
    file: Seq<char>,
    dir: Seq<char>,
    active: Seq<Seq<char>>,
)
    requires
        first.documents.dom().finite(),
        second.documents.dom().finite(),
        knows_more(first, second),
    ensures
        stays(
            included_entries(first, entries, n, file, dir, active),
            included_entries(second, entries, n, file, dir, active),
        ),
    decreases remaining(first, active), 6int, Tree::Mapping(entries), n,
{
    if !(n == 0 || n > entries.len()) {
        lemma_entries_stay(first, second, entries, (n - 1) as nat, file, dir, active);
        let whole = Tree::Mapping(entries);
        assert(decreases_to!(whole => whole->Mapping_0));
        assert(decreases_to!(entries => entries[n - 1]));
        assert(decreases_to!(entries[n - 1] => entries[n - 1].1));
        lemma_included_stays(first, second, entries[n - 1].1, file, dir, active);
    }
}

/// A result or a failure, once reached, stays the same whatever more is
/// recorded: it rests on the answers that were asked for and on nothing else.
pub proof fn law_outcome_is_stable(
    first: World,
    second: World,
    path: Seq<char>,
    active: Seq<Seq<char>>,
)
    requires
        first.documents.dom().finite(),
        second.documents.dom().finite(),
        knows_more(first, second),
        !(resolved_file(first, path, active) is Need),
    ensures
        resolved_file(second, path, active) == resolved_file(first, path, active),
{
    lemma_file_stays(first, second, path, active);
}

/// The world with one more answer: the path leads to no file.
pub open spec fn with_missing(world: World, path: Seq<char>) -> World {
    World { locations: world.locations.insert(path, None), documents: world.documents }
}

/// The outcome is the question where `path` leads.
pub open spec fn asks_where<T>(outcome: Outcome<T>, path: Seq<char>) -> bool {
    outcome matches Outcome::Need(RequestView::Locate(asked)) && asked == path
}

/// The outcome is the failure to find the file at `path`.
pub open spec fn fails_to_find<T>(outcome: Outcome<T>, path: Seq<char>) -> bool {
    outcome matches Outcome::Failed(error) && error.kind == ErrorKind::NotFound && error.file
        == path
}

proof fn lemma_target_missing(world: World, asked: Seq<char>, reference: Seq<char>, dir: Seq<char>)
    ensures
        asks_where(reference_target(world, reference, dir), asked)
            ==> !world.locations.contains_key(asked) && knows_more(
            world,
            with_missing(world, asked),
        ) && fails_to_find(reference_target(with_missing(world, asked), reference, dir), asked),
{
}

proof fn lemma_file_missing(
    world: World,
    asked: Seq<char>,
    path: Seq<char>,
    active: Seq<Seq<char>>,
)
    requires
        world.documents.dom().finite(),
    ensures
        asks_where(resolved_file(world, path, active), asked) ==> fails_to_find(
            resolved_file(with_missing(world, asked), path, active),
            asked,
        ),
    decreases remaining(world, active), 1int, Tree::Null, 0int,
{
    let more = with_missing(world, asked);
    if asks_where(resolved_file(world, path, active), asked) {
        lemma_file(world, path, active);
        assert(knows_more(world, more));
        match located(world, path) {
            Outcome::Done(file) => {
                assert(world.locations.dom().contains(path));
                if !active.contains(file) && world.documents.contains_key(file) {
                    match world.documents[file] {
                        LoadedView::Document(tree) => match crate::path::path_parent(file) {
                            Some(dir) => {
                                lemma_remaining_decreases(world, active, file);
                                lemma_document_missing(
                                    world,
                                    asked,
                                    tree,
                                    file,
                                    dir,
                                    active.push(file),
                                );
                            },
                            None => {},
                        },
                        _ => {},
                    }
                }
            },
            _ => {},
        }
    }
}

proof fn lemma_document_missing(
    world: World,
    asked: Seq<char>,
    tree: Tree,
    file: Seq<char>,
    dir: Seq<char>,
    active: Seq<Seq<char>>,
)
    requires
        world.documents.dom().finite(),
    ensures
        asks_where(resolved_document(world, tree, file, dir, active), asked) ==> fails_to_find(
            resolved_document(with_missing(world, asked), tree, file, dir, active),
            asked,
        ),
    decreases remaining(world, active), 7int, Tree::Null, 0int,
{
    let more = with_missing(world, asked);
    if asks_where(resolved_document(world, tree, file, dir, active), asked) {
        lemma_document(world, tree, file, dir, active);
        assert(knows_more(world, more));
        match tree {
            Tree::Mapping(own) => {
                lemma_extended_missing(world, asked, own, file, dir, active);
                lemma_extended_stays(world, more, own, file, dir, active);
                match extended(world, own, file, dir, active) {
                    Outcome::Done(merged) => {
                        lemma_included_missing(
                            world,
                            asked,
                            Tree::Mapping(merged),
                            file,
                            dir,
                            active,
                        );
                    },
                    _ => {},
                }
            },
            _ => {
                lemma_included_missing(world, asked, tree, file, dir, active);
            },
        }
    }
}

proof fn lemma_mapping_file_missing(
    world: World,
    asked: Seq<char>,
    path: Seq<char>,
    active: Seq<Seq<char>>,
)
    requires
        world.documents.dom().finite(),
    ensures
        asks_where(resolved_mapping_file(world, path, active), asked) ==> fails_to_find(
            resolved_mapping_file(with_missing(world, asked), path, active),
            asked,
        ),
    decreases remaining(world, active), 2int, Tree::Null, 0int,
{
    let more = with_missing(world, asked);
    if asks_where(resolved_mapping_file(world, path, active), asked) {
        lemma_file_missing(world, asked, path, active);
    }
}

proof fn lemma_base_missing(
    world: World,
    asked: Seq<char>,
    reference: Seq<char>,
    dir: Seq<char>,
    active: Seq<Seq<char>>,
)
    requires
        world.documents.dom().finite(),
    ensures
        asks_where(resolved_base(world, reference, dir, active), asked) ==> fails_to_find(
            resolved_base(with_missing(world, asked), reference, dir, active),
            asked,
        ),
    decreases remaining(world, active), 3int, Tree::Null, 0int,
{
    let more = with_missing(world, asked);
    if asks_where(resolved_base(world, reference, dir, active), asked) {
        lemma_base(world, reference, dir, active);
        assert(knows_more(world, more));
        lemma_target_missing(world, asked, reference, dir);
        lemma_target_stays(world, more, reference, dir);
        match reference_target(world, reference, dir) {
            Outcome::Done(path) => {
                lemma_mapping_file_missing(world, asked, path, active);
            },
            _ => {},
        }
    }
}

proof fn lemma_bases_missing(
    world: World,
    asked: Seq<char>,
    items: Seq<Tree>,
    n: nat,
    file: Seq<char>,
    dir: Seq<char>,
    active: Seq<Seq<char>>,
)
    requires
        world.documents.dom().finite(),
    ensures
        asks_where(folded_bases(world, items, n, file, dir, active), asked) ==> fails_to_find(
            folded_bases(with_missing(world, asked), items, n, file, dir, active),
            asked,
        ),
    decreases remaining(world, active), 4int, Tree::Null, n,
{
    let more = with_missing(world, asked);
    if asks_where(folded_bases(world, items, n, file, dir, active), asked) {
        lemma_bases(world, items, n, file, dir, active);
        assert(knows_more(world, more));
        if !(n == 0 || n > items.len()) {
            lemma_bases_missing(world, asked, items, (n - 1) as nat, file, dir, active);
            lemma_bases_stay(world, more, items, (n - 1) as nat, file, dir, active);
            match items[n - 1] {
                Tree::String(reference) => {
                    lemma_base_missing(world, asked, reference, dir, active);
                },
                _ => {},
            }
        }
    }
}

proof fn lemma_extended_missing(
    world: World,
    asked: Seq<char>,
    own: Seq<(Tree, Tree)>,
    file: Seq<char>,
    dir: Seq<char>,
    active: Seq<Seq<char>>,
)
    requires
        world.documents.dom().finite(),
    ensures
        asks_where(extended(world, own, file, dir, active), asked) ==> fails_to_find(
            extended(with_missing(world, asked), own, file, dir, active),
            asked,
        ),
    decreases remaining(world, active), 5int, Tree::Null, 0int,
{
    let more = with_missing(world, asked);
    if asks_where(extended(world, own, file, dir, active), asked) {
        match lookup(own, directive_key()) {
            Some(Tree::String(reference)) => {
                lemma_base_missing(world, asked, reference, dir, active);
            },
            Some(Tree::Sequence(items)) => {
                lemma_bases_missing(world, asked, items, items.len(), file, dir, active);
            },
            _ => {},
        }
    }
}

proof fn lemma_tagged_missing(
    world: World,
    asked: Seq<char>,
    tag: Seq<char>,
    inner: Tree,
    file: Seq<char>,
    dir: Seq<char>,
    active: Seq<Seq<char>>,
)
    requires
        world.documents.dom().finite(),
    ensures
        asks_where(included_tagged(world, tag, inner, file, dir, active), asked) ==> fails_to_find(
            included_tagged(with_missing(world, asked), tag, inner, file, dir, active),
            asked,
        ),
    decreases remaining(world, active), 3int, Tree::Null, 0int,
{
    let more = with_missing(world, asked);
    if asks_where(included_tagged(world, tag, inner, file, dir, active), asked) {
        lemma_tagged(world, tag, inner, file, dir, active);
        assert(knows_more(world, more));
        if tag == include_tag() {
            match inner {
                Tree::String(reference) => {
                    lemma_target_missing(world, asked, reference, dir);
                    lemma_target_stays(world, more, reference, dir);
                    match reference_target(world, reference, dir) {
                        Outcome::Done(path) => {
                            lemma_file_missing(world, asked, path, active);
                        },
                        _ => {},
                    }
                },
                _ => {},
            }
        }
    }
}

proof fn lemma_included_missing(
    world: World,
    asked: Seq<char>,
    tree: Tree,
    file: Seq<char>,
    dir: Seq<char>,
    active: Seq<Seq<char>>,
)
    requires
        world.documents.dom().finite(),
    ensures
        asks_where(included(world, tree, file, dir, active), asked) ==> fails_to_find(
            included(with_missing(world, asked), tree, file, dir, active),
            asked,
        ),
    decreases remaining(world, active), 6int, tree, width(tree) + 1,
{
    let more = with_missing(world, asked);
    if asks_where(included(world, tree, file, dir, active), asked) {
        match tree {
            Tree::Mapping(entries) => {
                lemma_entries_missing(world, asked, entries, entries.len(), file, dir, active);
            },
            Tree::Sequence(items) => {
                lemma_items_missing(world, asked, items, items.len(), file, dir, active);
            },
            Tree::Tagged(tag, inner) => {
                lemma_tagged_missing(world, asked, tag, *inner, file, dir, active);
            },
            _ => {},
        }
    }
}

proof fn lemma_items_missing(
    world: World,
    asked: Seq<char>,
    items: Seq<Tree>,
    n: nat,
    file: Seq<char>,
    dir: Seq<char>,
    active: Seq<Seq<char>>,
)
    requires
        world.documents.dom().finite(),
    ensures
        asks_where(included_items(world, items, n, file, dir, active), asked) ==> fails_to_find(
            included_items(with_missing(world, asked), items, n, file, dir, active),
            asked,
        ),
    decreases remaining(world, active), 6int, Tree::Sequence(items), n,
{
    let more = with_missing(world, asked);
    if asks_where(included_items(world, items, n, file, dir, active), asked) {
        lemma_items(world, items, n, file, dir, active);
        assert(knows_more(world, more));
        if !(n == 0 || n > items.len()) {
            lemma_items_missing(world, asked, items, (n - 1) as nat, file, dir, active);
            lemma_items_stay(world, more, items, (n - 1) as nat, file, dir, active);
            let whole = Tree::Sequence(items);
            assert(decreases_to!(whole => whole->Sequence_0));
            assert(decreases_to!(items => items[n - 1]));
            lemma_included_missing(world, asked, items[n - 1], file, dir, active);
        }
    }
}

proof fn lemma_entries_missing(
    world: World,
    asked: Seq<char>,
    entries: Seq<(Tree, Tree)>,
    n: nat,
    file: Seq<char>,
    dir: Seq<char>,
    active: Seq<Seq<char>>,
)
    requires
        world.documents.dom().finite(),
    ensures
        asks_where(included_entries(world, entries, n, file, dir, active), asked) ==> fails_to_find(
            included_entries(with_missing(world, asked), entries, n, file, dir, active),
            asked,
        ),
    decreases remaining(world, active), 6int, Tree::Mapping(entries), n,
{
    let more = with_missing(world, asked);
    if asks_where(included_entries(world, entries, n, file, dir, active), asked) {
        lemma_entries(world, entries, n, file, dir, active);
        assert(knows_more(world, more));
        if !(n == 0 || n > entries.len()) {
            lemma_entries_missing(world, asked, entries, (n - 1) as nat, file, dir, active);
            lemma_entries_stay(world, more, entries, (n - 1) as nat, file, dir, active);
            let whole = Tree::Mapping(entries);
            assert(decreases_to!(whole => whole->Mapping_0));
            assert(decreases_to!(entries => entries[n - 1]));
            assert(decreases_to!(entries[n - 1] => entries[n - 1].1));
            lemma_included_missing(world, asked, entries[n - 1].1, file, dir, active);
        }
    }
}

/// Wherever a resolution comes to a reference and asks where it leads, at
/// any depth of files and of the tree, the answer that the file does not
/// exist fails the whole resolution: the outcome is the failure to find
/// that file, and no document is returned.
pub proof fn law_missing_file_fails_the_resolution(
    world: World,
    path: Seq<char>,
    active: Seq<Seq<char>>,
    asked: Seq<char>,
)
    requires
        world.documents.dom().finite(),
        asks_where(resolved_file(world, path, active), asked),
    ensures
        fails_to_find(resolved_file(with_missing(world, asked), path, active), asked),
{
    lemma_file_missing(world, asked, path, active);
}

/// A base that does not exist fails the extension of a document with the
/// failure to find it.
pub proof fn law_missing_base_fails_the_extension(
    world: World,
    own: Seq<(Tree, Tree)>,
    file: Seq<char>,
    dir: Seq<char>,
    active: Seq<Seq<char>>,
    asked: Seq<char>,
)
    requires
        world.documents.dom().finite(),
        asks_where(extended(world, own, file, dir, active), asked),
    ensures
        fails_to_find(extended(with_missing(world, asked), own, file, dir, active), asked),
{
    lemma_extended_missing(world, asked, own, file, dir, active);
}

/// An included file that does not exist fails the replacement of the
/// inclusions of a tree with the failure to find it.
pub proof fn law_missing_inclusion_fails_the_tree(
    world: World,
    tree: Tree,
    file: Seq<char>,
    dir: Seq<char>,
    active: Seq<Seq<char>>,
    asked: Seq<char>,
)
    requires
        world.documents.dom().finite(),
        asks_where(included(world, tree, file, dir, active), asked),
    ensures
        fails_to_find(included(with_missing(world, asked), tree, file, dir, active), asked),
{
    lemma_included_missing(world, asked, tree, file, dir, active);
}

} // verus!
