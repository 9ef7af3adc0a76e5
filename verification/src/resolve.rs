//! Resolution of a document: its extensions merged in, its inclusions
//! replaced by the documents that they name.

use crate::error::{failure, texts, traced, Error, ErrorKind, ErrorView};
use crate::merge::{directive_key, merge_mapping, merged_mapping};
use crate::path::{is_absolute, join, parent, path_is_absolute, path_join, path_parent};
use crate::resolve_laws::{
    asks_new, law_request_is_new, law_result_is_resolved, settled, undirected,
};
use crate::store::{Loaded, LoadedView, Request, RequestView, Store, World};
use crate::value::{
    has_key, lemma_position_is, lemma_view_all, lookup, view_all, Mapping, TaggedValue, Tree,
    Value,
};
use vstd::prelude::*;

verus! {

/// How far a resolution got: to its result, to a question that the store
/// does not answer yet, or to a failure.
pub enum Outcome<T> {
    Done(T),
    Need(RequestView),
    Failed(ErrorView),
}

/// The tag that marks an inclusion.
pub open spec fn include_tag() -> Seq<char> {
    "!include"@
}

/// The outcome with the file added to the trail of its failure, if it is one.
pub open spec fn within<T>(outcome: Outcome<T>, file: Seq<char>) -> Outcome<T> {
    match outcome {
        Outcome::Failed(error) => Outcome::Failed(traced(error, file)),
        _ => outcome,
    }
}

/// The number of documents of the world that are not being resolved.
pub open spec fn remaining(world: World, active: Seq<Seq<char>>) -> nat {
    world.documents.dom().difference(active.to_set()).len()
}

/// Where a path leads.
pub open spec fn located(world: World, path: Seq<char>) -> Outcome<Seq<char>> {
    if !world.locations.contains_key(path) {
        Outcome::Need(RequestView::Locate(path))
    } else {
        match world.locations[path] {
            Some(canonical) => Outcome::Done(canonical),
            None => Outcome::Failed(failure(ErrorKind::NotFound, path)),
        }
    }
}

/// The file that a reference names in a document of the directory `dir`: an
/// absolute reference as it stands, any other where the directory joined
/// with it leads.
pub open spec fn reference_target(world: World, reference: Seq<char>, dir: Seq<char>) -> Outcome<
    Seq<char>,
> {
    if path_is_absolute(reference) {
        Outcome::Done(reference)
    } else {
        located(world, path_join(dir, reference))
    }
}

/// The resolved document of the file that a path leads to. `active` holds
/// the files that are being resolved, the outermost first. A failure that
/// comes up while the file is resolved has the file in its trail: once, from
/// the step at which it came up or came back from another file.
pub open spec fn resolved_file(world: World, path: Seq<char>, active: Seq<Seq<char>>) -> Outcome<
    Tree,
>
    decreases remaining(world, active), 1int, Tree::Null, 0int,
    when world.documents.dom().finite()
{
    match located(world, path) {
        Outcome::Done(file) => {
            if active.contains(file) {
                Outcome::Failed(failure(ErrorKind::CyclicReference, file))
            } else if !world.documents.contains_key(file) {
                Outcome::Need(RequestView::Read(file))
            } else {
                match world.documents[file] {
                    LoadedView::Unreadable => Outcome::Failed(
                        traced(failure(ErrorKind::IoError, file), file),
                    ),
                    LoadedView::Malformed => Outcome::Failed(
                        traced(failure(ErrorKind::ParseError, file), file),
                    ),
                    LoadedView::Document(tree) => match path_parent(file) {
                        Some(dir) => {
                            proof {
                                lemma_remaining_decreases(world, active, file);
                            }
                            resolved_document(world, tree, file, dir, active.push(file))
                        },
                        None => Outcome::Failed(traced(failure(ErrorKind::IoError, file), file)),
                    },
                }
            }
        },
        Outcome::Need(request) => Outcome::Need(request),
        Outcome::Failed(error) => Outcome::Failed(error),
    }
}

/// The resolved form of a document that was read from `file` in `dir`.
pub open spec fn resolved_document(
    world: World,
    tree: Tree,
    file: Seq<char>,
    dir: Seq<char>,
    active: Seq<Seq<char>>,
) -> Outcome<Tree>
    decreases remaining(world, active), 7int, Tree::Null, 0int,
{
    match tree {
        Tree::Mapping(own) => match extended(world, own, file, dir, active) {
            Outcome::Done(merged) => included(world, Tree::Mapping(merged), file, dir, active),
            Outcome::Need(request) => Outcome::Need(request),
            Outcome::Failed(error) => Outcome::Failed(error),
        },
        _ => included(world, tree, file, dir, active),
    }
}

/// The resolved document of a file that has to hold a mapping.
pub open spec fn resolved_mapping_file(
    world: World,
    path: Seq<char>,
    active: Seq<Seq<char>>,
) -> Outcome<Seq<(Tree, Tree)>>
    decreases remaining(world, active), 2int, Tree::Null, 0int,
{
    match resolved_file(world, path, active) {
        Outcome::Done(Tree::Mapping(entries)) => Outcome::Done(entries),
        Outcome::Done(_) => Outcome::Failed(failure(ErrorKind::NotAMapping, path)),
        Outcome::Need(request) => Outcome::Need(request),
        Outcome::Failed(error) => Outcome::Failed(error),
    }
}

/// The mapping of the base document that a reference names.
pub open spec fn resolved_base(
    world: World,
    reference: Seq<char>,
    dir: Seq<char>,
    active: Seq<Seq<char>>,
) -> Outcome<Seq<(Tree, Tree)>>
    decreases remaining(world, active), 3int, Tree::Null, 0int,
{
    match reference_target(world, reference, dir) {
        Outcome::Done(path) => resolved_mapping_file(world, path, active),
        Outcome::Need(request) => Outcome::Need(request),
        Outcome::Failed(error) => Outcome::Failed(error),
    }
}

/// The bases that the first `n` items of a list name, folded into one
/// mapping: each base overrides what the bases before it gave. Every item
/// has to be a plain string; a tagged string is none.
pub open spec fn folded_bases(
    world: World,
    items: Seq<Tree>,
    n: nat,
    file: Seq<char>,
    dir: Seq<char>,
    active: Seq<Seq<char>>,
) -> Outcome<Seq<(Tree, Tree)>>
    decreases remaining(world, active), 4int, Tree::Null, n,
{
    if n == 0 || n > items.len() {
        Outcome::Done(Seq::empty())
    } else {
        match folded_bases(world, items, (n - 1) as nat, file, dir, active) {
            Outcome::Done(earlier) => match items[n - 1] {
                Tree::String(reference) => match resolved_base(world, reference, dir, active) {
                    Outcome::Done(base) => Outcome::Done(merged_mapping(base, earlier)),
                    Outcome::Need(request) => Outcome::Need(request),
                    Outcome::Failed(error) => Outcome::Failed(error),
                },
                _ => Outcome::Failed(failure(ErrorKind::InvalidDirective, file)),
            },
            Outcome::Need(request) => Outcome::Need(request),
            Outcome::Failed(error) => Outcome::Failed(error),
        }
    }
}

/// The mapping of the document in `file` merged over the bases that its
/// directive names, without the directive. A failure, of the directive or
/// of a base, has `file` added to its trail: it names what failed and the
/// document that refers to it.
pub open spec fn extended(
    world: World,
    own: Seq<(Tree, Tree)>,
    file: Seq<char>,
    dir: Seq<char>,
    active: Seq<Seq<char>>,
) -> Outcome<Seq<(Tree, Tree)>>
    decreases remaining(world, active), 5int, Tree::Null, 0int,
{
    match lookup(own, directive_key()) {
        None => Outcome::Done(own),
        Some(Tree::String(reference)) => match resolved_base(world, reference, dir, active) {
            Outcome::Done(base) => Outcome::Done(merged_mapping(own, base)),
            Outcome::Need(request) => Outcome::Need(request),
            Outcome::Failed(error) => Outcome::Failed(traced(error, file)),
        },
        Some(Tree::Sequence(items)) => match folded_bases(
            world,
            items,
            items.len(),
            file,
            dir,
            active,
        ) {
            Outcome::Done(bases) => Outcome::Done(merged_mapping(own, bases)),
            Outcome::Need(request) => Outcome::Need(request),
            Outcome::Failed(error) => Outcome::Failed(traced(error, file)),
        },
        Some(_) => Outcome::Failed(traced(failure(ErrorKind::InvalidDirective, file), file)),
    }
}

/// What stands in place of a tagged node: the resolved document that an
/// inclusion names, or the node itself where its tag is another.
pub open spec fn included_tagged(
    world: World,
    tag: Seq<char>,
    inner: Tree,
    file: Seq<char>,
    dir: Seq<char>,
    active: Seq<Seq<char>>,
) -> Outcome<Tree>
    decreases remaining(world, active), 3int, Tree::Null, 0int,
{
    if tag == include_tag() {
        match inner {
            Tree::String(reference) => match reference_target(world, reference, dir) {
                Outcome::Done(path) => resolved_file(world, path, active),
                Outcome::Need(request) => Outcome::Need(request),
                Outcome::Failed(error) => Outcome::Failed(error),
            },
            _ => Outcome::Failed(failure(ErrorKind::InvalidInclusionTarget, file)),
        }
    } else {
        Outcome::Done(Tree::Tagged(tag, Box::new(inner)))
    }
}

/// A tree of the document in `file` with every inclusion that is reached
/// through mappings and sequences replaced. A failure of an inclusion has
/// `file` added to its trail.
pub open spec fn included(
    world: World,
    tree: Tree,
    file: Seq<char>,
    dir: Seq<char>,
    active: Seq<Seq<char>>,
) -> Outcome<Tree>
    decreases remaining(world, active), 6int, tree, width(tree) + 1,
{
    match tree {
        Tree::Mapping(entries) => match included_entries(
            world,
            entries,
            entries.len(),
            file,
            dir,
            active,
        ) {
            Outcome::Done(entries) => Outcome::Done(Tree::Mapping(entries)),
            Outcome::Need(request) => Outcome::Need(request),
            Outcome::Failed(error) => Outcome::Failed(error),
        },
        Tree::Sequence(items) => match included_items(
            world,
            items,
            items.len(),
            file,
            dir,
            active,
        ) {
            Outcome::Done(items) => Outcome::Done(Tree::Sequence(items)),
            Outcome::Need(request) => Outcome::Need(request),
            Outcome::Failed(error) => Outcome::Failed(error),
        },
        Tree::Tagged(tag, inner) => within(
            included_tagged(world, tag, *inner, file, dir, active),
            file,
        ),
        _ => Outcome::Done(tree),
    }
}

/// The number of items of a sequence or of entries of a mapping.
pub open spec fn width(tree: Tree) -> nat {
    match tree {
        Tree::Sequence(items) => items.len(),
        Tree::Mapping(entries) => entries.len(),
        _ => 0,
    }
}

/// The first `n` items of a sequence with their inclusions replaced, in
/// order.
pub open spec fn included_items(
    world: World,
    items: Seq<Tree>,
    n: nat,
    file: Seq<char>,
    dir: Seq<char>,
    active: Seq<Seq<char>>,
) -> Outcome<Seq<Tree>>
    decreases remaining(world, active), 6int, Tree::Sequence(items), n,
{
    if n == 0 || n > items.len() {
        Outcome::Done(Seq::empty())
    } else {
        match included_items(world, items, (n - 1) as nat, file, dir, active) {
            Outcome::Done(earlier) => match {
                proof {
                    let whole = Tree::Sequence(items);
                    assert(decreases_to!(whole => whole->Sequence_0));
                    assert(decreases_to!(items => items[n - 1]));
                }
                included(world, items[n - 1], file, dir, active)
            } {
                Outcome::Done(item) => Outcome::Done(earlier.push(item)),
                Outcome::Need(request) => Outcome::Need(request),
                Outcome::Failed(error) => Outcome::Failed(error),
            },
            Outcome::Need(request) => Outcome::Need(request),
            Outcome::Failed(error) => Outcome::Failed(error),
        }
    }
}

/// The first `n` entries of a mapping with the inclusions in their values
/// replaced; keys and order stay.
pub open spec fn included_entries(
    world: World,
    entries: Seq<(Tree, Tree)>,
    n: nat,
    file: Seq<char>,
    dir: Seq<char>,
    active: Seq<Seq<char>>,
) -> Outcome<Seq<(Tree, Tree)>>
    decreases remaining(world, active), 6int, Tree::Mapping(entries), n,
{
    if n == 0 || n > entries.len() {
        Outcome::Done(Seq::empty())
    } else {
        match included_entries(world, entries, (n - 1) as nat, file, dir, active) {
            Outcome::Done(earlier) => match {
                proof {
                    let whole = Tree::Mapping(entries);
                    assert(decreases_to!(whole => whole->Mapping_0));
                    assert(decreases_to!(entries => entries[n - 1]));
                    assert(decreases_to!(entries[n - 1] => entries[n - 1].1));
                }
                included(world, entries[n - 1].1, file, dir, active)
            } {
                Outcome::Done(value) => Outcome::Done(earlier.push((entries[n - 1].0, value))),
                Outcome::Need(request) => Outcome::Need(request),
                Outcome::Failed(error) => Outcome::Failed(error),
            },
            Outcome::Need(request) => Outcome::Need(request),
            Outcome::Failed(error) => Outcome::Failed(error),
        }
    }
}

/// Taking up a document that was not being resolved leaves fewer to take up.
pub proof fn lemma_remaining_decreases(world: World, active: Seq<Seq<char>>, file: Seq<char>)
    requires
        world.documents.dom().finite(),
        world.documents.contains_key(file),
        !active.contains(file),
    ensures
        remaining(world, active.push(file)) < remaining(world, active),
{
    let before = world.documents.dom().difference(active.to_set());
    let after = world.documents.dom().difference(active.push(file).to_set());
    assert(after =~= before.remove(file)) by {
        assert forall|p: Seq<char>| after.contains(p) == before.remove(file).contains(p) by {
            if active.push(file).contains(p) {
                let longer = active.push(file);
                let i = choose|i: int| 0 <= i < longer.len() && longer[i] == p;
                if i < active.len() {
                    assert(active[i] == p);
                }
            }
            if active.contains(p) {
                let i = choose|i: int| 0 <= i < active.len() && active[i] == p;
                assert(active.push(file)[i] == p);
            }
            if p == file {
                assert(active.push(file)[active.len() as int] == file);
            }
        }
    }
    assert(before.contains(file));
}

/// Why an exec resolution returns without a result.
#[derive(Clone, Debug, PartialEq, Eq)]
pub enum Halt {
    /// The store does not answer this question yet.
    Need(Request),
    /// The resolution failed.
    Failed(Error),
}

/// What a [`Halt`] denotes.
pub open spec fn halted<T>(halt: Halt) -> Outcome<T> {
    match halt {
        Halt::Need(request) => Outcome::Need(request@),
        Halt::Failed(error) => Outcome::Failed(error@),
    }
}

/// What the result of resolving to a document denotes.
pub open spec fn tree_outcome(result: Result<Value, Halt>) -> Outcome<Tree> {
    match result {
        Ok(value) => Outcome::Done(value@),
        Err(halt) => halted(halt),
    }
}

/// What the result of resolving to a mapping denotes.
pub open spec fn entries_outcome(result: Result<Mapping, Halt>) -> Outcome<Seq<(Tree, Tree)>> {
    match result {
        Ok(mapping) => Outcome::Done(mapping@),
        Err(halt) => halted(halt),
    }
}

/// What the result of resolving to a path denotes.
pub open spec fn path_outcome(result: Result<String, Halt>) -> Outcome<Seq<char>> {
    match result {
        Ok(path) => Outcome::Done(path@),
        Err(halt) => halted(halt),
    }
}

/// Once an item fails or asks, the rest of the sequence gives the same.
proof fn lemma_items_halt(
    world: World,
    items: Seq<Tree>,
    k: nat,
    n: nat,
    file: Seq<char>,
    dir: Seq<char>,
    active: Seq<Seq<char>>,
)
    requires
        k <= n <= items.len(),
        !(included_items(world, items, k, file, dir, active) is Done),
    ensures
        included_items(world, items, n, file, dir, active) == included_items(
            world,
            items,
            k,
            file,
            dir,
            active,
        ),
    decreases n,
{
    if k < n {
        lemma_items_halt(world, items, k, (n - 1) as nat, file, dir, active);
    }
}

/// Once a value fails or asks, the rest of the mapping gives the same.
proof fn lemma_entries_halt(
    world: World,
    entries: Seq<(Tree, Tree)>,
    k: nat,
    n: nat,
    file: Seq<char>,
    dir: Seq<char>,
    active: Seq<Seq<char>>,
)
    requires
        k <= n <= entries.len(),
        !(included_entries(world, entries, k, file, dir, active) is Done),
    ensures
        included_entries(world, entries, n, file, dir, active) == included_entries(
            world,
            entries,
            k,
            file,
            dir,
            active,
        ),
    decreases n,
{
    if k < n {
        lemma_entries_halt(world, entries, k, (n - 1) as nat, file, dir, active);
    }
}

/// Once a base fails or asks, the rest of the list gives the same.
proof fn lemma_bases_halt(
    world: World,
    items: Seq<Tree>,
    k: nat,
    n: nat,
    file: Seq<char>,
    dir: Seq<char>,
    active: Seq<Seq<char>>,
)
    requires
        k <= n <= items.len(),
        !(folded_bases(world, items, k, file, dir, active) is Done),
    ensures
        folded_bases(world, items, n, file, dir, active) == folded_bases(
            world,
            items,
            k,
            file,
            dir,
            active,
        ),
    decreases n,
{
    if k < n {
        lemma_bases_halt(world, items, k, (n - 1) as nat, file, dir, active);
    }
}

/// Replacing inclusions keeps the keys of a mapping, each at its place.
pub proof fn lemma_entries_keep_keys(
    world: World,
    entries: Seq<(Tree, Tree)>,
    n: nat,
    file: Seq<char>,
    dir: Seq<char>,
    active: Seq<Seq<char>>,
)
    requires
        n <= entries.len(),
    ensures
        included_entries(world, entries, n, file, dir, active) matches Outcome::Done(resolved)
            ==> resolved.len() == n && forall|i: int|
            0 <= i < n ==> (#[trigger] resolved[i]).0 == entries[i].0,
    decreases n,
{
    if n > 0 {
        lemma_entries_keep_keys(world, entries, (n - 1) as nat, file, dir, active);
    }
}

/// Adds the file to the trail of a failure; a question stays as it is.
fn halt_within(halt: Halt, file: &String) -> (traced_halt: Halt)
    ensures
        match halt {
            Halt::Need(request) => traced_halt == Halt::Need(request),
            Halt::Failed(error) => traced_halt matches Halt::Failed(longer) && longer@ == traced(
                error@,
                file@,
            ),
        },
{
    match halt {
        Halt::Need(request) => Halt::Need(request),
        Halt::Failed(error) => Halt::Failed(error.within(file.clone())),
    }
}

fn same_text(left: &String, right: &str) -> (same: bool)
    ensures
        same == (left@ == right@),
{
    let right = right.to_owned();
    *left == right
}

fn is_active(active: &Vec<String>, file: &String) -> (found: bool)
    ensures
        found == texts(active@).contains(file@),
{
    let mut i: usize = 0;
    while i < active.len()
        invariant
            i <= active.len(),
            forall|j: int| 0 <= j < i ==> texts(active@)[j] != file@,
        decreases active.len() - i,
    {
        if active[i] == *file {
            assert(texts(active@)[i as int] == file@);
            return true;
        }
        i += 1;
    }
    false
}

fn with_active(active: &Vec<String>, file: &String) -> (deeper: Vec<String>)
    ensures
        texts(deeper@) == texts(active@).push(file@),
{
    let mut deeper: Vec<String> = Vec::new();
    let mut i: usize = 0;
    while i < active.len()
        invariant
            i <= active.len(),
            deeper.len() == i,
            forall|j: int| 0 <= j < i ==> deeper@[j]@ == active@[j]@,
        decreases active.len() - i,
    {
        deeper.push(active[i].clone());
        i += 1;
    }
    deeper.push(file.clone());
    assert(texts(deeper@) =~= texts(active@).push(file@));
    deeper
}

/// Says where a path leads, as far as the store knows.
pub fn locate(path: &String, store: &Store) -> (target: Result<String, Halt>)
    ensures
        path_outcome(target) == located(store@, path@),
{
    match store.location(path) {
        None => Err(Halt::Need(Request::Locate(path.clone()))),
        Some(None) => Err(Halt::Failed(Error::new(ErrorKind::NotFound, path.clone()))),
        Some(Some(file)) => Ok(file.clone()),
    }
}

/// Chooses the file that a reference names, given what is known of the
/// reference: whether it is absolute, and the path that the directory joined
/// with it makes. An absolute reference stands as it is; for any other the
/// store says where the joined path leads.
pub fn target_of(reference: &String, absolute: bool, joined: &String, store: &Store) -> (target:
    Result<String, Halt>)
    ensures
        path_outcome(target) == if absolute {
            Outcome::Done(reference@)
        } else {
            located(store@, joined@)
        },
{
    if absolute {
        Ok(reference.clone())
    } else {
        locate(joined, store)
    }
}

fn resolve_reference(reference: &String, dir: &String, store: &Store) -> (target: Result<
    String,
    Halt,
>)
    ensures
        path_outcome(target) == reference_target(store@, reference@, dir@),
{
    let absolute = is_absolute(reference);
    let joined = join(dir, reference);
    target_of(reference, absolute, &joined, store)
}

/// Finds the file that a reference names in a document of the directory
/// `dir`. An absolute reference stands as it is; any other is joined to the
/// directory, and the store says where that leads.
pub fn from_relative_path(path: &str, dir: &str, store: &Store) -> (target: Result<String, Halt>)
    ensures
        path_outcome(target) == reference_target(store@, path@, dir@),
{
    let path = path.to_owned();
    let dir = dir.to_owned();
    resolve_reference(&path, &dir, store)
}

/// Resolves the file that a path leads to, as [`handle_yaml`] does, while
/// the files of `active` are being resolved.
fn resolve_file(path: &String, store: &Store, active: &Vec<String>) -> (result: Result<
    Value,
    Halt,
>)
    ensures
        tree_outcome(result) == resolved_file(store@, path@, texts(active@)),
    decreases remaining(store@, texts(active@)), 1int, Tree::Null, 0int,
{
    proof {
        store.lemma_finite();
    }
    let file = match locate(path, store) {
        Ok(file) => file,
        Err(halt) => {
            return Err(halt);
        },
    };
    if is_active(active, &file) {
        return Err(Halt::Failed(Error::new(ErrorKind::CyclicReference, file)));
    }
    let loaded = match store.document(&file) {
        Some(loaded) => loaded,
        None => {
            return Err(Halt::Need(Request::Read(file)));
        },
    };
    match loaded {
        Loaded::Unreadable => Err(
            Halt::Failed(Error::new(ErrorKind::IoError, file.clone()).within(file)),
        ),
        Loaded::Malformed => Err(
            Halt::Failed(Error::new(ErrorKind::ParseError, file.clone()).within(file)),
        ),
        Loaded::Document(value) => match parent(&file) {
            Some(dir) => {
                let deeper = with_active(active, &file);
                proof {
                    lemma_remaining_decreases(store@, texts(active@), file@);
                }
                resolve_document(value, &file, &dir, store, &deeper)
            },
            None => Err(Halt::Failed(Error::new(ErrorKind::IoError, file.clone()).within(file))),
        },
    }
}

/// Resolves a document that was read from `file` in the directory `dir`:
/// its extensions first, if it is a mapping, then its inclusions. `active`
/// holds the files that are being resolved, the outermost first and `file`
/// last.
pub fn resolve_document(
    value: &Value,
    file: &String,
    dir: &String,
    store: &Store,
    active: &Vec<String>,
) -> (result: Result<Value, Halt>)
    ensures
        tree_outcome(result) == resolved_document(store@, value@, file@, dir@, texts(active@)),
    decreases remaining(store@, texts(active@)), 7int, Tree::Null, 0int,
{
    match value {
        Value::Mapping(map) => {
            let merged = match handle_extends(map, file, dir, store, active) {
                Ok(merged) => Value::Mapping(merged),
                Err(halt) => {
                    return Err(halt);
                },
            };
            handle_include(&merged, file, dir, store, active)
        },
        _ => handle_include(value, file, dir, store, active),
    }
}

/// Resolves a file that has to hold a mapping.
fn resolve_mapping_file(path: &String, store: &Store, active: &Vec<String>) -> (result: Result<
    Mapping,
    Halt,
>)
    ensures
        entries_outcome(result) == resolved_mapping_file(store@, path@, texts(active@)),
    decreases remaining(store@, texts(active@)), 2int, Tree::Null, 0int,
{
    proof {
        store.lemma_finite();
    }
    match resolve_file(path, store, active) {
        Ok(Value::Mapping(map)) => Ok(map),
        Ok(_) => Err(Halt::Failed(Error::new(ErrorKind::NotAMapping, path.clone()))),
        Err(halt) => Err(halt),
    }
}

/// Resolves the base document that a reference names.
fn resolve_base(reference: &String, dir: &String, store: &Store, active: &Vec<String>) -> (result:
    Result<Mapping, Halt>)
    ensures
        entries_outcome(result) == resolved_base(store@, reference@, dir@, texts(active@)),
    decreases remaining(store@, texts(active@)), 3int, Tree::Null, 0int,
{
    match resolve_reference(reference, dir, store) {
        Ok(path) => resolve_mapping_file(&path, store, active),
        Err(halt) => Err(halt),
    }
}

/// Merges a mapping over the base document that a reference names in a
/// document of the directory `dir`.
pub fn extend_by(
    values: &Mapping,
    dir: &String,
    reference: &String,
    store: &Store,
    active: &Vec<String>,
) -> (result: Result<Mapping, Halt>)
    ensures
        entries_outcome(result) == match resolved_base(store@, reference@, dir@, texts(active@)) {
            Outcome::Done(base) => Outcome::Done(merged_mapping(values@, base)),
            Outcome::Need(request) => Outcome::Need(request),
            Outcome::Failed(error) => Outcome::Failed(error),
        },
    decreases remaining(store@, texts(active@)), 4int, Tree::Null, 0int,
{
    match resolve_base(reference, dir, store, active) {
        Ok(base) => Ok(merge_mapping(values, &base)),
        Err(halt) => Err(halt),
    }
}

/// Merges the mapping of the document in `file` over the bases that its
/// directive names, and drops the directive. A single base is merged as it
/// is; of a list, each base overrides those before it. A failure names what
/// failed and carries `file`, the document that refers to it, in its trail.
#[verifier::loop_isolation(false)]
pub fn handle_extends(
    map: &Mapping,
    file: &String,
    dir: &String,
    store: &Store,
    active: &Vec<String>,
) -> (result: Result<Mapping, Halt>)
    ensures
        entries_outcome(result) == extended(store@, map@, file@, dir@, texts(active@)),
    decreases remaining(store@, texts(active@)), 5int, Tree::Null, 0int,
{
    let extend_key = Value::String("extend".to_owned());
    match map.get(&extend_key) {
        None => Ok(map.clone()),
        Some(Value::String(reference)) => match extend_by(map, dir, reference, store, active) {
            Ok(merged) => Ok(merged),
            Err(halt) => Err(halt_within(halt, file)),
        },
        Some(Value::Sequence(items)) => {
            let ghost list = view_all(items@);
            proof {
                lemma_view_all(items@);
            }
            let mut bases = Mapping::new();
            let mut i: usize = 0;
            while i < items.len()
                invariant
                    i <= items.len(),
                    folded_bases(store@, list, i as nat, file@, dir@, texts(active@))
                        == Outcome::Done(bases@),
                decreases items.len() - i,
            {
                let base = match &items[i] {
                    Value::String(reference) => resolve_base(reference, dir, store, active),
                    _ => Err(
                        Halt::Failed(Error::new(ErrorKind::InvalidDirective, file.clone())),
                    ),
                };
                match base {
                    Ok(base) => {
                        bases = merge_mapping(&base, &bases);
                    },
                    Err(halt) => {
                        proof {
                            lemma_bases_halt(
                                store@,
                                list,
                                (i + 1) as nat,
                                list.len(),
                                file@,
                                dir@,
                                texts(active@),
                            );
                        }
                        return Err(halt_within(halt, file));
                    },
                }
                i += 1;
            }
            Ok(merge_mapping(map, &bases))
        },
        Some(_) => Err(
            Halt::Failed(
                Error::new(ErrorKind::InvalidDirective, file.clone()).within(file.clone()),
            ),
        ),
    }
}

/// Replaces a tagged node of the document in `file`: an inclusion by the
/// resolved document that it names, a node with another tag by itself.
pub fn load_include(
    tagged: &TaggedValue,
    file: &String,
    dir: &String,
    store: &Store,
    active: &Vec<String>,
) -> (result: Result<Value, Halt>)
    ensures
        tree_outcome(result) == included_tagged(
            store@,
            tagged.tag@,
            tagged.value@,
            file@,
            dir@,
            texts(active@),
        ),
    decreases remaining(store@, texts(active@)), 3int, Tree::Null, 0int,
{
    proof {
        store.lemma_finite();
    }
    if same_text(&tagged.tag, "!include") {
        match &tagged.value {
            Value::String(reference) => match resolve_reference(reference, dir, store) {
                Ok(path) => resolve_file(&path, store, active),
                Err(halt) => Err(halt),
            },
            _ => Err(Halt::Failed(Error::new(ErrorKind::InvalidInclusionTarget, file.clone()))),
        }
    } else {
        Ok(Value::Tagged(Box::new(tagged.clone())))
    }
}

/// Replaces every inclusion of the document in `file` that is reached
/// through mappings and sequences. Keys and order stay as they are. A
/// failure of an inclusion carries `file` in its trail.
#[verifier::loop_isolation(false)]
pub fn handle_include(
    value: &Value,
    file: &String,
    dir: &String,
    store: &Store,
    active: &Vec<String>,
) -> (result: Result<Value, Halt>)
    ensures
        tree_outcome(result) == included(store@, value@, file@, dir@, texts(active@)),
    decreases remaining(store@, texts(active@)), 6int, value, 0int,
{
    match value {
        Value::Mapping(map) => {
            let count = map.len();
            let mut resolved = Mapping::new();
            let mut i: usize = 0;
            while i < count
                invariant
                    i <= count,
                    included_entries(store@, map@, i as nat, file@, dir@, texts(active@))
                        == Outcome::Done(resolved@),
                decreases count - i,
            {
                match handle_include(map.value_at(i), file, dir, store, active) {
                    Ok(item) => {
                        proof {
                            lemma_entries_keep_keys(
                                store@,
                                map@,
                                i as nat,
                                file@,
                                dir@,
                                texts(active@),
                            );
                            lemma_position_is(resolved@, map@[i as int].0, i as int);
                        }
                        resolved.insert(map.key_at(i).clone(), item);
                    },
                    Err(halt) => {
                        proof {
                            lemma_entries_halt(
                                store@,
                                map@,
                                (i + 1) as nat,
                                map@.len(),
                                file@,
                                dir@,
                                texts(active@),
                            );
                        }
                        return Err(halt);
                    },
                }
                i += 1;
            }
            Ok(Value::Mapping(resolved))
        },
        Value::Sequence(items) => {
            let ghost list = view_all(items@);
            proof {
                lemma_view_all(items@);
            }
            let mut resolved: Vec<Value> = Vec::new();
            let mut i: usize = 0;
            while i < items.len()
                invariant
                    i <= items.len(),
                    included_items(store@, list, i as nat, file@, dir@, texts(active@))
                        == Outcome::Done(view_all(resolved@)),
                decreases items.len() - i,
            {
                match handle_include(&items[i], file, dir, store, active) {
                    Ok(item) => {
                        let ghost before = resolved@;
                        resolved.push(item);
                        proof {
                            assert(resolved@.drop_last() =~= before);
                        }
                    },
                    Err(halt) => {
                        proof {
                            lemma_items_halt(
                                store@,
                                list,
                                (i + 1) as nat,
                                list.len(),
                                file@,
                                dir@,
                                texts(active@),
                            );
                        }
                        return Err(halt);
                    },
                }
                i += 1;
            }
            Ok(Value::Sequence(resolved))
        },
        Value::Tagged(tagged) => match load_include(tagged, file, dir, store, active) {
            Ok(resolved) => Ok(resolved),
            Err(halt) => Err(halt_within(halt, file)),
        },
        _ => Ok(value.clone()),
    }
}

/// Resolves the document of the file that `path` leads to: the extensions
/// that it declares are merged in, and every inclusion is replaced by the
/// resolved document that it names. Where the store lacks an answer, the
/// result says which.
pub fn handle_yaml(path: &str, store: &Store) -> (result: Result<Value, Halt>)
    ensures
        store@.documents.dom().finite(),
        tree_outcome(result) == resolved_file(store@, path@, Seq::empty()),
        asks_new(store@, tree_outcome(result)),
        result matches Ok(value) ==> settled(value@) && undirected(value@),
{
    let path = path.to_owned();
    let active: Vec<String> = Vec::new();
    proof {
        assert(texts(active@) =~= Seq::<Seq<char>>::empty());
        store.lemma_finite();
        law_request_is_new(store@, path@, Seq::empty());
        law_result_is_resolved(store@, path@, Seq::empty());
    }
    resolve_file(&path, store, &active)
}

/// Resolves a document as [`handle_yaml`] does, and fails where the result
/// is no mapping.
pub fn handle_mapping_yaml(path: &str, store: &Store) -> (result: Result<Mapping, Halt>)
    ensures
        store@.documents.dom().finite(),
        entries_outcome(result) == resolved_mapping_file(store@, path@, Seq::empty()),
        asks_new(store@, entries_outcome(result)),
        result matches Ok(mapping) ==> settled(Tree::Mapping(mapping@)) && !has_key(
            mapping@,
            directive_key(),
        ),
{
    let path = path.to_owned();
    let active: Vec<String> = Vec::new();
    proof {
        assert(texts(active@) =~= Seq::<Seq<char>>::empty());
        store.lemma_finite();
        law_request_is_new(store@, path@, Seq::empty());
        law_result_is_resolved(store@, path@, Seq::empty());
    }
    resolve_mapping_file(&path, store, &active)
}

} // verus!
