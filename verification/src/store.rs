//! What is known of the files so far.
//!
//! A resolution does not touch the file system. It reads a [`Store`], in
//! which its caller has recorded where paths lead and what the files there
//! hold, and it says with a [`Request`] what it has to know next.

use crate::value::{Tree, Value};
use vstd::prelude::*;

verus! {

/// What reading a file gave.
#[derive(Clone, Debug, PartialEq, Eq)]
pub enum Loaded {
    /// The file could not be opened or read.
    Unreadable,
    /// The file does not hold a well-formed document.
    Malformed,
    /// The document that the file holds.
    Document(Value),
}

/// What a [`Loaded`] denotes.
pub enum LoadedView {
    Unreadable,
    Malformed,
    Document(Tree),
}

impl View for Loaded {
    type V = LoadedView;

    open spec fn view(&self) -> LoadedView {
        match self {
            Loaded::Unreadable => LoadedView::Unreadable,
            Loaded::Malformed => LoadedView::Malformed,
            Loaded::Document(value) => LoadedView::Document(value@),
        }
    }
}

/// What a resolution has to know before it can go on.
#[derive(Clone, Debug, PartialEq, Eq)]
pub enum Request {
    /// The canonical path of the file that a path leads to.
    Locate(String),
    /// The document in the file at a canonical path.
    Read(String),
}

/// What a [`Request`] denotes.
pub enum RequestView {
    Locate(Seq<char>),
    Read(Seq<char>),
}

impl View for Request {
    type V = RequestView;

    open spec fn view(&self) -> RequestView {
        match self {
            Request::Locate(path) => RequestView::Locate(path@),
            Request::Read(path) => RequestView::Read(path@),
        }
    }
}

/// The files as a resolution sees them: for each path that was asked about,
/// the canonical path that it leads to, if the file exists; for each
/// canonical path that was read, what reading gave.
pub struct World {
    pub locations: Map<Seq<char>, Option<Seq<char>>>,
    pub documents: Map<Seq<char>, LoadedView>,
}

/// The answers recorded so far. A later answer to the same question replaces
/// an earlier one.
#[derive(Debug)]
pub struct Store {
    locations: Vec<(String, Option<String>)>,
    documents: Vec<(String, Loaded)>,
}

/// The text of a path that may be missing.
pub open spec fn text_of(path: Option<String>) -> Option<Seq<char>> {
    match path {
        Some(path) => Some(path@),
        None => None,
    }
}

pub closed spec fn location_map(entries: Seq<(String, Option<String>)>) -> Map<
    Seq<char>,
    Option<Seq<char>>,
>
    decreases entries.len(),
{
    if entries.len() == 0 {
        Map::empty()
    } else {
        location_map(entries.drop_last()).insert(entries.last().0@, text_of(entries.last().1))
    }
}

pub closed spec fn document_map(entries: Seq<(String, Loaded)>) -> Map<Seq<char>, LoadedView>
    decreases entries.len(),
{
    if entries.len() == 0 {
        Map::empty()
    } else {
        document_map(entries.drop_last()).insert(entries.last().0@, entries.last().1@)
    }
}

proof fn lemma_document_map_finite(entries: Seq<(String, Loaded)>)
    ensures
        document_map(entries).dom().finite(),
    decreases entries.len(),
{
    if entries.len() > 0 {
        lemma_document_map_finite(entries.drop_last());
    }
}

impl View for Store {
    type V = World;

    closed spec fn view(&self) -> World {
        World {
            locations: location_map(self.locations@),
            documents: document_map(self.documents@),
        }
    }
}

impl Store {
    /// A store that holds no answer.
    pub fn new() -> (store: Store)
        ensures
            store@.locations == Map::<Seq<char>, Option<Seq<char>>>::empty(),
            store@.documents == Map::<Seq<char>, LoadedView>::empty(),
    {
        Store { locations: Vec::new(), documents: Vec::new() }
    }

    /// Records where a path leads: to the file at `found`, or to no file.
    pub fn record_location(&mut self, path: String, found: Option<String>)
        ensures
            final(self)@.locations == old(self)@.locations.insert(path@, text_of(found)),
            final(self)@.documents == old(self)@.documents,
    {
        let ghost before = self.locations@;
        self.locations.push((path, found));
        assert(self.locations@.drop_last() =~= before);
    }

    /// Records what reading the file at a canonical path gave.
    pub fn record_document(&mut self, path: String, loaded: Loaded)
        ensures
            final(self)@.documents == old(self)@.documents.insert(path@, loaded@),
            final(self)@.locations == old(self)@.locations,
    {
        let ghost before = self.documents@;
        self.documents.push((path, loaded));
        assert(self.documents@.drop_last() =~= before);
    }

    /// A store holds finitely many documents.
    pub proof fn lemma_finite(&self)
        ensures
            self@.documents.dom().finite(),
    {
        lemma_document_map_finite(self.documents@);
    }

    /// Where a path leads, if that was recorded.
    pub fn location(&self, path: &String) -> (found: Option<&Option<String>>)
        ensures
            match found {
                Some(target) => self@.locations.contains_key(path@) && self@.locations[path@]
                    == text_of(*target),
                None => !self@.locations.contains_key(path@),
            },
    {
        let mut i: usize = self.locations.len();
        assert(self.locations@.take(i as int) =~= self.locations@);
        while i > 0
            invariant
                i <= self.locations.len(),
                location_map(self.locations@).contains_key(path@) == location_map(
                    self.locations@.take(i as int),
                ).contains_key(path@),
                location_map(self.locations@).contains_key(path@) ==> location_map(
                    self.locations@,
                )[path@] == location_map(self.locations@.take(i as int))[path@],
            decreases i,
        {
            let ghost prefix = self.locations@.take(i as int);
            assert(prefix.drop_last() =~= self.locations@.take(i - 1));
            assert(prefix.last() == self.locations@[i - 1]);
            i -= 1;
            if self.locations[i].0 == *path {
                return Some(&self.locations[i].1);
            }
        }
        None
    }

    /// What reading the file at a canonical path gave, if that was recorded.
    pub fn document(&self, path: &String) -> (found: Option<&Loaded>)
        ensures
            match found {
                Some(loaded) => self@.documents.contains_key(path@) && self@.documents[path@]
                    == loaded@,
                None => !self@.documents.contains_key(path@),
            },
    {
        let mut i: usize = self.documents.len();
        assert(self.documents@.take(i as int) =~= self.documents@);
        while i > 0
            invariant
                i <= self.documents.len(),
                document_map(self.documents@).contains_key(path@) == document_map(
                    self.documents@.take(i as int),
                ).contains_key(path@),
                document_map(self.documents@).contains_key(path@) ==> document_map(
                    self.documents@,
                )[path@] == document_map(self.documents@.take(i as int))[path@],
            decreases i,
        {
            let ghost prefix = self.documents@.take(i as int);
            assert(prefix.drop_last() =~= self.documents@.take(i - 1));
            assert(prefix.last() == self.documents@[i - 1]);
            i -= 1;
            if self.documents[i].0 == *path {
                return Some(&self.documents[i].1);
            }
        }
        None
    }
}

} // verus!
