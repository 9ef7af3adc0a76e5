//! The generic document tree and its mathematical model.

use vstd::prelude::*;

verus! {

/// A YAML number. A float is carried by the bits of its IEEE-754 double.
#[derive(Clone, Copy, Debug, PartialEq, Eq, Structural)]
pub enum Number {
    PosInt(u64),
    NegInt(i64),
    Float(u64),
}

/// The mathematical model of a document: what a [`Value`] denotes.
pub enum Tree {
    Null,
    Bool(bool),
    Number(Number),
    String(Seq<char>),
    Sequence(Seq<Tree>),
    Mapping(Seq<(Tree, Tree)>),
    Tagged(Seq<char>, Box<Tree>),
}

/// A parsed document, or any node of one.
#[derive(Debug, PartialEq, Eq)]
pub enum Value {
    Null,
    Bool(bool),
    Number(Number),
    String(String),
    Sequence(Vec<Value>),
    Mapping(Mapping),
    Tagged(Box<TaggedValue>),
}

/// A node that carries a tag, such as `!include path`.
#[derive(Debug, PartialEq, Eq)]
pub struct TaggedValue {
    pub tag: String,
    pub value: Value,
}

/// An ordered map from keys to values in which no key occurs twice.
#[derive(Debug, PartialEq, Eq)]
pub struct Mapping {
    entries: Vec<(Value, Value)>,
}

/// No key occurs twice among the entries.
pub open spec fn unique_keys(entries: Seq<(Tree, Tree)>) -> bool {
    forall|i: int, j: int|
        0 <= i < entries.len() && 0 <= j < entries.len() && i != j ==> entries[i].0 != entries[j].0
}

/// Whether some entry has the key.
pub open spec fn has_key(entries: Seq<(Tree, Tree)>, key: Tree) -> bool {
    exists|i: int| 0 <= i < entries.len() && entries[i].0 == key
}

/// The position of the first entry with the key, or the number of entries if there is none.
pub open spec fn position_of(entries: Seq<(Tree, Tree)>, key: Tree) -> int
    decreases entries.len(),
{
    if entries.len() == 0 {
        0
    } else if entries[0].0 == key {
        0
    } else {
        1 + position_of(entries.drop_first(), key)
    }
}

/// The value stored under the key, if any.
pub open spec fn lookup(entries: Seq<(Tree, Tree)>, key: Tree) -> Option<Tree> {
    let at = position_of(entries, key);
    if at < entries.len() {
        Some(entries[at].1)
    } else {
        None
    }
}

/// The entries after storing `value` under `key`: in place where the key is
/// present, at the end where it is not.
pub open spec fn with_entry(entries: Seq<(Tree, Tree)>, key: Tree, value: Tree) -> Seq<
    (Tree, Tree),
> {
    let at = position_of(entries, key);
    if at < entries.len() {
        entries.update(at, (key, value))
    } else {
        entries.push((key, value))
    }
}

/// The entries without the first one stored under `key`, which is the only
/// one where no key occurs twice.
pub open spec fn without_key(entries: Seq<(Tree, Tree)>, key: Tree) -> Seq<(Tree, Tree)> {
    let at = position_of(entries, key);
    if at < entries.len() {
        entries.remove(at)
    } else {
        entries
    }
}

/// The position of a key is that of the first entry that has it.
pub proof fn lemma_position_of(entries: Seq<(Tree, Tree)>, key: Tree)
    ensures
        0 <= position_of(entries, key) <= entries.len(),
        position_of(entries, key) < entries.len() ==> entries[position_of(entries, key)].0 == key,
        forall|i: int| 0 <= i < position_of(entries, key) ==> (#[trigger] entries[i]).0 != key,
        position_of(entries, key) < entries.len() <==> has_key(entries, key),
    decreases entries.len(),
{
    if entries.len() == 0 {
    } else if entries[0].0 == key {
    } else {
        let rest = entries.drop_first();
        lemma_position_of(rest, key);
        let at = position_of(rest, key);
        assert forall|i: int| 0 <= i < 1 + at implies (#[trigger] entries[i]).0 != key by {
            if i > 0 {
                assert(entries[i] == rest[i - 1]);
            }
        }
        if at < rest.len() {
            assert(entries[1 + at] == rest[at]);
        }
        if has_key(entries, key) {
            let i = choose|i: int| 0 <= i < entries.len() && entries[i].0 == key;
            assert(rest[i - 1] == entries[i]);
        }
    }
}

/// The first entry with a key is the one before which no entry has it.
pub proof fn lemma_position_is(entries: Seq<(Tree, Tree)>, key: Tree, at: int)
    requires
        0 <= at <= entries.len(),
        forall|j: int| 0 <= j < at ==> (#[trigger] entries[j]).0 != key,
        at < entries.len() ==> entries[at].0 == key,
    ensures
        position_of(entries, key) == at,
{
    lemma_position_of(entries, key);
    let found = position_of(entries, key);
    if found < at {
        assert(entries[found].0 == key);
    } else if found > at {
        assert(entries[at].0 == key);
    }
}

/// What a sequence of values denotes, item by item.
pub open spec fn view_all(items: Seq<Value>) -> Seq<Tree>
    decreases items,
{
    if items.len() == 0 {
        Seq::empty()
    } else {
        view_all(items.drop_last()).push(items.last().view())
    }
}

/// What a sequence of entries denotes, entry by entry.
pub open spec fn view_entries(entries: Seq<(Value, Value)>) -> Seq<(Tree, Tree)>
    decreases entries,
{
    if entries.len() == 0 {
        Seq::empty()
    } else {
        view_entries(entries.drop_last()).push((entries.last().0.view(), entries.last().1.view()))
    }
}

impl View for Value {
    type V = Tree;

    open spec fn view(&self) -> Tree
        decreases self,
    {
        match self {
            Value::Null => Tree::Null,
            Value::Bool(b) => Tree::Bool(*b),
            Value::Number(n) => Tree::Number(*n),
            Value::String(s) => Tree::String(s@),
            Value::Sequence(items) => Tree::Sequence(view_all(items@)),
            Value::Mapping(m) => Tree::Mapping(m.view()),
            Value::Tagged(t) => Tree::Tagged(t.tag@, Box::new(t.value.view())),
        }
    }
}

impl View for TaggedValue {
    type V = (Seq<char>, Tree);

    open spec fn view(&self) -> (Seq<char>, Tree) {
        (self.tag@, self.value@)
    }
}

impl View for Mapping {
    type V = Seq<(Tree, Tree)>;

    closed spec fn view(&self) -> Seq<(Tree, Tree)>
        decreases self,
    {
        view_entries(self.entries@)
    }
}

/// How the view of a sequence of values is made up of the views of its items.
pub proof fn lemma_view_all(items: Seq<Value>)
    ensures
        view_all(items).len() == items.len(),
        forall|i: int| 0 <= i < items.len() ==> (#[trigger] view_all(items)[i]) == items[i]@,
    decreases items.len(),
{
    if items.len() > 0 {
        lemma_view_all(items.drop_last());
        assert(view_all(items) == view_all(items.drop_last()).push(items.last().view()));
    }
}

proof fn lemma_view_entries(entries: Seq<(Value, Value)>)
    ensures
        view_entries(entries).len() == entries.len(),
        forall|i: int|
            0 <= i < entries.len() ==> (#[trigger] view_entries(entries)[i]) == (
                entries[i].0@,
                entries[i].1@,
            ),
    decreases entries.len(),
{
    if entries.len() > 0 {
        lemma_view_entries(entries.drop_last());
        assert(view_entries(entries) == view_entries(entries.drop_last()).push(
            (entries.last().0.view(), entries.last().1.view()),
        ));
    }
}

impl Mapping {
    #[verifier::type_invariant]
    closed spec fn inv(&self) -> bool {
        unique_keys(view_entries(self.entries@))
    }

    /// The empty mapping.
    pub fn new() -> (m: Mapping)
        ensures
            m@ == Seq::<(Tree, Tree)>::empty(),
    {
        let entries: Vec<(Value, Value)> = Vec::new();
        proof {
            lemma_view_entries(entries@);
            assert(view_entries(entries@) =~= Seq::<(Tree, Tree)>::empty());
        }
        Mapping { entries }
    }

    /// The number of entries, none of which shares its key with another.
    pub fn len(&self) -> (n: usize)
        ensures
            n == self@.len(),
            unique_keys(self@),
    {
        proof {
            use_type_invariant(self);
            lemma_view_entries(self.entries@);
        }
        self.entries.len()
    }

    /// The key of the entry at `index`.
    pub fn key_at(&self, index: usize) -> (key: &Value)
        requires
            index < self@.len(),
        ensures
            key@ == self@[index as int].0,
    {
        proof {
            lemma_view_entries(self.entries@);
        }
        &self.entries[index].0
    }

    /// The value of the entry at `index`, which is a part of the mapping.
    pub fn value_at(&self, index: usize) -> (value: &Value)
        requires
            index < self@.len(),
        ensures
            value@ == self@[index as int].1,
            decreases_to!(self => value),
    {
        proof {
            lemma_view_entries(self.entries@);
            assert(decreases_to!(self => self.entries));
            assert(decreases_to!(self.entries => self.entries@));
            assert(decreases_to!(self.entries@ => self.entries@[index as int]));
            assert(decreases_to!(self.entries@[index as int] => self.entries@[index as int].1));
        }
        &self.entries[index].1
    }

    /// Where the entry with the given key stands, if there is one.
    pub fn position(&self, key: &Value) -> (at: Option<usize>)
        ensures
            match at {
                Some(i) => i == position_of(self@, key@) && i < self@.len(),
                None => position_of(self@, key@) == self@.len(),
            },
    {
        proof {
            lemma_view_entries(self.entries@);
            lemma_position_of(self@, key@);
        }
        let mut i: usize = 0;
        while i < self.entries.len()
            invariant
                i <= self.entries.len(),
                self@ == view_entries(self.entries@),
                self@.len() == self.entries.len(),
                forall|j: int| 0 <= j < i ==> (#[trigger] self@[j]).0 != key@,
                forall|j: int|
                    0 <= j < self.entries.len() ==> (#[trigger] self@[j]) == (
                        self.entries@[j].0@,
                        self.entries@[j].1@,
                    ),
                0 <= position_of(self@, key@) <= self@.len(),
                position_of(self@, key@) < self@.len() ==> self@[position_of(self@, key@)].0
                    == key@,
                forall|j: int| 0 <= j < position_of(self@, key@) ==> (#[trigger] self@[j]).0 != key@,
            decreases self.entries.len() - i,
        {
            if self.entries[i].0.same_as(key) {
                assert(self@[i as int].0 == key@);
                return Some(i);
            }
            i += 1;
        }
        None
    }

    /// The value stored under the key, if any.
    pub fn get(&self, key: &Value) -> (found: Option<&Value>)
        ensures
            match found {
                Some(value) => lookup(self@, key@) == Some(value@),
                None => lookup(self@, key@).is_none(),
            },
    {
        proof {
            lemma_view_entries(self.entries@);
        }
        match self.position(key) {
            Some(i) => Some(&self.entries[i].1),
            None => None,
        }
    }

    /// Stores `value` under `key`: in place of the value that the key had,
    /// or as a new last entry.
    pub fn insert(&mut self, key: Value, value: Value)
        ensures
            final(self)@ == with_entry(old(self)@, key@, value@),
    {
        proof {
            use_type_invariant(&*self);
            lemma_view_entries(self.entries@);
            lemma_position_of(self@, key@);
        }
        let ghost before = self.entries@;
        let at = self.position(&key);
        let mut entries: Vec<(Value, Value)> = Vec::new();
        proof {
            lemma_view_entries(entries@);
        }
        std::mem::swap(&mut self.entries, &mut entries);
        match at {
            Some(i) => {
                entries.set(i, (key, value));
                proof {
                    lemma_view_entries(entries@);
                    assert(view_entries(entries@) =~= view_entries(before).update(
                        i as int,
                        (key@, value@),
                    ));
                }
            },
            None => {
                entries.push((key, value));
                proof {
                    lemma_view_entries(entries@);
                    assert(view_entries(entries@) =~= view_entries(before).push((key@, value@)));
                }
            },
        }
        std::mem::swap(&mut self.entries, &mut entries);
    }

    /// Takes out the entry stored under `key`, if there is one, and keeps the
    /// order of the others.
    pub fn remove(&mut self, key: &Value) -> (taken: Option<Value>)
        ensures
            final(self)@ == without_key(old(self)@, key@),
            match taken {
                Some(value) => lookup(old(self)@, key@) == Some(value@),
                None => lookup(old(self)@, key@).is_none(),
            },
    {
        proof {
            use_type_invariant(&*self);
            lemma_view_entries(self.entries@);
        }
        let ghost before = self.entries@;
        match self.position(key) {
            Some(i) => {
                let mut entries: Vec<(Value, Value)> = Vec::new();
                proof {
                    lemma_view_entries(entries@);
                }
                std::mem::swap(&mut self.entries, &mut entries);
                let entry = entries.remove(i);
                proof {
                    lemma_view_entries(entries@);
                    assert(view_entries(entries@) =~= view_entries(before).remove(i as int));
                }
                std::mem::swap(&mut self.entries, &mut entries);
                Some(entry.1)
            },
            None => None,
        }
    }

    fn same_as(&self, other: &Mapping) -> (same: bool)
        ensures
            same == (self@ == other@),
        decreases self,
    {
        proof {
            lemma_view_entries(self.entries@);
            lemma_view_entries(other.entries@);
        }
        if self.entries.len() != other.entries.len() {
            return false;
        }
        let mut i: usize = 0;
        while i < self.entries.len()
            invariant
                i <= self.entries.len(),
                self.entries.len() == other.entries.len(),
                self@ == view_entries(self.entries@),
                other@ == view_entries(other.entries@),
                self@.len() == self.entries.len(),
                other@.len() == other.entries.len(),
                forall|j: int|
                    0 <= j < self.entries.len() ==> (#[trigger] self@[j]) == (
                        self.entries@[j].0@,
                        self.entries@[j].1@,
                    ),
                forall|j: int|
                    0 <= j < other.entries.len() ==> (#[trigger] other@[j]) == (
                        other.entries@[j].0@,
                        other.entries@[j].1@,
                    ),
                forall|j: int| 0 <= j < i ==> self@[j] == other@[j],
            decreases self.entries.len() - i,
        {
            let same_key = self.entries[i].0.same_as(&other.entries[i].0);
            if !same_key {
                assert(self@[i as int] != other@[i as int]);
                return false;
            }
            let same_value = self.entries[i].1.same_as(&other.entries[i].1);
            if !same_value {
                assert(self@[i as int] != other@[i as int]);
                return false;
            }
            i += 1;
        }
        assert(self@ =~= other@);
        true
    }
}

fn same_items(left: &Vec<Value>, right: &Vec<Value>) -> (same: bool)
    ensures
        same == (view_all(left@) == view_all(right@)),
    decreases left,
{
    proof {
        lemma_view_all(left@);
        lemma_view_all(right@);
    }
    if left.len() != right.len() {
        return false;
    }
    let mut i: usize = 0;
    while i < left.len()
        invariant
            i <= left.len(),
            left.len() == right.len(),
            view_all(left@).len() == left.len(),
            view_all(right@).len() == right.len(),
            forall|j: int| 0 <= j < left.len() ==> (#[trigger] view_all(left@)[j]) == left@[j]@,
            forall|j: int| 0 <= j < right.len() ==> (#[trigger] view_all(right@)[j]) == right@[j]@,
            forall|j: int| 0 <= j < i ==> view_all(left@)[j] == view_all(right@)[j],
        decreases left.len() - i,
    {
        if !left[i].same_as(&right[i]) {
            assert(view_all(left@)[i as int] != view_all(right@)[i as int]);
            return false;
        }
        i += 1;
    }
    assert(view_all(left@) =~= view_all(right@));
    true
}

impl Value {
    /// Whether two values denote the same tree.
    pub fn same_as(&self, other: &Value) -> (same: bool)
        ensures
            same == (self@ == other@),
        decreases self,
    {
        match self {
            Value::Null => matches!(other, Value::Null),
            Value::Bool(a) => match other {
                Value::Bool(b) => *a == *b,
                _ => false,
            },
            Value::Number(a) => match other {
                Value::Number(b) => *a == *b,
                _ => false,
            },
            Value::String(a) => match other {
                Value::String(b) => *a == *b,
                _ => false,
            },
            Value::Sequence(a) => match other {
                Value::Sequence(b) => same_items(a, b),
                _ => false,
            },
            Value::Mapping(a) => match other {
                Value::Mapping(b) => a.same_as(b),
                _ => false,
            },
            Value::Tagged(a) => match other {
                Value::Tagged(b) => a.tag == b.tag && a.value.same_as(&b.value),
                _ => false,
            },
        }
    }
}

fn clone_items(items: &Vec<Value>) -> (copy: Vec<Value>)
    ensures
        view_all(copy@) == view_all(items@),
    decreases items,
{
    let mut copy: Vec<Value> = Vec::new();
    let mut i: usize = 0;
    while i < items.len()
        invariant
            i <= items.len(),
            copy.len() == i,
            forall|j: int| 0 <= j < i ==> (#[trigger] copy@[j])@ == items@[j]@,
        decreases items.len() - i,
    {
        copy.push(items[i].clone());
        i += 1;
    }
    proof {
        lemma_view_all(items@);
        lemma_view_all(copy@);
        assert(view_all(copy@) =~= view_all(items@));
    }
    copy
}

impl Clone for Value {
    fn clone(&self) -> (copy: Value)
        ensures
            copy@ == self@,
        decreases self,
    {
        match self {
            Value::Null => Value::Null,
            Value::Bool(b) => Value::Bool(*b),
            Value::Number(n) => Value::Number(*n),
            Value::String(s) => Value::String(s.clone()),
            Value::Sequence(items) => Value::Sequence(clone_items(items)),
            Value::Mapping(m) => Value::Mapping(m.clone()),
            Value::Tagged(t) => Value::Tagged(
                Box::new(TaggedValue { tag: t.tag.clone(), value: t.value.clone() }),
            ),
        }
    }
}

impl Clone for TaggedValue {
    fn clone(&self) -> (copy: TaggedValue)
        ensures
            copy@ == self@,
    {
        TaggedValue { tag: self.tag.clone(), value: self.value.clone() }
    }
}

impl Clone for Mapping {
    fn clone(&self) -> (copy: Mapping)
        ensures
            copy@ == self@,
        decreases self,
    {
        let mut entries: Vec<(Value, Value)> = Vec::new();
        let mut i: usize = 0;
        while i < self.entries.len()
            invariant
                i <= self.entries.len(),
                entries.len() == i,
                forall|j: int|
                    0 <= j < i ==> (#[trigger] entries@[j]).0@ == self.entries@[j].0@
                        && entries@[j].1@ == self.entries@[j].1@,
            decreases self.entries.len() - i,
        {
            let key = self.entries[i].0.clone();
            let value = self.entries[i].1.clone();
            entries.push((key, value));
            i += 1;
        }
        proof {
            use_type_invariant(self);
            lemma_view_entries(self.entries@);
            lemma_view_entries(entries@);
            assert(view_entries(entries@) =~= view_entries(self.entries@));
        }
        Mapping { entries }
    }
}

} // verus!
