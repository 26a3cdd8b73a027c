//! The document: a tree of scalars, arrays and tables, and its mathematical
//! model.
use crate::number::is_float_literal;
use vstd::prelude::*;

verus! {

/// The mathematical model of a document.
///
/// A table is the sequence of its entries, in the order in which their keys
/// were first inserted.
pub enum Tree {
    String(Seq<char>),
    Integer(int),
    /// A number in decimal or exponent notation, held as the text that
    /// denotes it.
    Float(Seq<char>),
    Boolean(bool),
    /// A date or time, held as its canonical text.
    Datetime(Seq<char>),
    Array(Seq<Tree>),
    Table(Seq<(Seq<char>, Tree)>),
}

/// No key occurs twice among `entries`.
pub open spec fn unique_keys(entries: Seq<(Seq<char>, Tree)>) -> bool {
    forall|i: int, j: int|
        0 <= i < j < entries.len() ==> (#[trigger] entries[i]).0 != (#[trigger] entries[j]).0
}

/// The position of the first entry with the key `key`.
pub open spec fn key_index(entries: Seq<(Seq<char>, Tree)>, key: Seq<char>) -> Option<int>
    decreases entries.len(),
{
    if entries.len() == 0 {
        None
    } else {
        match key_index(entries.drop_last(), key) {
            Some(i) => Some(i),
            None => if entries.last().0 == key {
                Some(entries.len() - 1)
            } else {
                None
            },
        }
    }
}

/// The value under `key`, if there is one.
pub open spec fn lookup(entries: Seq<(Seq<char>, Tree)>, key: Seq<char>) -> Option<Tree> {
    match key_index(entries, key) {
        Some(i) => Some(entries[i].1),
        None => None,
    }
}

/// `entries` with `value` under `key`: in the place of the value that was
/// there, or as a new last entry.
pub open spec fn upsert(entries: Seq<(Seq<char>, Tree)>, key: Seq<char>, value: Tree) -> Seq<
    (Seq<char>, Tree),
> {
    match key_index(entries, key) {
        Some(i) => entries.update(i, (key, value)),
        None => entries.push((key, value)),
    }
}

/// `entries` without the entry under `key`.
pub open spec fn without_key(entries: Seq<(Seq<char>, Tree)>, key: Seq<char>) -> Seq<
    (Seq<char>, Tree),
> {
    match key_index(entries, key) {
        Some(i) => entries.remove(i),
        None => entries,
    }
}

/// `key_index` finds the least position that holds the key, and nothing
/// where no position holds it.
pub proof fn lemma_key_index(entries: Seq<(Seq<char>, Tree)>, key: Seq<char>)
    ensures
        match key_index(entries, key) {
            Some(i) => {
                &&& 0 <= i < entries.len()
                &&& entries[i].0 == key
                &&& forall|j: int| 0 <= j < i ==> (#[trigger] entries[j]).0 != key
            },
            None => forall|j: int| 0 <= j < entries.len() ==> (#[trigger] entries[j]).0 != key,
        },
    decreases entries.len(),
{
    if entries.len() > 0 {
        let front = entries.drop_last();
        lemma_key_index(front, key);
        assert(forall|j: int| 0 <= j < front.len() ==> front[j] == entries[j]);
    }
}

/// The least position that holds the key is what `key_index` finds.
pub proof fn lemma_key_index_at(entries: Seq<(Seq<char>, Tree)>, key: Seq<char>, i: int)
    requires
        0 <= i < entries.len(),
        entries[i].0 == key,
        forall|j: int| 0 <= j < i ==> (#[trigger] entries[j]).0 != key,
    ensures
        key_index(entries, key) == Some(i),
{
    lemma_key_index(entries, key);
}

/// Where no position holds the key, `key_index` finds nothing.
pub proof fn lemma_key_index_none(entries: Seq<(Seq<char>, Tree)>, key: Seq<char>)
    requires
        forall|j: int| 0 <= j < entries.len() ==> (#[trigger] entries[j]).0 != key,
    ensures
        key_index(entries, key) is None,
{
    lemma_key_index(entries, key);
}

/// What was put under a key is what is found under it.
pub proof fn lemma_lookup_upsert(entries: Seq<(Seq<char>, Tree)>, key: Seq<char>, value: Tree)
    ensures
        lookup(upsert(entries, key, value), key) == Some(value),
{
    lemma_key_index(entries, key);
    let after = upsert(entries, key, value);
    match key_index(entries, key) {
        Some(i) => {
            assert forall|j: int| 0 <= j < i implies (#[trigger] after[j]).0 != key by {
                assert(after[j] == entries[j]);
            }
            lemma_key_index_at(after, key, i);
        },
        None => {
            assert forall|j: int| 0 <= j < entries.len() implies (#[trigger] after[j]).0
                != key by {
                assert(after[j] == entries[j]);
            }
            lemma_key_index_at(after, key, entries.len() as int);
        },
    }
}

/// Putting a well-formed value under a key keeps a table well formed.
pub proof fn lemma_upsert_wf(entries: Seq<(Seq<char>, Tree)>, key: Seq<char>, value: Tree)
    requires
        Tree::Table(entries).wf(),
        value.wf(),
    ensures
        Tree::Table(upsert(entries, key, value)).wf(),
{
    lemma_key_index(entries, key);
    let after = upsert(entries, key, value);
    assert forall|i: int, j: int| 0 <= i < j < after.len() implies (#[trigger] after[i]).0 != (
    #[trigger] after[j]).0 by {
        if i < entries.len() {
            assert(after[i].0 == entries[i].0);
        }
        if j < entries.len() {
            assert(after[j].0 == entries[j].0);
        }
    }
    assert forall|i: int| 0 <= i < after.len() implies (#[trigger] after[i]).1.wf() by {
        if i < entries.len() && key_index(entries, key) != Some(i) {
            assert(after[i] == entries[i]);
        }
    }
}

/// Taking an entry out keeps a table well formed, and leaves no entry under
/// its key.
pub proof fn lemma_without_key_wf(entries: Seq<(Seq<char>, Tree)>, key: Seq<char>)
    requires
        Tree::Table(entries).wf(),
    ensures
        Tree::Table(without_key(entries, key)).wf(),
        key_index(without_key(entries, key), key) is None,
{
    lemma_key_index(entries, key);
    let after = without_key(entries, key);
    match key_index(entries, key) {
        Some(k) => {
            assert forall|i: int| 0 <= i < after.len() implies #[trigger] after[i] == entries[if i
                < k {
                i
            } else {
                i + 1
            }] by {}
            assert forall|i: int, j: int| 0 <= i < j < after.len() implies (#[trigger] after[i]).0
                != (#[trigger] after[j]).0 by {
                let a = if i < k { i } else { i + 1 };
                let b = if j < k { j } else { j + 1 };
                assert(entries[a].0 != entries[b].0);
            }
            assert forall|i: int| 0 <= i < after.len() implies (#[trigger] after[i]).1.wf() by {
                let a = if i < k { i } else { i + 1 };
                assert(entries[a].1.wf());
            }
            assert forall|j: int| 0 <= j < after.len() implies (#[trigger] after[j]).0 != key by {
                let b = if j < k { j } else { j + 1 };
                if b > k {
                    assert(entries[k].0 != entries[b].0);
                }
            }
            lemma_key_index_none(after, key);
        },
        None => {},
    }
}

impl Tree {
    /// No table anywhere in the tree holds a key twice, and the text of
    /// every floating-point number denotes one.
    pub open spec fn wf(self) -> bool
        decreases self,
    {
        match self {
            Tree::Float(text) => is_float_literal(text),
            Tree::Array(items) => forall|i: int| 0 <= i < items.len() ==> (#[trigger] items[i]).wf(),
            Tree::Table(entries) => {
                &&& unique_keys(entries)
                &&& forall|i: int| 0 <= i < entries.len() ==> (#[trigger] entries[i]).1.wf()
            },
            _ => true,
        }
    }
}

/// A table: values under keys, no key twice, in the order in which the keys
/// were first inserted.
#[derive(Debug, PartialEq)]
pub struct Table {
    entries: Vec<(String, Value)>,
}

/// A node of the document.
#[derive(Debug, PartialEq)]
pub enum Value {
    String(String),
    Integer(i64),
    /// A number in decimal or exponent notation, held as the text that
    /// denotes it.
    Float(String),
    Boolean(bool),
    /// A date or time, held as its canonical text.
    Datetime(String),
    Array(Vec<Value>),
    Table(Table),
}

/// The models of the nodes `items`.
pub open spec fn view_items(items: Seq<Value>) -> Seq<Tree>
    decreases items,
{
    Seq::new(
        items.len(),
        |i: int|
            if 0 <= i < items.len() {
                items[i]@
            } else {
                Tree::Boolean(false)
            },
    )
}

/// The models of the entries `entries`.
pub open spec fn view_entries(entries: Seq<(String, Value)>) -> Seq<(Seq<char>, Tree)>
    decreases entries,
{
    Seq::new(
        entries.len(),
        |i: int|
            if 0 <= i < entries.len() {
                (entries[i].0@, entries[i].1@)
            } else {
                (Seq::empty(), Tree::Boolean(false))
            },
    )
}

impl View for Table {
    type V = Seq<(Seq<char>, Tree)>;

    closed spec fn view(&self) -> Seq<(Seq<char>, Tree)>
        decreases self,
    {
        view_entries(self.entries@)
    }
}

impl View for Value {
    type V = Tree;

    open spec fn view(&self) -> Tree
        decreases self,
    {
        match self {
            Value::String(s) => Tree::String(s@),
            Value::Integer(i) => Tree::Integer(*i as int),
            Value::Float(t) => Tree::Float(t@),
            Value::Boolean(b) => Tree::Boolean(*b),
            Value::Datetime(t) => Tree::Datetime(t@),
            Value::Array(items) => Tree::Array(view_items(items@)),
            Value::Table(t) => Tree::Table(t@),
        }
    }
}

impl Table {
    /// No key occurs twice, here or in a table below, and the text of
    /// every floating-point number denotes one.
    pub open spec fn wf(&self) -> bool {
        Tree::Table(self@).wf()
    }

    /// The empty table.
    pub fn new() -> (t: Table)
        ensures
            t@ == Seq::<(Seq<char>, Tree)>::empty(),
            t.wf(),
    {
        let t = Table { entries: Vec::new() };
        assert(t@ =~= Seq::empty());
        t
    }

    /// The number of entries.
    pub fn len(&self) -> (n: usize)
        ensures
            n == self@.len(),
    {
        self.entries.len()
    }

    /// Whether the table has no entry.
    pub fn is_empty(&self) -> (b: bool)
        ensures
            b == (self@.len() == 0),
    {
        self.entries.len() == 0
    }

    /// The position of the entry under `key`.
    pub fn position(&self, key: &String) -> (r: Option<usize>)
        ensures
            match r {
                Some(i) => i < self@.len() && key_index(self@, key@) == Some(i as int),
                None => key_index(self@, key@) is None,
            },
    {
        let mut i: usize = 0;
        while i < self.entries.len()
            invariant
                i <= self.entries@.len(),
                key_index(self@.take(i as int), key@) is None,
            decreases self.entries@.len() - i,
        {
            assert(self@.take(i + 1).drop_last() =~= self@.take(i as int));
            if self.entries[i].0 == *key {
                assert(self@ =~= self@.take(i + 1) + self@.skip(i + 1));
                proof {
                    lemma_key_index(self@.take(i + 1), key@);
                    lemma_key_index_at(self@, key@, i as int);
                }
                return Some(i);
            }
            i += 1;
        }
        assert(self@.take(i as int) =~= self@);
        None
    }

    /// Whether there is an entry under `key`.
    pub fn contains_key(&self, key: &str) -> (b: bool)
        ensures
            b == key_index(self@, key@) is Some,
    {
        let owned = key.to_owned();
        self.position(&owned).is_some()
    }

    /// The value under `key`.
    pub fn get(&self, key: &str) -> (r: Option<&Value>)
        ensures
            match lookup(self@, key@) {
                Some(t) => r is Some && r->0@ == t,
                None => r is None,
            },
    {
        let owned = key.to_owned();
        proof {
            lemma_key_index(self@, key@);
        }
        match self.position(&owned) {
            Some(i) => Some(&self.entries[i].1),
            None => None,
        }
    }

    /// Puts `value` under `key`, in the place of the value that was there or
    /// as a new last entry, and returns the value that was there.
    pub fn insert(&mut self, key: String, value: Value) -> (r: Option<Value>)
        ensures
            final(self)@ == upsert(old(self)@, key@, value@),
            match lookup(old(self)@, key@) {
                Some(t) => r is Some && r->0@ == t,
                None => r is None,
            },
            old(self).wf() && value@.wf() ==> final(self).wf(),
    {
        proof {
            lemma_key_index(self@, key@);
            if self.wf() && value@.wf() {
                lemma_upsert_wf(self@, key@, value@);
            }
        }
        match self.position(&key) {
            Some(i) => {
                let mut held = value;
                assert(old(self)@[i as int] == (old(self).entries@[i as int].0@, old(self).entries@[i as int].1@));
                core::mem::swap(&mut self.entries[i].1, &mut held);
                assert(self.entries@[i as int].0 == old(self).entries@[i as int].0);
                assert(self@ =~= upsert(old(self)@, key@, value@));
                Some(held)
            },
            None => {
                self.entries.push((key, value));
                assert(self@ =~= upsert(old(self)@, key@, value@));
                None
            },
        }
    }

    /// Takes the entry under `key` out, and returns its value.
    pub fn remove(&mut self, key: &str) -> (r: Option<Value>)
        ensures
            final(self)@ == without_key(old(self)@, key@),
            match lookup(old(self)@, key@) {
                Some(t) => r is Some && r->0@ == t,
                None => r is None,
            },
            old(self).wf() ==> final(self).wf(),
    {
        proof {
            if self.wf() {
                lemma_without_key_wf(self@, key@);
            }
        }
        let owned = key.to_owned();
        proof {
            lemma_key_index(self@, key@);
        }
        match self.position(&owned) {
            Some(i) => {
                assert(old(self)@[i as int] == (old(self).entries@[i as int].0@, old(self).entries@[i as int].1@));
                let entry = self.entries.remove(i);
                assert(self@ =~= old(self)@.remove(i as int));
                Some(entry.1)
            },
            None => None,
        }
    }

    /// Takes the entry at position `i` out, and returns it.
    pub(crate) fn remove_at(&mut self, i: usize) -> (r: (String, Value))
        requires
            i < old(self)@.len(),
        ensures
            final(self)@ == old(self)@.remove(i as int),
            r.0@ == old(self)@[i as int].0,
            r.1@ == old(self)@[i as int].1,
    {
        let entry = self.entries.remove(i);
        assert(self@ =~= old(self)@.remove(i as int));
        entry
    }

    /// The key of the entry at position `i`.
    pub fn key_at(&self, i: usize) -> (r: &String)
        requires
            i < self@.len(),
        ensures
            r@ == self@[i as int].0,
    {
        &self.entries[i].0
    }

    /// The value of the entry at position `i`.
    pub fn value_at(&self, i: usize) -> (r: &Value)
        requires
            i < self@.len(),
        ensures
            r@ == self@[i as int].1,
    {
        &self.entries[i].1
    }

    /// The value of the entry at position `i`, to be changed in place.
    pub(crate) fn value_at_mut(&mut self, i: usize) -> (r: &mut Value)
        requires
            i < old(self)@.len(),
        ensures
            (*r)@ == old(self)@[i as int].1,
            final(self)@ == old(self)@.update(
                i as int,
                (old(self)@[i as int].0, (*final(r))@),
            ),
    {
        &mut self.entries[i].1
    }
}

impl Table {
    /// A table with equal entries.
    pub fn duplicate(&self) -> (r: Table)
        ensures
            r@ == self@,
        decreases Tree::Table(self@), 0nat,
    {
        let mut entries: Vec<(String, Value)> = Vec::new();
        let mut i: usize = 0;
        assert(view_entries(entries@) =~= self@.take(0));
        while i < self.entries.len()
            invariant
                i <= self.entries@.len(),
                view_entries(entries@) == self@.take(i as int),
            decreases self.entries@.len() - i,
        {
            proof {
                let tree = Tree::Table(self@);
                assert(decreases_to!(tree => tree->Table_0));
                assert(decreases_to!(tree->Table_0 => tree->Table_0[i as int]));
                assert(decreases_to!(tree->Table_0[i as int] => tree->Table_0[i as int].1));
            }
            let key = self.entries[i].0.clone();
            let value = self.entries[i].1.duplicate();
            let ghost before = entries@;
            entries.push((key, value));
            assert(view_entries(entries@) =~= view_entries(before).push((key@, value@)));
            assert(self@.take(i + 1) =~= self@.take(i as int).push(self@[i as int]));
            assert(view_entries(entries@) =~= self@.take(i + 1));
            i += 1;
        }
        assert(self@.take(i as int) =~= self@);
        Table { entries }
    }
}

impl Value {
    /// A value with an equal model.
    pub fn duplicate(&self) -> (r: Value)
        ensures
            r@ == self@,
        decreases self@, 1nat,
    {
        match self {
            Value::String(s) => Value::String(s.clone()),
            Value::Integer(i) => Value::Integer(*i),
            Value::Float(t) => Value::Float(t.clone()),
            Value::Boolean(b) => Value::Boolean(*b),
            Value::Datetime(t) => Value::Datetime(t.clone()),
            Value::Array(items) => {
                let mut copy: Vec<Value> = Vec::new();
                let mut i: usize = 0;
                assert(view_items(copy@) =~= view_items(items@).take(0));
                while i < items.len()
                    invariant
                        i <= items@.len(),
                        self@ == Tree::Array(view_items(items@)),
                        view_items(copy@) == view_items(items@).take(i as int),
                    decreases items@.len() - i,
                {
                    proof {
                        let tree = self@;
                        assert(decreases_to!(tree => tree->Array_0));
                        assert(decreases_to!(tree->Array_0 => tree->Array_0[i as int]));
                    }
                    let ghost before = copy@;
                    let item = items[i].duplicate();
                    copy.push(item);
                    assert(view_items(copy@) =~= view_items(before).push(item@));
                    assert(view_items(items@).take(i + 1) =~= view_items(items@).take(
                        i as int,
                    ).push(view_items(items@)[i as int]));
                    assert(view_items(copy@) =~= view_items(items@).take(i + 1));
                    i += 1;
                }
                assert(view_items(items@).take(i as int) =~= view_items(items@));
                Value::Array(copy)
            },
            Value::Table(table) => Value::Table(table.duplicate()),
        }
    }
}

impl Clone for Table {
    fn clone(&self) -> (r: Self)
        ensures
            r@ == self@,
    {
        self.duplicate()
    }
}

impl Clone for Value {
    fn clone(&self) -> (r: Self)
        ensures
            r@ == self@,
    {
        self.duplicate()
    }
}

} // verus!
