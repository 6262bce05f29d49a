//! A small table from names to values that remembers the order in which
//! names were first entered.
//!
//! The model of a table is the sequence of its entries. Only the first
//! entry for a name counts, and [`put`] never makes a second one.

use vstd::prelude::*;

verus! {

/// The index of the first entry for `key` at or behind `from`, or the
/// length of `entries` where there is none.
pub open spec fn position<V>(entries: Seq<(Seq<char>, V)>, key: Seq<char>, from: int) -> int
    decreases entries.len() - from,
{
    if from < 0 || from >= entries.len() {
        entries.len() as int
    } else if entries[from].0 == key {
        from
    } else {
        position(entries, key, from + 1)
    }
}

/// The value entered for `key`, if any.
pub open spec fn find<V>(entries: Seq<(Seq<char>, V)>, key: Seq<char>) -> Option<V> {
    let i = position(entries, key, 0);
    if i < entries.len() {
        Some(entries[i].1)
    } else {
        None
    }
}

/// The table with `value` entered for `key`: in place of the value that
/// `key` had, or as a new last entry.
pub open spec fn put<V>(entries: Seq<(Seq<char>, V)>, key: Seq<char>, value: V) -> Seq<(Seq<char>, V)> {
    let i = position(entries, key, 0);
    if i < entries.len() {
        entries.update(i, (key, value))
    } else {
        entries.push((key, value))
    }
}

/// `position` finds the first entry for the key.
pub proof fn lemma_position<V>(entries: Seq<(Seq<char>, V)>, key: Seq<char>, from: int)
    requires
        0 <= from <= entries.len(),
    ensures
        from <= position(entries, key, from) <= entries.len(),
        forall|j: int| from <= j < position(entries, key, from) ==> (#[trigger] entries[j]).0 != key,
        position(entries, key, from) < entries.len() ==> entries[position(entries, key, from)].0 == key,
    decreases entries.len() - from,
{
    if from < entries.len() && entries[from].0 != key {
        lemma_position(entries, key, from + 1);
    }
}

/// An index with no entry for the key before it, which holds the key or is
/// the length, is what `position` finds.
pub proof fn lemma_position_is<V>(entries: Seq<(Seq<char>, V)>, key: Seq<char>, at: int)
    requires
        0 <= at <= entries.len(),
        forall|j: int| 0 <= j < at ==> (#[trigger] entries[j]).0 != key,
        at < entries.len() ==> entries[at].0 == key,
    ensures
        position(entries, key, 0) == at,
{
    lemma_position(entries, key, 0);
    let p = position(entries, key, 0);
    if p < at {
        assert(entries[p].0 == key);
    } else if at < p {
        assert(entries[at].0 != key);
    }
}

/// After `put`, the key has the new value and every other key has the
/// value it had.
pub proof fn lemma_find_put<V>(entries: Seq<(Seq<char>, V)>, key: Seq<char>, value: V, other: Seq<char>)
    ensures
        find(put(entries, key, value), other) == if other == key {
            Some(value)
        } else {
            find(entries, other)
        },
{
    lemma_position(entries, key, 0);
    lemma_position(entries, other, 0);
    let i = position(entries, key, 0);
    let after = put(entries, key, value);
    if other == key {
        lemma_position_is(after, key, i);
    } else {
        let j = position(entries, other, 0);
        if j < entries.len() {
            lemma_position_is(after, other, j);
        } else {
            lemma_position_is(after, other, after.len() as int);
        }
    }
}

/// A table from names to plain values.
pub struct Table<V: Copy> {
    entries: Vec<(String, V)>,
}

impl<V: Copy> View for Table<V> {
    type V = Seq<(Seq<char>, V)>;

    closed spec fn view(&self) -> Seq<(Seq<char>, V)> {
        Seq::new(self.entries@.len(), |i: int| (self.entries@[i].0@, self.entries@[i].1))
    }
}

impl<V: Copy> Table<V> {
    /// The empty table.
    pub fn new() -> (table: Table<V>)
        ensures
            table@ == Seq::<(Seq<char>, V)>::empty(),
    {
        let table = Table { entries: Vec::new() };
        assert(table@ =~= Seq::<(Seq<char>, V)>::empty());
        table
    }

    /// The number of entries.
    pub fn len(&self) -> (n: usize)
        ensures
            n == self@.len(),
    {
        self.entries.len()
    }

    /// The name of the entry at `index`.
    pub fn key_at(&self, index: usize) -> (key: &String)
        requires
            index < self@.len(),
        ensures
            key@ == self@[index as int].0,
    {
        &self.entries[index].0
    }

    /// The value of the entry at `index`.
    pub fn value_at(&self, index: usize) -> (value: V)
        requires
            index < self@.len(),
        ensures
            value == self@[index as int].1,
    {
        self.entries[index].1
    }

    /// The index of the first entry for `key`, or the number of entries.
    fn locate(&self, key: &String) -> (index: usize)
        ensures
            index == position(self@, key@, 0),
            index <= self@.len(),
    {
        let mut i: usize = 0;
        while i < self.entries.len()
            invariant
                i <= self.entries.len(),
                position(self@, key@, 0) == position(self@, key@, i as int),
            decreases self.entries.len() - i,
        {
            if self.entries[i].0 == *key {
                return i;
            }
            i += 1;
        }
        i
    }

    /// The value entered for `key`, if any.
    pub fn get(&self, key: &String) -> (value: Option<V>)
        ensures
            value == find(self@, key@),
    {
        let i: usize = self.locate(key);
        if i < self.entries.len() {
            Some(self.entries[i].1)
        } else {
            None
        }
    }

    /// Enters `value` for `key`.
    pub fn set(&mut self, key: &String, value: V)
        ensures
            final(self)@ == put(old(self)@, key@, value),
    {
        let i: usize = self.locate(key);
        if i < self.entries.len() {
            self.entries.set(i, (key.clone(), value));
            assert(self@ =~= put(old(self)@, key@, value));
        } else {
            self.entries.push((key.clone(), value));
            assert(self@ =~= put(old(self)@, key@, value));
        }
    }

    /// A copy of the table.
    pub fn duplicate(&self) -> (copy: Table<V>)
        ensures
            copy@ == self@,
    {
        let mut entries: Vec<(String, V)> = Vec::new();
        let mut i: usize = 0;
        while i < self.entries.len()
            invariant
                i <= self.entries.len(),
                entries@.len() == i,
                forall|j: int|
                    0 <= j < i ==> (#[trigger] entries@[j]).0@ == self.entries@[j].0@ && entries@[j].1
                        == self.entries@[j].1,
            decreases self.entries.len() - i,
        {
            entries.push((self.entries[i].0.clone(), self.entries[i].1));
            i += 1;
        }
        let copy = Table { entries };
        assert(copy@ =~= self@);
        copy
    }
}

} // verus!
