//! A table's schema: which columns it has, and of which type each is.

use crate::assoc::{
    distinct_keys, has_key, lemma_to_map_at, lemma_to_map_empty, lemma_to_map_has,
    lemma_to_map_push, lemma_to_map_update, to_map,
};
use crate::column::{same_text, Column};
use vstd::prelude::*;

verus! {

/// One column of a schema: its name and its declared type.
#[derive(Debug)]
pub struct ColumnDef {
    pub name: String,
    pub column: Column,
}

/// The columns of a table, by name. A name occurs at most once; names are
/// compared as they are written.
#[derive(Debug)]
pub struct TableSpec {
    data: Vec<ColumnDef>,
}

/// A schema as a mathematical value: names to types.
pub type Schema = Map<Seq<char>, Column>;

impl View for TableSpec {
    type V = Schema;

    open spec fn view(&self) -> Schema {
        to_map(self.entries())
    }
}

impl TableSpec {
    /// The columns in the order in which they were first declared.
    pub closed spec fn entries(&self) -> Seq<(Seq<char>, Column)> {
        Seq::new(self.data@.len(), |i: int| (self.data@[i].name@, self.data@[i].column))
    }

    /// No name is declared twice.
    pub closed spec fn wf(&self) -> bool {
        distinct_keys(self.entries())
    }

    /// A schema without columns.
    pub fn new() -> (r: TableSpec)
        ensures
            r.wf(),
            r.entries() == Seq::<(Seq<char>, Column)>::empty(),
            r@ == Schema::empty(),
    {
        let r = TableSpec { data: Vec::new() };
        proof {
            lemma_to_map_empty::<Seq<char>, Column>();
            assert(r.entries() =~= Seq::<(Seq<char>, Column)>::empty());
        }
        r
    }

    /// The place of the column `name`, if the schema has it.
    fn find(&self, name: &str) -> (r: Option<usize>)
        ensures
            match r {
                Some(i) => i < self.entries().len() && self.entries()[i as int].0 == name@,
                None => !has_key(self.entries(), name@),
            },
    {
        let mut i: usize = 0;
        while i < self.data.len()
            invariant
                i <= self.data@.len(),
                forall|j: int| 0 <= j < i ==> (#[trigger] self.entries()[j]).0 != name@,
            decreases self.data@.len() - i,
        {
            if same_text(self.data[i].name.as_str(), name) {
                return Some(i);
            }
            i = i + 1;
        }
        None
    }

    /// The number of columns.
    pub fn len(&self) -> (r: usize)
        ensures
            r == self.entries().len(),
    {
        self.data.len()
    }

    /// The declared type of the column `name`, if the schema has it.
    pub fn get(&self, name: &str) -> (r: Option<Column>)
        requires
            self.wf(),
        ensures
            r == if self@.contains_key(name@) {
                Some(self@[name@])
            } else {
                None
            },
    {
        proof {
            lemma_to_map_has(self.entries(), name@);
        }
        match self.find(name) {
            Some(i) => {
                proof {
                    lemma_to_map_at(self.entries(), i as int);
                }
                Some(self.data[i].column)
            },
            None => None,
        }
    }

    /// Declares the column `name` with type `column`. A column of that name
    /// that is there already keeps its place and takes the new type.
    pub fn insert(&mut self, name: String, column: Column)
        requires
            old(self).wf(),
        ensures
            final(self).wf(),
            final(self)@ == old(self)@.insert(name@, column),
            final(self).entries() == if has_key(old(self).entries(), name@) {
                old(self).entries().update(
                    crate::assoc::position(old(self).entries(), name@),
                    (name@, column),
                )
            } else {
                old(self).entries().push((name@, column))
            },
    {
        let ghost before = self.entries();
        match self.find(name.as_str()) {
            Some(i) => {
                proof {
                    lemma_to_map_at(before, i as int);
                    lemma_to_map_update(before, i as int, column);
                }
                self.data.set(i, ColumnDef { name, column });
                assert(self.entries() =~= before.update(i as int, (name@, column)));
            },
            None => {
                proof {
                    lemma_to_map_push(before, name@, column);
                }
                self.data.push(ColumnDef { name, column });
                assert(self.entries() =~= before.push((name@, column)));
            },
        }
    }

    /// The name of the column at place `i`.
    pub fn name_at(&self, i: usize) -> (r: &String)
        requires
            i < self.entries().len(),
        ensures
            r@ == self.entries()[i as int].0,
    {
        &self.data[i].name
    }

    /// The type of the column at place `i`.
    pub fn column_at(&self, i: usize) -> (r: Column)
        requires
            i < self.entries().len(),
        ensures
            r == self.entries()[i as int].1,
    {
        self.data[i].column
    }

    /// Whether every column of this schema is a column of `other`, with the
    /// same type.
    pub fn within(&self, other: &TableSpec) -> (r: bool)
        requires
            self.wf(),
            other.wf(),
        ensures
            r == self@.submap_of(other@),
    {
        let mut i: usize = 0;
        while i < self.data.len()
            invariant
                self.wf(),
                other.wf(),
                i <= self.data@.len(),
                forall|j: int|
                    0 <= j < i ==> other@.contains_key((#[trigger] self.entries()[j]).0)
                        && other@[self.entries()[j].0] == self.entries()[j].1,
            decreases self.data@.len() - i,
        {
            proof {
                lemma_to_map_at(self.entries(), i as int);
            }
            match other.get(self.data[i].name.as_str()) {
                Some(c) => {
                    if c != self.data[i].column {
                        return false;
                    }
                },
                None => {
                    return false;
                },
            }
            i = i + 1;
        }
        proof {
            assert forall|k: Seq<char>| #[trigger]
                self@.dom().contains(k) implies other@.dom().contains(k) && self@[k]
                == other@[k] by {
                lemma_to_map_has(self.entries(), k);
                let j = choose|j: int|
                    0 <= j < self.entries().len() && (#[trigger] self.entries()[j]).0 == k;
                lemma_to_map_at(self.entries(), j);
            }
        }
        true
    }

    /// Whether the two schemas have the same columns with the same types, in
    /// whatever order they were declared.
    pub fn same_as(&self, other: &TableSpec) -> (r: bool)
        requires
            self.wf(),
            other.wf(),
        ensures
            r == (self@ == other@),
    {
        let r = self.within(other) && other.within(self);
        proof {
            if r {
                assert forall|k: Seq<char>|
                    self@.dom().contains(k) == other@.dom().contains(k) by {}
                assert(self@.dom() =~= other@.dom());
                assert(self@ =~= other@);
            }
        }
        r
    }
}

impl Clone for TableSpec {
    fn clone(&self) -> (r: Self)
        ensures
            r.entries() == self.entries(),
            r@ == self@,
            self.wf() ==> r.wf(),
    {
        let mut data: Vec<ColumnDef> = Vec::new();
        let mut i: usize = 0;
        while i < self.data.len()
            invariant
                i <= self.data@.len(),
                data@.len() == i,
                forall|j: int|
                    0 <= j < i ==> (#[trigger] data@[j]).name@ == self.data@[j].name@
                        && data@[j].column == self.data@[j].column,
            decreases self.data@.len() - i,
        {
            data.push(ColumnDef { name: self.data[i].name.clone(), column: self.data[i].column });
            i = i + 1;
        }
        let r = TableSpec { data };
        assert(r.entries() =~= self.entries());
        r
    }
}

} // verus!
