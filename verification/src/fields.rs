//! The cells of one row, by column name.

use crate::assoc::{
    distinct_keys, has_key, lemma_to_map_at, lemma_to_map_empty, lemma_to_map_has,
    lemma_to_map_push, lemma_to_map_update, position, to_map,
};
use crate::column::{same_text, Cell, ColumnValue};
use vstd::prelude::*;

verus! {

/// One cell of a row: the column's name and the value.
#[derive(Debug)]
pub struct Field {
    pub name: String,
    pub value: ColumnValue,
}

/// The cells of a row, by column name. A name occurs at most once.
#[derive(Debug)]
pub struct Fields {
    data: Vec<Field>,
}

/// The cells of a row as a mathematical value: names to values.
pub type Cells = Map<Seq<char>, Cell>;

impl View for Fields {
    type V = Cells;

    open spec fn view(&self) -> Cells {
        to_map(self.entries())
    }
}

impl Fields {
    /// The cells in the order in which their names were first given.
    pub closed spec fn entries(&self) -> Seq<(Seq<char>, Cell)> {
        Seq::new(self.data@.len(), |i: int| (self.data@[i].name@, self.data@[i].value@))
    }

    /// No name occurs twice.
    pub closed spec fn wf(&self) -> bool {
        distinct_keys(self.entries())
    }

    /// A row without cells.
    pub fn new() -> (r: Fields)
        ensures
            r.wf(),
            r.entries() == Seq::<(Seq<char>, Cell)>::empty(),
            r@ == Cells::empty(),
    {
        let r = Fields { data: Vec::new() };
        proof {
            lemma_to_map_empty::<Seq<char>, Cell>();
            assert(r.entries() =~= Seq::<(Seq<char>, Cell)>::empty());
        }
        r
    }

    /// The place of the cell `name`, if the row has it.
    fn find(&self, name: &str) -> (r: Option<usize>)
        ensures
            match r {
                Some(i) => i < self.entries().len() && self.entries()[i as int].0 == name@,
                None => !has_key(self.entries(), name@),
            },
    {
        let mut i: usize = 0;
        while i < self.data.len()
            invariant
                i <= self.data@.len(),
                forall|j: int| 0 <= j < i ==> (#[trigger] self.entries()[j]).0 != name@,
            decreases self.data@.len() - i,
        {
            if same_text(self.data[i].name.as_str(), name) {
                return Some(i);
            }
            i = i + 1;
        }
        None
    }

    /// The number of cells.
    pub fn len(&self) -> (r: usize)
        ensures
            r == self.entries().len(),
    {
        self.data.len()
    }

    /// The name of the cell at place `i`.
    pub fn name_at(&self, i: usize) -> (r: &String)
        requires
            i < self.entries().len(),
        ensures
            r@ == self.entries()[i as int].0,
    {
        &self.data[i].name
    }

    /// The value of the cell at place `i`.
    pub fn value_at(&self, i: usize) -> (r: &ColumnValue)
        requires
            i < self.entries().len(),
        ensures
            r@ == self.entries()[i as int].1,
    {
        &self.data[i].value
    }

    /// The value of the cell `name`, if the row has it.
    pub fn get(&self, name: &str) -> (r: Option<&ColumnValue>)
        requires
            self.wf(),
        ensures
            match r {
                Some(v) => self@.contains_key(name@) && v@ == self@[name@],
                None => !self@.contains_key(name@),
            },
    {
        proof {
            lemma_to_map_has(self.entries(), name@);
        }
        match self.find(name) {
            Some(i) => {
                proof {
                    lemma_to_map_at(self.entries(), i as int);
                }
                Some(&self.data[i].value)
            },
            None => None,
        }
    }

    /// Sets the cell `name` to `value`. A cell of that name that is there
    /// already keeps its place and takes the new value.
    pub fn insert(&mut self, name: String, value: ColumnValue)
        requires
            old(self).wf(),
        ensures
            final(self).wf(),
            final(self)@ == old(self)@.insert(name@, value@),
            final(self).entries() == if has_key(old(self).entries(), name@) {
                old(self).entries().update(position(old(self).entries(), name@), (name@, value@))
            } else {
                old(self).entries().push((name@, value@))
            },
    {
        let ghost before = self.entries();
        let ghost cell = value@;
        match self.find(name.as_str()) {
            Some(i) => {
                proof {
                    lemma_to_map_at(before, i as int);
                    lemma_to_map_update(before, i as int, cell);
                }
                self.data.set(i, Field { name, value });
                assert(self.entries() =~= before.update(i as int, (name@, cell)));
            },
            None => {
                proof {
                    lemma_to_map_push(before, name@, cell);
                }
                self.data.push(Field { name, value });
                assert(self.entries() =~= before.push((name@, cell)));
            },
        }
    }
}

impl Clone for Fields {
    fn clone(&self) -> (r: Self)
        ensures
            r.entries() == self.entries(),
            r@ == self@,
            self.wf() ==> r.wf(),
    {
        let mut data: Vec<Field> = Vec::new();
        let mut i: usize = 0;
        while i < self.data.len()
            invariant
                i <= self.data@.len(),
                data@.len() == i,
                forall|j: int|
                    0 <= j < i ==> (#[trigger] data@[j]).name@ == self.data@[j].name@
                        && data@[j].value@ == self.data@[j].value@,
            decreases self.data@.len() - i,
        {
            data.push(Field { name: self.data[i].name.clone(), value: self.data[i].value.clone() });
            i = i + 1;
        }
        let r = Fields { data };
        assert(r.entries() =~= self.entries());
        r
    }
}

} // verus!
