//! A stored row with its cells held in memory.

use crate::column::{cell_text, stringify_col, ColumnValue};
use crate::disk::Disk;
use crate::fields::{Cells, Fields};
use crate::plan::{actions, run, FsOp};
use crate::table::{set_cell_actions, Table, TableView};
use crate::traits::ToCell;
use crate::tree::FsError;
use vstd::prelude::*;

verus! {

/// A row of a table: its id, its table, and the cells that were last read
/// or written.
#[derive(Debug)]
pub struct Row {
    vals: Fields,
    table: Table,
    id: String,
}

/// A row as a mathematical value.
pub ghost struct RowView {
    pub id: Seq<char>,
    pub table: TableView,
    pub cells: Cells,
}

impl View for Row {
    type V = RowView;

    closed spec fn view(&self) -> RowView {
        RowView { id: self.id@, table: self.table@, cells: self.vals@ }
    }
}

/// The rows of a vector as mathematical values.
pub open spec fn rows_view(rows: Seq<Row>) -> Seq<RowView> {
    Seq::new(rows.len(), |i: int| rows[i]@)
}

impl Row {
    /// The invariant of a row: its cells and its table are well formed.
    pub closed spec fn wf(&self) -> bool {
        self.vals.wf() && self.table.wf()
    }

    /// A row of the table `tab` with the id `id` and the cells `from`.
    pub fn new(tab: &Table, from: Fields, id: String) -> (r: Row)
        requires
            tab.wf(),
            from.wf(),
        ensures
            r.wf(),
            r@ == (RowView { id: id@, table: tab@, cells: from@ }),
    {
        Row { table: tab.clone(), vals: from, id }
    }

    /// The row's id.
    pub fn id(&self) -> (r: &String)
        ensures
            r@ == self@.id,
    {
        &self.id
    }

    /// The cell in `column`, if the row has one.
    pub fn find(&self, column: &str) -> (r: Option<&ColumnValue>)
        requires
            self.wf(),
        ensures
            match r {
                Some(v) => self@.cells.contains_key(column@) && v@ == self@.cells[column@],
                None => !self@.cells.contains_key(column@),
            },
    {
        self.vals.get(column)
    }

    /// The cell in `column`, which the row must have.
    pub fn get(&self, column: &str) -> (r: &ColumnValue)
        requires
            self.wf(),
            self@.cells.contains_key(column@),
        ensures
            r@ == self@.cells[column@],
    {
        match self.vals.get(column) {
            Some(v) => v,
            None => vstd::pervasive::unreached(),
        }
    }

    /// The row's table.
    pub fn table(&self) -> (r: &Table)
        requires
            self.wf(),
        ensures
            r.wf(),
            r@ == self@.table,
    {
        &self.table
    }

    /// The plan that gives the cell in `k`, which the row must have, the
    /// value `val`, with the cell's present value as the old one.
    pub fn set_ops<T: ToCell>(&self, k: &str, val: &T) -> (ops: Vec<FsOp>)
        requires
            self.wf(),
            self@.cells.contains_key(k@),
        ensures
            actions(ops@) == set_cell_actions(
                self@.table.path,
                self@.id,
                k@,
                cell_text(val.cell()),
                cell_text(self@.cells[k@]),
            ),
    {
        let new_text = stringify_col(val.to_cell());
        let old_text = stringify_col(self.get(k).clone());
        self.table.set_cell_ops(self.id.as_str(), k, new_text.as_str(), old_text.as_str())
    }

    /// Takes the value `val` for the cell in `k` into the cells in memory.
    pub fn record<T: ToCell>(&mut self, k: &str, val: T)
        requires
            old(self).wf(),
        ensures
            final(self).wf(),
            final(self)@ == (RowView {
                cells: old(self)@.cells.insert(k@, val.cell()),
                ..old(self)@
            }),
    {
        self.vals.insert(k.to_owned(), val.to_cell());
    }

    /// Gives the cell in `k`, which the row must have, the value `val`: on
    /// disk first, with the cell's present value as the old one, then in
    /// memory. If the disk fails, the cells in memory stay as they were.
    pub fn set<T: ToCell>(&mut self, disk: &mut Disk, k: &str, val: T) -> (r: Result<
        (),
        FsError,
    >)
        requires
            old(self).wf(),
            old(disk).wf(),
            old(self)@.cells.contains_key(k@),
        ensures
            final(self).wf(),
            final(disk).wf(),
            run(
                old(disk)@,
                set_cell_actions(
                    old(self)@.table.path,
                    old(self)@.id,
                    k@,
                    cell_text(val.cell()),
                    cell_text(old(self)@.cells[k@]),
                ),
            ) == (
                final(disk)@,
                match r {
                    Ok(_) => None::<FsError>,
                    Err(e) => Some(e),
                },
            ),
            final(self)@ == match r {
                Ok(_) => RowView {
                    cells: old(self)@.cells.insert(k@, val.cell()),
                    ..old(self)@
                },
                Err(_) => old(self)@,
            },
    {
        let ops = self.set_ops(k, &val);
        match disk.run(&ops) {
            Ok(_) => {
                self.record(k, val);
                Ok(())
            },
            Err(e) => Err(e),
        }
    }
}

impl core::ops::Index<&str> for Row {
    type Output = ColumnValue;

    /// The cell in `key`, which the row must have.
    fn index(&self, key: &str) -> (r: &ColumnValue)
        ensures
            r@ == self@.cells[key@],
    {
        self.get(key)
    }
}

impl vstd::std_specs::core::IndexSpecImpl<&str> for Row {
    open spec fn index_req(&self, index: &&str) -> bool {
        self.wf() && self@.cells.contains_key(index@)
    }
}

} // verus!
