//! Plain values as cells.

use crate::column::{Cell, ColumnValue};
use vstd::prelude::*;

verus! {

/// A plain value that can stand in a cell. Every integer becomes a 32-bit
/// integer, keeping its low 32 bits; every text becomes a `Str`.
pub trait ToCell {
    /// The cell that this value becomes.
    spec fn cell(&self) -> Cell;

    /// Wraps the value in a [`ColumnValue`].
    fn to_cell(&self) -> (r: ColumnValue)
        ensures
            r@ == self.cell(),
    ;
}

impl ToCell for i32 {
    open spec fn cell(&self) -> Cell {
        Cell::I32(*self)
    }

    fn to_cell(&self) -> (r: ColumnValue) {
        ColumnValue::I32(*self)
    }
}

impl ToCell for i64 {
    open spec fn cell(&self) -> Cell {
        Cell::I32(*self as i32)
    }

    fn to_cell(&self) -> (r: ColumnValue) {
        ColumnValue::I32(#[verifier::truncate] (*self as i32))
    }
}

impl ToCell for i16 {
    open spec fn cell(&self) -> Cell {
        Cell::I32(*self as i32)
    }

    fn to_cell(&self) -> (r: ColumnValue) {
        ColumnValue::I32(*self as i32)
    }
}

impl ToCell for i8 {
    open spec fn cell(&self) -> Cell {
        Cell::I32(*self as i32)
    }

    fn to_cell(&self) -> (r: ColumnValue) {
        ColumnValue::I32(*self as i32)
    }
}

impl ToCell for isize {
    open spec fn cell(&self) -> Cell {
        Cell::I32(*self as i32)
    }

    fn to_cell(&self) -> (r: ColumnValue) {
        ColumnValue::I32(#[verifier::truncate] (*self as i32))
    }
}

impl ToCell for str {
    open spec fn cell(&self) -> Cell {
        Cell::Str(self@)
    }

    fn to_cell(&self) -> (r: ColumnValue) {
        ColumnValue::Str(self.to_owned())
    }
}

impl ToCell for &str {
    open spec fn cell(&self) -> Cell {
        Cell::Str(self@)
    }

    fn to_cell(&self) -> (r: ColumnValue) {
        ColumnValue::Str((*self).to_owned())
    }
}

impl ToCell for String {
    open spec fn cell(&self) -> Cell {
        Cell::Str(self@)
    }

    fn to_cell(&self) -> (r: ColumnValue) {
        ColumnValue::Str(self.clone())
    }
}

impl ToCell for ColumnValue {
    open spec fn cell(&self) -> Cell {
        self@
    }

    fn to_cell(&self) -> (r: ColumnValue) {
        self.clone()
    }
}

} // verus!
