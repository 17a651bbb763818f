//! The closed set of column types, the values that cells hold, and the text
//! that stands for a value on disk.

use crate::decimal::{decimal_text, i32_of_text, lemma_parse_render, parse_i32, render_i32};
use vstd::prelude::*;

verus! {

/// The declared type of a column.
#[derive(Debug, PartialEq, Eq, Clone, Copy, Structural)]
pub enum Column {
    Str,
    LongStr,
    I32,
    Byte,
}

/// A cell's value, tagged with the column type that it belongs to.
#[derive(Debug)]
pub enum ColumnValue {
    Str(String),
    LongStr(String),
    I32(i32),
    Byte(String),
}

/// What a [`ColumnValue`] holds, as a mathematical value.
pub ghost enum Cell {
    Str(Seq<char>),
    LongStr(Seq<char>),
    I32(i32),
    Byte(Seq<char>),
}

impl View for ColumnValue {
    type V = Cell;

    open spec fn view(&self) -> Cell {
        match self {
            ColumnValue::Str(s) => Cell::Str(s@),
            ColumnValue::LongStr(s) => Cell::LongStr(s@),
            ColumnValue::I32(i) => Cell::I32(*i),
            ColumnValue::Byte(s) => Cell::Byte(s@),
        }
    }
}

/// The tag that names a column type in a table's stored schema.
pub open spec fn tag_text(column: Column) -> Seq<char> {
    match column {
        Column::Str => seq!['s', 't', 'r'],
        Column::LongStr => seq!['l', 'o', 'n', 'g', 's', 't', 'r'],
        Column::I32 => seq!['i', '3', '2'],
        Column::Byte => seq!['b', 'y', 't', 'e'],
    }
}

/// The column type that a tag names, if it names one.
pub open spec fn column_of_tag(tag: Seq<char>) -> Option<Column> {
    if tag == tag_text(Column::I32) {
        Some(Column::I32)
    } else if tag == tag_text(Column::Byte) {
        Some(Column::Byte)
    } else if tag == tag_text(Column::Str) {
        Some(Column::Str)
    } else if tag == tag_text(Column::LongStr) {
        Some(Column::LongStr)
    } else {
        None
    }
}

/// The column type that a value belongs to.
pub open spec fn cell_column(cell: Cell) -> Column {
    match cell {
        Cell::Str(_) => Column::Str,
        Cell::LongStr(_) => Column::LongStr,
        Cell::I32(_) => Column::I32,
        Cell::Byte(_) => Column::Byte,
    }
}

/// The text that stands for a value on disk: text as it is, an integer in
/// decimal.
pub open spec fn cell_text(cell: Cell) -> Seq<char> {
    match cell {
        Cell::Str(s) => s,
        Cell::LongStr(s) => s,
        Cell::I32(i) => decimal_text(i as int),
        Cell::Byte(s) => s,
    }
}

/// The value of type `column` that `text` stands for. Any text stands for a
/// value of the three textual types; only decimal text that fits stands for
/// an integer.
pub open spec fn cell_of_text(column: Column, text: Seq<char>) -> Option<Cell> {
    match column {
        Column::Str => Some(Cell::Str(text)),
        Column::LongStr => Some(Cell::LongStr(text)),
        Column::Byte => Some(Cell::Byte(text)),
        Column::I32 => match i32_of_text(text) {
            Some(i) => Some(Cell::I32(i)),
            None => None,
        },
    }
}

/// Whether two pieces of text are the same.
pub fn same_text(a: &str, b: &str) -> (r: bool)
    ensures
        r == (a@ == b@),
{
    let x = a.to_owned();
    let y = b.to_owned();
    x == y
}

impl Column {
    /// The tag under which this type is written into a stored schema.
    pub fn tag(&self) -> (r: &'static str)
        ensures
            r@ == tag_text(*self),
    {
        proof {
            reveal_strlit("str");
            reveal_strlit("longstr");
            reveal_strlit("i32");
            reveal_strlit("byte");
        }
        match self {
            Column::Str => {
                assert("str"@ =~= tag_text(Column::Str));
                "str"
            },
            Column::LongStr => {
                assert("longstr"@ =~= tag_text(Column::LongStr));
                "longstr"
            },
            Column::I32 => {
                assert("i32"@ =~= tag_text(Column::I32));
                "i32"
            },
            Column::Byte => {
                assert("byte"@ =~= tag_text(Column::Byte));
                "byte"
            },
        }
    }

    /// Reads a tag of a stored schema. Returns `None` for text that is not
    /// one of the four tags.
    pub fn from_tag(tag: &str) -> (r: Option<Column>)
        ensures
            r == column_of_tag(tag@),
    {
        if same_text(tag, Column::I32.tag()) {
            Some(Column::I32)
        } else if same_text(tag, Column::Byte.tag()) {
            Some(Column::Byte)
        } else if same_text(tag, Column::Str.tag()) {
            Some(Column::Str)
        } else if same_text(tag, Column::LongStr.tag()) {
            Some(Column::LongStr)
        } else {
            None
        }
    }
}

impl Clone for ColumnValue {
    fn clone(&self) -> (r: Self)
        ensures
            r@ == self@,
    {
        match self {
            ColumnValue::Str(s) => ColumnValue::Str(s.clone()),
            ColumnValue::LongStr(s) => ColumnValue::LongStr(s.clone()),
            ColumnValue::I32(i) => ColumnValue::I32(*i),
            ColumnValue::Byte(s) => ColumnValue::Byte(s.clone()),
        }
    }
}

impl ColumnValue {
    /// The integer of an `I32` value; `None` for any other variant.
    pub fn i32(&self) -> (r: Option<i32>)
        ensures
            r == match self@ {
                Cell::I32(i) => Some(i),
                _ => None,
            },
    {
        match self {
            ColumnValue::I32(i) => Some(*i),
            _ => None,
        }
    }

    /// The text of a `Str` value; `None` for any other variant.
    pub fn string(&self) -> (r: Option<String>)
        ensures
            match self@ {
                Cell::Str(s) => r matches Some(t) && t@ == s,
                _ => r is None,
            },
    {
        match self {
            ColumnValue::Str(s) => Some(s.clone()),
            _ => None,
        }
    }

    /// The column type that this value belongs to.
    pub fn column(&self) -> (r: Column)
        ensures
            r == cell_column(self@),
    {
        match self {
            ColumnValue::Str(_) => Column::Str,
            ColumnValue::LongStr(_) => Column::LongStr,
            ColumnValue::I32(_) => Column::I32,
            ColumnValue::Byte(_) => Column::Byte,
        }
    }

    /// Reads `text` as a value of type `column`. Returns `None` only for an
    /// integer column whose text is not a decimal number that fits.
    pub fn parse(column: Column, text: String) -> (r: Option<ColumnValue>)
        ensures
            match cell_of_text(column, text@) {
                Some(cell) => r matches Some(v) && v@ == cell,
                None => r is None,
            },
    {
        match column {
            Column::Str => Some(ColumnValue::Str(text)),
            Column::LongStr => Some(ColumnValue::LongStr(text)),
            Column::Byte => Some(ColumnValue::Byte(text)),
            Column::I32 => match parse_i32(text.as_str()) {
                Some(i) => Some(ColumnValue::I32(i)),
                None => None,
            },
        }
    }
}

/// The text that stands for `v` on disk.
pub fn stringify_col(v: ColumnValue) -> (text: String)
    ensures
        text@ == cell_text(v@),
{
    match v {
        ColumnValue::Str(s) => s,
        ColumnValue::LongStr(s) => s,
        ColumnValue::I32(i) => render_i32(i),
        ColumnValue::Byte(s) => s,
    }
}

/// Reading a tag gives back the column type that it was written for.
pub proof fn lemma_tag_round_trip(column: Column)
    ensures
        column_of_tag(tag_text(column)) == Some(column),
{
    assert(tag_text(Column::I32)[0] == 'i');
    assert(tag_text(Column::Str)[0] == 's');
    assert(tag_text(Column::Byte)[0] == 'b');
    assert(tag_text(Column::LongStr)[0] == 'l');
}

/// For every value, reading its text under its own column type gives the
/// value back.
pub proof fn lemma_text_round_trip(cell: Cell)
    ensures
        cell_of_text(cell_column(cell), cell_text(cell)) == Some(cell),
{
    match cell {
        Cell::I32(i) => {
            lemma_parse_render(i);
        },
        _ => {},
    }
}

} // verus!
