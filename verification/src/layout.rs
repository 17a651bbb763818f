//! Where a table keeps its schema, its rows and its index.
//!
//! Below the table's directory, `_spec` holds one file per column with the
//! column's type tag; `_data` holds one directory per row, named by the
//! row's id, with one file per cell; `_index` holds one directory per
//! column, in it one directory per text that a cell of the column has, and
//! in that one empty file per row with that text, named by the row's id.

use crate::disk::{path_join, path_of};
use crate::tree::Path;
use vstd::prelude::*;

verus! {

/// The name of the directory that holds a table's schema.
pub open spec fn spec_name() -> Seq<char> {
    seq!['_', 's', 'p', 'e', 'c']
}

/// The name of the directory that holds a table's rows.
pub open spec fn data_name() -> Seq<char> {
    seq!['_', 'd', 'a', 't', 'a']
}

/// The name of the directory that holds a table's index.
pub open spec fn index_name() -> Seq<char> {
    seq!['_', 'i', 'n', 'd', 'e', 'x']
}

/// The directory of a table's schema.
pub open spec fn spec_dir(base: Path) -> Path {
    base.push(spec_name())
}

/// The file that holds the type tag of `column`.
pub open spec fn spec_file(base: Path, column: Seq<char>) -> Path {
    spec_dir(base).push(column)
}

/// The directory of a table's rows.
pub open spec fn data_dir(base: Path) -> Path {
    base.push(data_name())
}

/// The directory of the row `id`.
pub open spec fn row_dir(base: Path, id: Seq<char>) -> Path {
    data_dir(base).push(id)
}

/// The file that holds the cell of the row `id` in `column`.
pub open spec fn cell_file(base: Path, id: Seq<char>, column: Seq<char>) -> Path {
    row_dir(base, id).push(column)
}

/// The directory of a table's index.
pub open spec fn index_dir(base: Path) -> Path {
    base.push(index_name())
}

/// The directory of the index of `column`.
pub open spec fn column_dir(base: Path, column: Seq<char>) -> Path {
    index_dir(base).push(column)
}

/// The index bucket of the rows whose cell in `column` has the text `text`.
pub open spec fn bucket_dir(base: Path, column: Seq<char>, text: Seq<char>) -> Path {
    column_dir(base, column).push(text)
}

/// The marker that puts the row `id` into a bucket.
pub open spec fn marker_file(
    base: Path,
    column: Seq<char>,
    text: Seq<char>,
    id: Seq<char>,
) -> Path {
    bucket_dir(base, column, text).push(id)
}

/// The directory of a table's schema.
pub fn spec_dir_at(base: &Vec<String>) -> (r: Vec<String>)
    ensures
        path_of(r@) == spec_dir(path_of(base@)),
{
    proof {
        reveal_strlit("_spec");
        assert("_spec"@ =~= spec_name());
    }
    path_join(base, "_spec")
}

/// The file that holds the type tag of `column`.
pub fn spec_file_at(base: &Vec<String>, column: &str) -> (r: Vec<String>)
    ensures
        path_of(r@) == spec_file(path_of(base@), column@),
{
    let dir = spec_dir_at(base);
    path_join(&dir, column)
}

/// The directory of a table's rows.
pub fn data_dir_at(base: &Vec<String>) -> (r: Vec<String>)
    ensures
        path_of(r@) == data_dir(path_of(base@)),
{
    proof {
        reveal_strlit("_data");
        assert("_data"@ =~= data_name());
    }
    path_join(base, "_data")
}

/// The directory of the row `id`.
pub fn row_dir_at(base: &Vec<String>, id: &str) -> (r: Vec<String>)
    ensures
        path_of(r@) == row_dir(path_of(base@), id@),
{
    let dir = data_dir_at(base);
    path_join(&dir, id)
}

/// The file that holds the cell of the row `id` in `column`.
pub fn cell_file_at(base: &Vec<String>, id: &str, column: &str) -> (r: Vec<String>)
    ensures
        path_of(r@) == cell_file(path_of(base@), id@, column@),
{
    let dir = row_dir_at(base, id);
    path_join(&dir, column)
}

/// The directory of a table's index.
pub fn index_dir_at(base: &Vec<String>) -> (r: Vec<String>)
    ensures
        path_of(r@) == index_dir(path_of(base@)),
{
    proof {
        reveal_strlit("_index");
        assert("_index"@ =~= index_name());
    }
    path_join(base, "_index")
}

/// The directory of the index of `column`.
pub fn column_dir_at(base: &Vec<String>, column: &str) -> (r: Vec<String>)
    ensures
        path_of(r@) == column_dir(path_of(base@), column@),
{
    let dir = index_dir_at(base);
    path_join(&dir, column)
}

/// The index bucket of the rows whose cell in `column` has the text `text`.
pub fn bucket_dir_at(base: &Vec<String>, column: &str, text: &str) -> (r: Vec<String>)
    ensures
        path_of(r@) == bucket_dir(path_of(base@), column@, text@),
{
    let dir = column_dir_at(base, column);
    path_join(&dir, text)
}

/// The marker that puts the row `id` into a bucket.
pub fn marker_file_at(base: &Vec<String>, column: &str, text: &str, id: &str) -> (r: Vec<String>)
    ensures
        path_of(r@) == marker_file(path_of(base@), column@, text@, id@),
{
    let dir = bucket_dir_at(base, column, text);
    path_join(&dir, id)
}

} // verus!
