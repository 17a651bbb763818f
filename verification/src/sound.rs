//! What holds of a tree that holds a table: the layout is in place, and the
//! index agrees with the rows.

use crate::column::{cell_of_text, cell_text, Column};
use crate::layout::{cell_file, column_dir, data_dir, index_dir, marker_file, spec_dir};
use crate::schema::Schema;
use crate::shape::{kind_of, PathKind};
use crate::tree::{Node, Path};
use vstd::prelude::*;

verus! {

/// The entries of a tree by path.
pub type Nodes = Map<Path, Node>;

/// A directory stands at `p`.
pub open spec fn dir_in(m: Nodes, p: Path) -> bool {
    p.len() == 0 || (m.contains_key(p) && m[p] is Dir)
}

/// The node is of the sort that the layout has at a path of this kind: a
/// directory or a file.
pub open spec fn node_fits(kind: PathKind, node: Node) -> bool {
    match kind {
        PathKind::SpecFile(_) => node is File,
        PathKind::CellFile(_, _) => node is File,
        PathKind::Marker(_, _, _) => node is File,
        PathKind::Other => true,
        _ => node is Dir,
    }
}

/// `text` is the text of the value of type `column` that it stands for.
pub open spec fn canonical(column: Column, text: Seq<char>) -> bool {
    cell_of_text(column, text) matches Some(cell) && cell_text(cell) == text
}

/// The layout of the table at `base` is in place: its directories stand,
/// every column has its index directory, and nothing stands as a file where
/// the layout has a directory, or the other way round.
pub open spec fn laid_out(m: Nodes, base: Path, schema: Schema) -> bool {
    &&& dir_in(m, base)
    &&& dir_in(m, spec_dir(base))
    &&& dir_in(m, data_dir(base))
    &&& dir_in(m, index_dir(base))
    &&& forall|c: Seq<char>| schema.contains_key(c) ==> dir_in(m, #[trigger] column_dir(base, c))
    &&& forall|q: Path| #[trigger] m.contains_key(q) ==> node_fits(kind_of(base, q), m[q])
}

/// The index agrees with the rows: a marker of a row under a text in a
/// column stands only where the column is declared, the row's cell in the
/// column holds that text, and the text is canonical for the column's type.
pub open spec fn indexed(m: Nodes, base: Path, schema: Schema) -> bool {
    forall|c: Seq<char>, x: Seq<char>, i: Seq<char>| #[trigger]
        m.contains_key(marker_file(base, c, x, i)) ==> schema.contains_key(c) && m.contains_key(
            cell_file(base, i, c),
        ) && m[cell_file(base, i, c)] == Node::File(x) && canonical(schema[c], x)
}

} // verus!
