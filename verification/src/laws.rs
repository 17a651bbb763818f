//! What holds of the store as a whole.

use crate::assoc::{distinct_keys, to_map};
use crate::column::{cell_text, lemma_text_round_trip, Cell, Column};
use crate::creation::lemma_create_actions;
use crate::db::{open_table, root_dir, stored_schema, table_dir};
use crate::error::Error;
use crate::fields::Cells;
use crate::insertion::{
    fits, lemma_insert_actions, lemma_with_fields_cells, lemma_with_fields_indexed, stored_cells,
};
use crate::layout::{bucket_dir, cell_file, marker_file, row_dir};
use crate::lookup::{
    bucket_first, bucket_rows, cell_at, lemma_cells_of_all, lemma_cells_of_each, lemma_rows_of_each,
    lemma_rows_of_len, row_cells,
};
use crate::plan::run;
use crate::row::RowView;
use crate::shape::lemma_kinds;
use crate::sound::{indexed, laid_out};
use crate::table::{insert_actions, set_cell_actions, TableView};
use crate::tree::{
    is_dir, lemma_listing_contains, lemma_listing_distinct, lemma_nodes_keys, lemma_parent, listing,
    nodes, present, read_dir, tree_wf, Tree,
};
use crate::update::{
    holds_text, lemma_set_cell_actions, lemma_set_cell_first, lemma_set_cell_listed,
    lemma_set_cell_row,
};
use vstd::prelude::*;

verus! {

/// A row that was stored under a new id reads back as the cells that fit the
/// table's schema, no more and no less.
///
/// The tree holds the table; no row has the id yet; no column is named twice
/// among the cells; and at least one cell fits, since a row without a cell
/// leaves nothing to read.
pub proof fn law_insert_then_row(
    t: Tree,
    table: TableView,
    id: Seq<char>,
    fields: Seq<(Seq<char>, Cell)>,
)
    requires
        tree_wf(t),
        laid_out(nodes(t), table.path, table.spec),
        distinct_keys(fields),
        !present(t, row_dir(table.path, id)),
        stored_cells(table.spec, to_map(fields)).dom() != Set::<Seq<char>>::empty(),
    ensures
        run(t, insert_actions(table.path, table.spec, id, fields)).1 is None,
        row_cells(run(t, insert_actions(table.path, table.spec, id, fields)).0, table, id) == Ok::<
            Cells,
            Error,
        >(stored_cells(table.spec, to_map(fields))),
{
    let base = table.path;
    let schema = table.spec;
    let dir = row_dir(base, id);
    let m = nodes(t);
    let u = run(t, insert_actions(base, schema, id, fields)).0;
    let cells = to_map(fields);
    let kept = stored_cells(schema, cells);
    lemma_kinds(base);
    lemma_insert_actions(t, base, schema, id, fields);
    assert forall|n: Seq<char>| !m.contains_key(#[trigger] cell_file(base, id, n)) by {
        if m.contains_key(cell_file(base, id, n)) {
            lemma_parent(t, cell_file(base, id, n));
            assert(cell_file(base, id, n).drop_last() =~= dir);
        }
    }
    lemma_with_fields_cells(m, base, schema, id, fields);
    let names = listing(u, dir);
    assert(read_dir(u, dir) == Ok::<Seq<Seq<char>>, crate::tree::FsError>(names));
    lemma_nodes_keys(u);
    assert forall|n: Seq<char>| names.contains(n) <==> kept.contains_key(n) by {
        lemma_listing_contains(u, dir, n);
        assert(dir.push(n) == cell_file(base, id, n));
    }
    assert forall|n: Seq<char>| kept.contains_key(n) implies cell_at(u, schema, dir, n) == Ok::<
        Cell,
        Error,
    >(cells[n]) by {
        assert(dir.push(n) == cell_file(base, id, n));
        assert(nodes(u)[cell_file(base, id, n)] == crate::tree::Node::File(cell_text(cells[n])));
        lemma_text_round_trip(cells[n]);
    }
    assert forall|k: int| 0 <= k < names.len() implies cell_at(
        u,
        schema,
        dir,
        #[trigger] names[k],
    ) is Ok by {
        assert(names.contains(names[k]));
    }
    lemma_cells_of_all(u, schema, dir, names);
    assert(Map::new(
        |n: Seq<char>| names.contains(n),
        |n: Seq<char>| cell_at(u, schema, dir, n)->Ok_0,
    ) =~= kept);
}

/// Where the rows of a bucket can be read and there is one at least, the
/// first row of the bucket is the first of them.
pub proof fn law_get_one_is_first(
    t: Tree,
    table: TableView,
    column: Seq<char>,
    text: Seq<char>,
)
    requires
        bucket_rows(t, table, column, text) is Ok,
        bucket_rows(t, table, column, text)->Ok_0.len() > 0,
    ensures
        bucket_first(t, table, column, text) == Ok::<Option<RowView>, Error>(
            Some(bucket_rows(t, table, column, text)->Ok_0[0]),
        ),
{
    let ids = read_dir(t, bucket_dir(table.path, column, text))->Ok_0;
    lemma_rows_of_len(t, table, ids);
    lemma_rows_of_each(t, table, ids, 0);
}

/// Where the index agrees with the rows, every row that a bucket gives has a
/// cell in the bucket's column, and the text of that cell is the bucket's
/// text.
pub proof fn law_get_rows_match(
    t: Tree,
    table: TableView,
    column: Seq<char>,
    text: Seq<char>,
    k: int,
)
    requires
        tree_wf(t),
        indexed(nodes(t), table.path, table.spec),
        bucket_rows(t, table, column, text) is Ok,
        0 <= k < bucket_rows(t, table, column, text)->Ok_0.len(),
    ensures
        bucket_rows(t, table, column, text)->Ok_0[k].cells.contains_key(column),
        cell_text(bucket_rows(t, table, column, text)->Ok_0[k].cells[column]) == text,
{
    let base = table.path;
    let bucket = bucket_dir(base, column, text);
    let ids = read_dir(t, bucket)->Ok_0;
    lemma_rows_of_len(t, table, ids);
    lemma_rows_of_each(t, table, ids, k);
    let id = ids[k];
    assert(ids.contains(id));
    lemma_listing_contains(t, bucket, id);
    lemma_nodes_keys(t);
    assert(bucket.push(id) == marker_file(base, column, text, id));
    assert(nodes(t).contains_key(marker_file(base, column, text, id)));
    let dir = row_dir(base, id);
    let file = cell_file(base, id, column);
    assert(dir.push(column) == file);
    lemma_parent(t, file);
    assert(file.drop_last() =~= dir);
    let names = read_dir(t, dir)->Ok_0;
    lemma_listing_contains(t, dir, column);
    lemma_cells_of_each(t, table.spec, dir, names, column);
}

/// Reading a row is a function of the tree: two readings of one row from one
/// tree give the same cells.
pub proof fn law_row_repeatable(
    t: Tree,
    table: TableView,
    id: Seq<char>,
    first: Cells,
    second: Cells,
)
    requires
        row_cells(t, table, id) == Ok::<Cells, Error>(first),
        row_cells(t, table, id) == Ok::<Cells, Error>(second),
    ensures
        first == second,
{
}

/// After a cell was changed, the index lists the row under the new text and
/// no longer under the old: the rows of the old bucket do not include it,
/// its first row is another, and the rows of the new bucket include it.
///
/// The tree holds the table and its index agrees with its rows; the new
/// value is of the column's type; the old value is the one that the tree
/// holds for the cell; and the two have different texts.
pub proof fn law_set_cell_moves_row(
    t: Tree,
    table: TableView,
    id: Seq<char>,
    column: Seq<char>,
    new: Cell,
    old: Cell,
)
    requires
        tree_wf(t),
        laid_out(nodes(t), table.path, table.spec),
        indexed(nodes(t), table.path, table.spec),
        fits(table.spec, column, new),
        holds_text(nodes(t), table.path, id, column, cell_text(old)),
        cell_text(old) != cell_text(new),
    ensures
        ({
            let done = run(
                t,
                set_cell_actions(table.path, id, column, cell_text(new), cell_text(old)),
            );
            &&& done.1 is None
            &&& tree_wf(done.0)
            &&& laid_out(nodes(done.0), table.path, table.spec)
            &&& indexed(nodes(done.0), table.path, table.spec)
            &&& holds_text(nodes(done.0), table.path, id, column, cell_text(new))
            &&& bucket_first(done.0, table, column, cell_text(old)) matches Ok(Some(r)) ==> r.id
                != id
            &&& bucket_rows(done.0, table, column, cell_text(old)) matches Ok(rows) ==> forall|
                k: int,
            | 0 <= k < rows.len() ==> (#[trigger] rows[k]).id != id
            &&& bucket_rows(done.0, table, column, cell_text(new)) matches Ok(rows) ==> exists|
                k: int,
            | 0 <= k < rows.len() && (#[trigger] rows[k]).id == id
        }),
{
    let base = table.path;
    let new_text = cell_text(new);
    let old_text = cell_text(old);
    let u = run(t, set_cell_actions(base, id, column, new_text, old_text)).0;
    lemma_set_cell_actions(t, base, table.spec, id, column, new, old_text);
    lemma_set_cell_listed(t, base, table.spec, id, column, new, old_text);
    let was = bucket_dir(base, column, old_text);
    let now = bucket_dir(base, column, new_text);
    if bucket_first(u, table, column, old_text) is Ok {
        let ids = read_dir(u, was)->Ok_0;
        if ids.len() > 0 {
            assert(ids.contains(ids[0]));
        }
    }
    if bucket_rows(u, table, column, old_text) is Ok {
        let rows = bucket_rows(u, table, column, old_text)->Ok_0;
        let ids = read_dir(u, was)->Ok_0;
        assert forall|k: int| 0 <= k < rows.len() implies (#[trigger] rows[k]).id != id by {
            lemma_rows_of_len(u, table, ids);
            lemma_rows_of_each(u, table, ids, k);
            assert(ids.contains(ids[k]));
        }
    }
    if bucket_rows(u, table, column, new_text) is Ok {
        let rows = bucket_rows(u, table, column, new_text)->Ok_0;
        let ids = read_dir(u, now)->Ok_0;
        let k = choose|k: int| 0 <= k < ids.len() && ids[k] == id;
        lemma_rows_of_len(u, table, ids);
        lemma_rows_of_each(u, table, ids, k);
        assert(rows[k].id == id);
    }
}

/// A table that was just created holds its layout, and its index, which is
/// empty, agrees with its rows.
///
/// The database's directory stands, nothing stands at the table's
/// directory, and no column is declared twice.
pub proof fn law_new_table_sound(
    t: Tree,
    root: Seq<char>,
    name: Seq<char>,
    declared: Seq<(Seq<char>, Column)>,
)
    requires
        tree_wf(t),
        is_dir(t, root_dir(root)),
        !present(t, table_dir(root, name)),
        distinct_keys(declared),
    ensures
        open_table(t, root, name, declared).1 == Ok::<TableView, Error>(
            TableView { spec: to_map(declared), name, path: table_dir(root, name) },
        ),
        tree_wf(open_table(t, root, name, declared).0),
        laid_out(
            nodes(open_table(t, root, name, declared).0),
            table_dir(root, name),
            to_map(declared),
        ),
        indexed(
            nodes(open_table(t, root, name, declared).0),
            table_dir(root, name),
            to_map(declared),
        ),
{
    let base = table_dir(root, name);
    assert(base.drop_last() =~= root_dir(root));
    lemma_create_actions(t, base, declared);
}

/// Storing a row under a new id keeps the table's layout in place and the
/// index in agreement with the rows.
pub proof fn law_insert_keeps_sound(
    t: Tree,
    table: TableView,
    id: Seq<char>,
    fields: Seq<(Seq<char>, Cell)>,
)
    requires
        tree_wf(t),
        laid_out(nodes(t), table.path, table.spec),
        indexed(nodes(t), table.path, table.spec),
        distinct_keys(fields),
        !present(t, row_dir(table.path, id)),
    ensures
        run(t, insert_actions(table.path, table.spec, id, fields)).1 is None,
        tree_wf(run(t, insert_actions(table.path, table.spec, id, fields)).0),
        laid_out(
            nodes(run(t, insert_actions(table.path, table.spec, id, fields)).0),
            table.path,
            table.spec,
        ),
        indexed(
            nodes(run(t, insert_actions(table.path, table.spec, id, fields)).0),
            table.path,
            table.spec,
        ),
{
    let base = table.path;
    lemma_insert_actions(t, base, table.spec, id, fields);
    assert forall|n: Seq<char>| !nodes(t).contains_key(#[trigger] cell_file(base, id, n)) by {
        if nodes(t).contains_key(cell_file(base, id, n)) {
            lemma_parent(t, cell_file(base, id, n));
            assert(cell_file(base, id, n).drop_last() =~= row_dir(base, id));
        }
    }
    lemma_with_fields_indexed(nodes(t), base, table.spec, id, fields);
}

/// Opening a table that is there with a schema other than the stored one is
/// refused, and the tree stays as it is.
pub proof fn law_open_refuses_other_schema(
    t: Tree,
    root: Seq<char>,
    name: Seq<char>,
    declared: Seq<(Seq<char>, Column)>,
)
    requires
        present(t, table_dir(root, name)),
        stored_schema(t, table_dir(root, name)) is Ok,
        stored_schema(t, table_dir(root, name))->Ok_0 != to_map(declared),
    ensures
        open_table(t, root, name, declared) == (
            t,
            Err::<TableView, Error>(Error::SchemaMismatch),
        ),
{
}

/// After a table was created with one schema, opening it with another is
/// refused and changes nothing, and opening it with the same schema again
/// gives the table and changes nothing.
///
/// The database's directory stands, nothing stands at the table's
/// directory, and no column is declared twice in the first schema.
pub proof fn law_schema_guard(
    t: Tree,
    root: Seq<char>,
    name: Seq<char>,
    first: Seq<(Seq<char>, Column)>,
    second: Seq<(Seq<char>, Column)>,
)
    requires
        tree_wf(t),
        is_dir(t, root_dir(root)),
        !present(t, table_dir(root, name)),
        distinct_keys(first),
    ensures
        open_table(t, root, name, first).1 is Ok,
        open_table(open_table(t, root, name, first).0, root, name, second) == (
            open_table(t, root, name, first).0,
            if to_map(second) == to_map(first) {
                Ok::<TableView, Error>(
                    TableView { spec: to_map(first), name, path: table_dir(root, name) },
                )
            } else {
                Err::<TableView, Error>(Error::SchemaMismatch)
            },
        ),
{
    let base = table_dir(root, name);
    assert(base.drop_last() =~= root_dir(root));
    lemma_create_actions(t, base, first);
}

/// After a cell was changed to a text that no row of the column had, the
/// first row of the new text's bucket is the changed row, with the new value
/// in the cell and its other cells as they were.
///
/// As for `law_set_cell_moves_row`; besides, the row could be read before
/// the change, and the index listed no row under the new text.
pub proof fn law_set_cell_then_get_one(
    t: Tree,
    table: TableView,
    id: Seq<char>,
    column: Seq<char>,
    new: Cell,
    old: Cell,
)
    requires
        tree_wf(t),
        laid_out(nodes(t), table.path, table.spec),
        indexed(nodes(t), table.path, table.spec),
        fits(table.spec, column, new),
        holds_text(nodes(t), table.path, id, column, cell_text(old)),
        cell_text(old) != cell_text(new),
        row_cells(t, table, id) is Ok,
        forall|other: Seq<char>|
            !nodes(t).contains_key(
                #[trigger] marker_file(table.path, column, cell_text(new), other),
            ),
    ensures
        bucket_first(
            run(t, set_cell_actions(table.path, id, column, cell_text(new), cell_text(old))).0,
            table,
            column,
            cell_text(new),
        ) == Ok::<Option<RowView>, Error>(
            Some(
                RowView { id, table, cells: row_cells(t, table, id)->Ok_0.insert(column, new) },
            ),
        ),
{
    lemma_set_cell_first(t, table.path, table.spec, id, column, new, cell_text(old));
    lemma_set_cell_row(t, table, id, column, new, cell_text(old));
}

/// The rows of a bucket are different rows: no id comes twice.
pub proof fn law_get_rows_distinct(
    t: Tree,
    table: TableView,
    column: Seq<char>,
    text: Seq<char>,
    i: int,
    j: int,
)
    requires
        tree_wf(t),
        bucket_rows(t, table, column, text) is Ok,
        0 <= i < j < bucket_rows(t, table, column, text)->Ok_0.len(),
    ensures
        bucket_rows(t, table, column, text)->Ok_0[i].id != bucket_rows(
            t,
            table,
            column,
            text,
        )->Ok_0[j].id,
{
    let bucket = bucket_dir(table.path, column, text);
    let ids = read_dir(t, bucket)->Ok_0;
    lemma_rows_of_len(t, table, ids);
    lemma_rows_of_each(t, table, ids, i);
    lemma_rows_of_each(t, table, ids, j);
    lemma_listing_distinct(t, bucket);
}

} // verus!
