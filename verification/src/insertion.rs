//! What storing a row leaves on a tree that holds the table.

use crate::assoc::{distinct_keys, lemma_to_map_has, lemma_to_map_last, to_map};
use crate::column::{cell_column, cell_text, lemma_text_round_trip, Cell};
use crate::layout::{bucket_dir, cell_file, column_dir, data_dir, marker_file, row_dir};
use crate::plan::{apply, lemma_run_concat, lemma_run_four, run, Action};
use crate::schema::Schema;
use crate::shape::lemma_kinds;
use crate::sound::{dir_in, indexed, laid_out, Nodes};
use crate::table::{field_actions, insert_actions};
use crate::tree::{
    lemma_create_dir_all_below, lemma_write_file_below, nodes, tree_wf, Node, Path, Tree,
};
use vstd::prelude::*;

verus! {

/// The value is of the type that the schema declares for the column.
pub open spec fn fits(schema: Schema, name: Seq<char>, cell: Cell) -> bool {
    schema.contains_key(name) && schema[name] == cell_column(cell)
}

/// The entries of a tree after one cell of the row `id` was stored.
pub open spec fn with_field(
    m: Nodes,
    base: Path,
    id: Seq<char>,
    name: Seq<char>,
    cell: Cell,
) -> Nodes {
    m.insert(row_dir(base, id), Node::Dir).insert(
        cell_file(base, id, name),
        Node::File(cell_text(cell)),
    ).insert(bucket_dir(base, name, cell_text(cell)), Node::Dir).insert(
        marker_file(base, name, cell_text(cell), id),
        Node::File(Seq::empty()),
    )
}

/// The entries of a tree after the cells of the row `id` were stored, those
/// that fit the schema.
pub open spec fn with_fields(
    m: Nodes,
    base: Path,
    schema: Schema,
    id: Seq<char>,
    fields: Seq<(Seq<char>, Cell)>,
) -> Nodes
    decreases fields.len(),
{
    if fields.len() == 0 {
        m
    } else {
        let before = with_fields(m, base, schema, id, fields.drop_last());
        if fits(schema, fields.last().0, fields.last().1) {
            with_field(before, base, id, fields.last().0, fields.last().1)
        } else {
            before
        }
    }
}

/// Storing one cell that fits succeeds on a tree that holds the table, and
/// leaves the table's layout in place.
pub proof fn lemma_field_actions(
    t: Tree,
    base: Path,
    schema: Schema,
    id: Seq<char>,
    name: Seq<char>,
    cell: Cell,
)
    requires
        tree_wf(t),
        laid_out(nodes(t), base, schema),
        fits(schema, name, cell),
    ensures
        run(t, field_actions(base, schema, id, name, cell)).1 is None,
        tree_wf(run(t, field_actions(base, schema, id, name, cell)).0),
        nodes(run(t, field_actions(base, schema, id, name, cell)).0) == with_field(
            nodes(t),
            base,
            id,
            name,
            cell,
        ),
        laid_out(nodes(run(t, field_actions(base, schema, id, name, cell)).0), base, schema),
{
    lemma_kinds(base);
    let text = cell_text(cell);
    let row = row_dir(base, id);
    let file = cell_file(base, id, name);
    let bucket = bucket_dir(base, name, text);
    let marker = marker_file(base, name, text, id);
    let a1 = Action::CreateDirAll(row);
    let a2 = Action::Write(file, text);
    let a3 = Action::CreateDirAll(bucket);
    let a4 = Action::Write(marker, Seq::empty());
    assert(field_actions(base, schema, id, name, cell) == seq![a1, a2, a3, a4]);
    let m = nodes(t);

    assert(row.drop_last() =~= data_dir(base));
    assert(m.contains_key(row) ==> m[row] is Dir);
    lemma_create_dir_all_below(t, row);
    let t1 = apply(t, a1)->Ok_0;
    let m1 = nodes(t1);

    assert(file.drop_last() =~= row);
    assert(m1.contains_key(file) ==> m.contains_key(file) && m1[file] is File);
    lemma_write_file_below(t1, file, text);
    let t2 = apply(t1, a2)->Ok_0;
    let m2 = nodes(t2);

    assert(bucket.drop_last() =~= column_dir(base, name));
    assert(dir_in(m, column_dir(base, name)));
    assert(m2.contains_key(bucket) ==> m.contains_key(bucket) && m2[bucket] is Dir);
    lemma_create_dir_all_below(t2, bucket);
    let t3 = apply(t2, a3)->Ok_0;
    let m3 = nodes(t3);

    assert(marker.drop_last() =~= bucket);
    assert(m3.contains_key(marker) ==> m.contains_key(marker) && m3[marker] is File);
    lemma_write_file_below(t3, marker, Seq::empty());
    let t4 = apply(t3, a4)->Ok_0;
    let m4 = nodes(t4);

    lemma_run_four(t, a1, a2, a3, a4);
    assert(m4 == with_field(m, base, id, name, cell));
    assert forall|c: Seq<char>| schema.contains_key(c) implies dir_in(
        m4,
        #[trigger] column_dir(base, c),
    ) by {
        assert(dir_in(m, column_dir(base, c)));
    }
}

/// Storing a row succeeds on a tree that holds the table, whatever the
/// cells, and leaves the table's layout in place.
pub proof fn lemma_insert_actions(
    t: Tree,
    base: Path,
    schema: Schema,
    id: Seq<char>,
    fields: Seq<(Seq<char>, Cell)>,
)
    requires
        tree_wf(t),
        laid_out(nodes(t), base, schema),
    ensures
        run(t, insert_actions(base, schema, id, fields)).1 is None,
        tree_wf(run(t, insert_actions(base, schema, id, fields)).0),
        nodes(run(t, insert_actions(base, schema, id, fields)).0) == with_fields(
            nodes(t),
            base,
            schema,
            id,
            fields,
        ),
        laid_out(nodes(run(t, insert_actions(base, schema, id, fields)).0), base, schema),
    decreases fields.len(),
{
    if fields.len() > 0 {
        let head = fields.drop_last();
        let last = fields.last();
        lemma_insert_actions(t, base, schema, id, head);
        let u = run(t, insert_actions(base, schema, id, head)).0;
        let step = field_actions(base, schema, id, last.0, last.1);
        lemma_run_concat(t, insert_actions(base, schema, id, head), step);
        if fits(schema, last.0, last.1) {
            lemma_field_actions(u, base, schema, id, last.0, last.1);
        }
    }
}

/// The cells of a row that are stored: those that fit the schema.
pub open spec fn stored_cells(schema: Schema, cells: Map<Seq<char>, Cell>) -> Map<Seq<char>, Cell> {
    Map::new(
        |n: Seq<char>| cells.contains_key(n) && fits(schema, n, cells[n]),
        |n: Seq<char>| cells[n],
    )
}

/// What storing a row under an id that has no cells yet leaves of the row:
/// its cell files are those of the cells that fit, each with the cell's
/// text, and its directory stands if any cell fits.
pub proof fn lemma_with_fields_cells(
    m: Nodes,
    base: Path,
    schema: Schema,
    id: Seq<char>,
    fields: Seq<(Seq<char>, Cell)>,
)
    requires
        distinct_keys(fields),
        forall|n: Seq<char>| !m.contains_key(#[trigger] cell_file(base, id, n)),
    ensures
        forall|n: Seq<char>|
            with_fields(m, base, schema, id, fields).contains_key(
                #[trigger] cell_file(base, id, n),
            ) <==> stored_cells(schema, to_map(fields)).contains_key(n),
        forall|n: Seq<char>|
            stored_cells(schema, to_map(fields)).contains_key(n) ==> with_fields(
                m,
                base,
                schema,
                id,
                fields,
            )[#[trigger] cell_file(base, id, n)] == Node::File(cell_text(to_map(fields)[n])),
        stored_cells(schema, to_map(fields)).dom() != Set::<Seq<char>>::empty() ==> dir_in(
            with_fields(m, base, schema, id, fields),
            row_dir(base, id),
        ),
    decreases fields.len(),
{
    lemma_kinds(base);
    let cells = to_map(fields);
    if fields.len() == 0 {
        assert forall|n: Seq<char>| !cells.contains_key(n) by {
            lemma_to_map_has(fields, n);
        }
        assert(stored_cells(schema, cells).dom() =~= Set::<Seq<char>>::empty());
    } else {
        let head = fields.drop_last();
        let name = fields.last().0;
        let cell = fields.last().1;
        let seen = to_map(head);
        lemma_to_map_last(fields);
        lemma_with_fields_cells(m, base, schema, id, head);
        assert forall|n: Seq<char>|
            stored_cells(schema, cells).contains_key(n) <==> stored_cells(
                schema,
                seen,
            ).contains_key(n) || (n == name && fits(schema, name, cell)) by {}
        if fits(schema, name, cell) {
            assert(stored_cells(schema, cells).dom().contains(name));
        } else {
            assert(stored_cells(schema, cells).dom() =~= stored_cells(schema, seen).dom());
        }
    }
}

/// Storing a row under an id that has no cells yet leaves an index that
/// agreed with the rows in agreement with them.
pub proof fn lemma_with_fields_indexed(
    m: Nodes,
    base: Path,
    schema: Schema,
    id: Seq<char>,
    fields: Seq<(Seq<char>, Cell)>,
)
    requires
        distinct_keys(fields),
        indexed(m, base, schema),
        forall|n: Seq<char>| !m.contains_key(#[trigger] cell_file(base, id, n)),
    ensures
        indexed(with_fields(m, base, schema, id, fields), base, schema),
    decreases fields.len(),
{
    lemma_kinds(base);
    let after = with_fields(m, base, schema, id, fields);
    if fields.len() > 0 {
        let head = fields.drop_last();
        let name = fields.last().0;
        let cell = fields.last().1;
        let before = with_fields(m, base, schema, id, head);
        lemma_to_map_last(fields);
        lemma_with_fields_indexed(m, base, schema, id, head);
        lemma_with_fields_cells(m, base, schema, id, head);
        if fits(schema, name, cell) {
            let text = cell_text(cell);
            assert(!before.contains_key(cell_file(base, id, name)));
            assert forall|x: Seq<char>| !before.contains_key(
                #[trigger] marker_file(base, name, x, id),
            ) by {}
            lemma_text_round_trip(cell);
            assert(after == with_field(before, base, id, name, cell));
            assert forall|c: Seq<char>, x: Seq<char>, i: Seq<char>| #[trigger]
                after.contains_key(marker_file(base, c, x, i)) implies schema.contains_key(c)
                && after.contains_key(cell_file(base, i, c)) && after[cell_file(base, i, c)]
                == Node::File(x) && crate::sound::canonical(schema[c], x) by {
                if marker_file(base, c, x, i) == marker_file(base, name, text, id) {
                } else {
                    assert(before.contains_key(marker_file(base, c, x, i)));
                    assert(before.contains_key(cell_file(base, i, c)));
                }
            }
        }
    }
}

} // verus!
