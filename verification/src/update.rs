//! What changing a cell leaves on a tree that holds the table.

use crate::assoc::lemma_to_map_has;
use crate::column::{cell_text, lemma_text_round_trip, Cell};
use crate::error::Error;
use crate::fields::Cells;
use crate::insertion::fits;
use crate::layout::{bucket_dir, cell_file, column_dir, marker_file, row_dir};
use crate::lookup::{cell_at, lemma_cells_of_all, lemma_cells_of_each, row_cells};
use crate::plan::{apply, lemma_run_four, run, Action};
use crate::schema::Schema;
use crate::shape::lemma_kinds;
use crate::sound::{canonical, dir_in, indexed, laid_out, Nodes};
use crate::table::{set_cell_actions, TableView};
use crate::tree::{
    lemma_create_dir_all_below, lemma_listed, lemma_listing_contains, lemma_parent,
    lemma_remove_file, lemma_write_file_below, listing, nodes, read_dir, tree_wf, FsError, Node,
    Path, Tree,
};
use vstd::prelude::*;

verus! {

/// The entries of a tree after the cell of the row `id` in `column` went
/// from the text `old_text` to the text `new_text`.
pub open spec fn with_cell_set(
    m: Nodes,
    base: Path,
    id: Seq<char>,
    column: Seq<char>,
    new_text: Seq<char>,
    old_text: Seq<char>,
) -> Nodes {
    m.insert(cell_file(base, id, column), Node::File(new_text)).insert(
        bucket_dir(base, column, new_text),
        Node::Dir,
    ).insert(marker_file(base, column, new_text, id), Node::File(Seq::empty())).remove(
        marker_file(base, column, old_text, id),
    )
}

/// The cell of the row `id` in `column` holds `text`, and the index lists
/// the row under it.
pub open spec fn holds_text(
    m: Nodes,
    base: Path,
    id: Seq<char>,
    column: Seq<char>,
    text: Seq<char>,
) -> bool {
    &&& m.contains_key(cell_file(base, id, column))
    &&& m[cell_file(base, id, column)] == Node::File(text)
    &&& m.contains_key(marker_file(base, column, text, id))
}

/// Changing a cell to a value of its column's type, with the old value
/// given as the tree holds it and another text than the new one, succeeds,
/// leaves the table's layout in place and the index in agreement with the
/// rows.
pub proof fn lemma_set_cell_actions(
    t: Tree,
    base: Path,
    schema: Schema,
    id: Seq<char>,
    column: Seq<char>,
    new: Cell,
    old_text: Seq<char>,
)
    requires
        tree_wf(t),
        laid_out(nodes(t), base, schema),
        indexed(nodes(t), base, schema),
        fits(schema, column, new),
        holds_text(nodes(t), base, id, column, old_text),
        old_text != cell_text(new),
    ensures
        run(t, set_cell_actions(base, id, column, cell_text(new), old_text)).1 is None,
        tree_wf(run(t, set_cell_actions(base, id, column, cell_text(new), old_text)).0),
        nodes(run(t, set_cell_actions(base, id, column, cell_text(new), old_text)).0)
            == with_cell_set(nodes(t), base, id, column, cell_text(new), old_text),
        laid_out(
            nodes(run(t, set_cell_actions(base, id, column, cell_text(new), old_text)).0),
            base,
            schema,
        ),
        indexed(
            nodes(run(t, set_cell_actions(base, id, column, cell_text(new), old_text)).0),
            base,
            schema,
        ),
{
    lemma_kinds(base);
    let text = cell_text(new);
    let row = row_dir(base, id);
    let file = cell_file(base, id, column);
    let bucket = bucket_dir(base, column, text);
    let marker = marker_file(base, column, text, id);
    let gone = marker_file(base, column, old_text, id);
    let a1 = Action::Write(file, text);
    let a2 = Action::CreateDirAll(bucket);
    let a3 = Action::Write(marker, Seq::empty());
    let a4 = Action::RemoveFile(gone);
    assert(set_cell_actions(base, id, column, text, old_text) == seq![a1, a2, a3, a4]);
    let m = nodes(t);

    lemma_parent(t, file);
    assert(file.drop_last() =~= row);
    lemma_write_file_below(t, file, text);
    let t1 = apply(t, a1)->Ok_0;
    let m1 = nodes(t1);

    assert(bucket.drop_last() =~= column_dir(base, column));
    assert(dir_in(m, column_dir(base, column)));
    assert(m1.contains_key(bucket) ==> m.contains_key(bucket) && m1[bucket] is Dir);
    lemma_create_dir_all_below(t1, bucket);
    let t2 = apply(t1, a2)->Ok_0;
    let m2 = nodes(t2);

    assert(marker.drop_last() =~= bucket);
    assert(m2.contains_key(marker) ==> m.contains_key(marker) && m2[marker] is File);
    lemma_write_file_below(t2, marker, Seq::empty());
    let t3 = apply(t2, a3)->Ok_0;
    let m3 = nodes(t3);

    assert(gone != marker);
    assert(m3.contains_key(gone) && m3[gone] is File);
    lemma_remove_file(t3, gone);
    let t4 = apply(t3, a4)->Ok_0;
    let m4 = nodes(t4);

    lemma_run_four(t, a1, a2, a3, a4);
    assert(m4 == with_cell_set(m, base, id, column, text, old_text));
    assert forall|c: Seq<char>| schema.contains_key(c) implies dir_in(
        m4,
        #[trigger] column_dir(base, c),
    ) by {
        assert(dir_in(m, column_dir(base, c)));
    }
    lemma_text_round_trip(new);
    assert(canonical(schema[column], text));
    assert forall|c: Seq<char>, x: Seq<char>, i: Seq<char>| #[trigger]
        m4.contains_key(marker_file(base, c, x, i)) implies schema.contains_key(c)
        && m4.contains_key(cell_file(base, i, c)) && m4[cell_file(base, i, c)] == Node::File(x)
        && canonical(schema[c], x) by {
        if marker_file(base, c, x, i) == marker {
        } else {
            assert(m.contains_key(marker_file(base, c, x, i)));
            assert(m.contains_key(cell_file(base, i, c)));
            if cell_file(base, i, c) == file {
                assert(x == old_text);
            }
        }
    }
}

/// After the change, the bucket of the old text does not list the row, the
/// bucket of the new text lists it, and the cell holds the new text.
pub proof fn lemma_set_cell_listed(
    t: Tree,
    base: Path,
    schema: Schema,
    id: Seq<char>,
    column: Seq<char>,
    new: Cell,
    old_text: Seq<char>,
)
    requires
        tree_wf(t),
        laid_out(nodes(t), base, schema),
        indexed(nodes(t), base, schema),
        fits(schema, column, new),
        holds_text(nodes(t), base, id, column, old_text),
        old_text != cell_text(new),
    ensures
        !listing(
            run(t, set_cell_actions(base, id, column, cell_text(new), old_text)).0,
            bucket_dir(base, column, old_text),
        ).contains(id),
        listing(
            run(t, set_cell_actions(base, id, column, cell_text(new), old_text)).0,
            bucket_dir(base, column, cell_text(new)),
        ).contains(id),
        holds_text(
            nodes(run(t, set_cell_actions(base, id, column, cell_text(new), old_text)).0),
            base,
            id,
            column,
            cell_text(new),
        ),
{
    let text = cell_text(new);
    let u = run(t, set_cell_actions(base, id, column, text, old_text)).0;
    lemma_kinds(base);
    lemma_set_cell_actions(t, base, schema, id, column, new, old_text);
    let was = bucket_dir(base, column, old_text);
    let now = bucket_dir(base, column, text);
    let gone = marker_file(base, column, old_text, id);
    let marker = marker_file(base, column, text, id);
    assert(was.push(id) == gone);
    assert(now.push(id) == marker);
    assert(gone != marker);
    lemma_listing_contains(u, was, id);
    lemma_listing_contains(u, now, id);
    lemma_to_map_has(u, gone);
    lemma_to_map_has(u, marker);
    assert(!nodes(u).contains_key(gone));
    assert(nodes(u).contains_key(marker));
}

/// Where the index listed no row under the new text, the changed row is the
/// first that the bucket of the new text lists after the change.
pub proof fn lemma_set_cell_first(
    t: Tree,
    base: Path,
    schema: Schema,
    id: Seq<char>,
    column: Seq<char>,
    new: Cell,
    old_text: Seq<char>,
)
    requires
        tree_wf(t),
        laid_out(nodes(t), base, schema),
        indexed(nodes(t), base, schema),
        fits(schema, column, new),
        holds_text(nodes(t), base, id, column, old_text),
        old_text != cell_text(new),
        forall|other: Seq<char>|
            !nodes(t).contains_key(#[trigger] marker_file(base, column, cell_text(new), other)),
    ensures
        read_dir(
            run(t, set_cell_actions(base, id, column, cell_text(new), old_text)).0,
            bucket_dir(base, column, cell_text(new)),
        ) is Ok,
        read_dir(
            run(t, set_cell_actions(base, id, column, cell_text(new), old_text)).0,
            bucket_dir(base, column, cell_text(new)),
        )->Ok_0.len() > 0,
        read_dir(
            run(t, set_cell_actions(base, id, column, cell_text(new), old_text)).0,
            bucket_dir(base, column, cell_text(new)),
        )->Ok_0[0] == id,
{
    let text = cell_text(new);
    let u = run(t, set_cell_actions(base, id, column, text, old_text)).0;
    lemma_kinds(base);
    lemma_set_cell_actions(t, base, schema, id, column, new, old_text);
    lemma_set_cell_listed(t, base, schema, id, column, new, old_text);
    let now = bucket_dir(base, column, text);
    let ids = listing(u, now);
    assert(nodes(u).contains_key(now) && nodes(u)[now] is Dir);
    assert(read_dir(u, now) == Ok::<Seq<Seq<char>>, FsError>(ids));
    assert(ids.len() > 0);
    assert(ids.contains(ids[0]));
    lemma_listed(u, now, ids[0]);
    assert(now.push(ids[0]) == marker_file(base, column, text, ids[0]));
    if ids[0] != id {
        assert(marker_file(base, column, text, ids[0]) != marker_file(base, column, text, id));
        assert(nodes(t).contains_key(marker_file(base, column, text, ids[0])));
    }
}

/// After the change, the row reads as before but for the changed cell,
/// which has the new value.
pub proof fn lemma_set_cell_row(
    t: Tree,
    table: TableView,
    id: Seq<char>,
    column: Seq<char>,
    new: Cell,
    old_text: Seq<char>,
)
    requires
        tree_wf(t),
        laid_out(nodes(t), table.path, table.spec),
        indexed(nodes(t), table.path, table.spec),
        fits(table.spec, column, new),
        holds_text(nodes(t), table.path, id, column, old_text),
        old_text != cell_text(new),
        row_cells(t, table, id) is Ok,
    ensures
        row_cells(
            run(t, set_cell_actions(table.path, id, column, cell_text(new), old_text)).0,
            table,
            id,
        ) == Ok::<Cells, Error>(row_cells(t, table, id)->Ok_0.insert(column, new)),
{
    let base = table.path;
    let schema = table.spec;
    let text = cell_text(new);
    let u = run(t, set_cell_actions(base, id, column, text, old_text)).0;
    let m = nodes(t);
    let mu = nodes(u);
    lemma_kinds(base);
    lemma_set_cell_actions(t, base, schema, id, column, new, old_text);
    let dir = row_dir(base, id);
    let file = cell_file(base, id, column);
    lemma_parent(t, file);
    assert(file.drop_last() =~= dir);
    let names_t = listing(t, dir);
    let names_u = listing(u, dir);
    assert(read_dir(t, dir) == Ok::<Seq<Seq<char>>, FsError>(names_t));
    assert(mu.contains_key(dir) && mu[dir] == m[dir]);
    assert(read_dir(u, dir) == Ok::<Seq<Seq<char>>, FsError>(names_u));
    assert forall|n: Seq<char>| names_u.contains(n) <==> names_t.contains(n) by {
        lemma_listed(u, dir, n);
        lemma_listed(t, dir, n);
        assert(dir.push(n) == cell_file(base, id, n));
    }
    lemma_listed(t, dir, column);
    assert(dir.push(column) == file);
    assert(names_t.contains(column));
    lemma_text_round_trip(new);
    assert forall|n: Seq<char>| names_t.contains(n) implies cell_at(t, schema, dir, n) is Ok
        && cell_at(u, schema, dir, n) == if n == column {
        Ok::<Cell, Error>(new)
    } else {
        cell_at(t, schema, dir, n)
    } by {
        lemma_cells_of_each(t, schema, dir, names_t, n);
        lemma_listed(t, dir, n);
        assert(dir.push(n) == cell_file(base, id, n));
        if n != column {
            assert(cell_file(base, id, n) != file);
            assert(mu.contains_key(cell_file(base, id, n)));
            assert(mu[cell_file(base, id, n)] == m[cell_file(base, id, n)]);
        }
    }
    assert forall|k: int| 0 <= k < names_t.len() implies cell_at(
        t,
        schema,
        dir,
        #[trigger] names_t[k],
    ) is Ok by {
        assert(names_t.contains(names_t[k]));
    }
    assert forall|k: int| 0 <= k < names_u.len() implies cell_at(
        u,
        schema,
        dir,
        #[trigger] names_u[k],
    ) is Ok by {
        assert(names_u.contains(names_u[k]));
    }
    lemma_cells_of_all(t, schema, dir, names_t);
    lemma_cells_of_all(u, schema, dir, names_u);
    assert(Map::new(
        |n: Seq<char>| names_u.contains(n),
        |n: Seq<char>| cell_at(u, schema, dir, n)->Ok_0,
    ) =~= Map::new(
        |n: Seq<char>| names_t.contains(n),
        |n: Seq<char>| cell_at(t, schema, dir, n)->Ok_0,
    ).insert(column, new));
}

} // verus!
