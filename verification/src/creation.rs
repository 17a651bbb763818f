//! What creating a table leaves on a tree.

use crate::assoc::{distinct_keys, lemma_to_map_has, lemma_to_map_last, to_map};
use crate::column::{lemma_tag_round_trip, tag_text, Column};
use crate::db::{column_actions, column_at, create_actions, lemma_tags_of_all, stored_schema};
use crate::error::Error;
use crate::layout::{column_dir, data_dir, index_dir, marker_file, spec_dir, spec_file};
use crate::plan::{apply, lemma_run_concat, lemma_run_four, run, Action};
use crate::schema::Schema;
use crate::shape::{kind_of, lemma_kinds};
use crate::sound::{dir_in, indexed, laid_out, node_fits, Nodes};
use crate::tree::{
    is_dir, lemma_create_dir_below, lemma_listing_contains, lemma_nodes_keys, lemma_parent,
    lemma_write_file_below, listing, nodes, present, read_dir, tree_wf, FsError, Node, Path, Tree,
};
use vstd::prelude::*;

verus! {

/// The entries of a tree after columns were declared in a table.
pub open spec fn with_columns(m: Nodes, base: Path, columns: Seq<(Seq<char>, Column)>) -> Nodes
    decreases columns.len(),
{
    if columns.len() == 0 {
        m
    } else {
        with_columns(m, base, columns.drop_last()).insert(
            spec_file(base, columns.last().0),
            Node::File(tag_text(columns.last().1)),
        ).insert(column_dir(base, columns.last().0), Node::Dir)
    }
}

/// The entries of a tree after the directories of a table were created.
pub open spec fn with_base(m: Nodes, base: Path) -> Nodes {
    m.insert(base, Node::Dir).insert(spec_dir(base), Node::Dir).insert(
        index_dir(base),
        Node::Dir,
    ).insert(data_dir(base), Node::Dir)
}

/// Nothing stands below a place where nothing stands.
pub proof fn lemma_below_absent(t: Tree, p: Path, q: Path)
    requires
        tree_wf(t),
        !present(t, p),
        q.len() >= p.len(),
        q.take(p.len() as int) == p,
    ensures
        !nodes(t).contains_key(q),
    decreases q.len(),
{
    if q.len() == p.len() {
        assert(q.take(p.len() as int) =~= q);
    } else if nodes(t).contains_key(q) {
        lemma_parent(t, q);
        assert(q.drop_last().take(p.len() as int) =~= q.take(p.len() as int));
        lemma_below_absent(t, p, q.drop_last());
    }
}

/// What declaring columns leaves: a tag file and an index directory for each
/// column, and everything else as it was.
pub proof fn lemma_with_columns(m: Nodes, base: Path, columns: Seq<(Seq<char>, Column)>)
    requires
        distinct_keys(columns),
        forall|q: Path| #[trigger] m.contains_key(q) ==> node_fits(kind_of(base, q), m[q]),
    ensures
        forall|c: Seq<char>|
            with_columns(m, base, columns).contains_key(#[trigger] spec_file(base, c))
                <==> m.contains_key(spec_file(base, c)) || to_map(columns).contains_key(c),
        forall|c: Seq<char>|
            with_columns(m, base, columns).contains_key(#[trigger] column_dir(base, c))
                <==> m.contains_key(column_dir(base, c)) || to_map(columns).contains_key(c),
        forall|c: Seq<char>|
            to_map(columns).contains_key(c) ==> with_columns(m, base, columns)[#[trigger] spec_file(
                base,
                c,
            )] == Node::File(tag_text(to_map(columns)[c])),
        forall|q: Path| #[trigger]
            with_columns(m, base, columns).contains_key(q) ==> node_fits(
                kind_of(base, q),
                with_columns(m, base, columns)[q],
            ),
        forall|q: Path| #[trigger]
            with_columns(m, base, columns).contains_key(q) ==> m.contains_key(q) || kind_of(
                base,
                q,
            ) is SpecFile || kind_of(base, q) is ColumnDir,
        forall|q: Path| #[trigger]
            m.contains_key(q) && !(kind_of(base, q) is SpecFile) && !(kind_of(
                base,
                q,
            ) is ColumnDir) ==> with_columns(m, base, columns).contains_key(q) && with_columns(
                m,
                base,
                columns,
            )[q] == m[q],
    decreases columns.len(),
{
    lemma_kinds(base);
    if columns.len() == 0 {
        assert forall|c: Seq<char>| !to_map(columns).contains_key(c) by {
            lemma_to_map_has(columns, c);
        }
    } else {
        let head = columns.drop_last();
        let last = columns.last();
        lemma_to_map_last(columns);
        lemma_with_columns(m, base, head);
    }
}

/// Declaring columns in a table whose directories stand and hold nothing
/// under the columns' names succeeds.
pub proof fn lemma_column_actions(t: Tree, base: Path, columns: Seq<(Seq<char>, Column)>)
    requires
        tree_wf(t),
        distinct_keys(columns),
        is_dir(t, spec_dir(base)),
        is_dir(t, index_dir(base)),
        forall|q: Path| #[trigger]
            nodes(t).contains_key(q) ==> node_fits(kind_of(base, q), nodes(t)[q]),
        forall|c: Seq<char>| !nodes(t).contains_key(#[trigger] column_dir(base, c)),
    ensures
        run(t, column_actions(base, columns)).1 is None,
        tree_wf(run(t, column_actions(base, columns)).0),
        nodes(run(t, column_actions(base, columns)).0) == with_columns(nodes(t), base, columns),
    decreases columns.len(),
{
    lemma_kinds(base);
    if columns.len() > 0 {
        let head = columns.drop_last();
        let last = columns.last();
        lemma_to_map_last(columns);
        lemma_column_actions(t, base, head);
        lemma_with_columns(nodes(t), base, head);
        let u = run(t, column_actions(base, head)).0;
        let m = nodes(u);
        let file = spec_file(base, last.0);
        let dir = column_dir(base, last.0);
        let a1 = Action::Write(file, tag_text(last.1));
        let a2 = Action::CreateDir(dir);
        let step = seq![a1, a2];
        lemma_run_concat(t, column_actions(base, head), step);

        assert(file.drop_last() =~= spec_dir(base));
        assert(m.contains_key(spec_dir(base)) && m[spec_dir(base)] == nodes(t)[spec_dir(base)]);
        assert(m.contains_key(file) ==> m[file] is File);
        lemma_write_file_below(u, file, tag_text(last.1));
        let u1 = apply(u, a1)->Ok_0;
        let m1 = nodes(u1);

        assert(dir.drop_last() =~= index_dir(base));
        assert(m.contains_key(index_dir(base)) && m[index_dir(base)] == nodes(t)[index_dir(
            base,
        )]);
        assert(!m.contains_key(dir));
        assert(!m1.contains_key(dir));
        lemma_create_dir_below(u1, dir);
        let u2 = apply(u1, a2)->Ok_0;

        assert(step.subrange(1, 2) =~= seq![a2]);
        assert(seq![a2].subrange(1, 1) =~= Seq::<Action>::empty());
        assert(run(u2, Seq::<Action>::empty()) == (u2, None::<FsError>));
        assert(run(u1, seq![a2]) == (u2, None::<FsError>));
        assert(run(u, step) == (u2, None::<FsError>));
    }
}

/// Creating a table where nothing stands, in a directory that stands,
/// succeeds. It leaves the table's layout in place with an empty index, and
/// the schema that it stored reads back as the columns that were declared.
pub proof fn lemma_create_actions(t: Tree, base: Path, columns: Seq<(Seq<char>, Column)>)
    requires
        tree_wf(t),
        base.len() > 0,
        is_dir(t, base.drop_last()),
        !present(t, base),
        distinct_keys(columns),
    ensures
        run(t, create_actions(base, columns)).1 is None,
        tree_wf(run(t, create_actions(base, columns)).0),
        present(run(t, create_actions(base, columns)).0, base),
        laid_out(nodes(run(t, create_actions(base, columns)).0), base, to_map(columns)),
        indexed(nodes(run(t, create_actions(base, columns)).0), base, to_map(columns)),
        stored_schema(run(t, create_actions(base, columns)).0, base) == Ok::<Schema, Error>(
            to_map(columns),
        ),
{
    lemma_kinds(base);
    let m = nodes(t);
    let a1 = Action::CreateDir(base);
    let a2 = Action::CreateDir(spec_dir(base));
    let a3 = Action::CreateDir(index_dir(base));
    let a4 = Action::CreateDir(data_dir(base));
    let head = seq![a1, a2, a3, a4];
    assert forall|q: Path| #[trigger] m.contains_key(q) implies kind_of(base, q) is Other by {
        if !(kind_of(base, q) is Other) {
            lemma_below_absent(t, base, q);
        }
    }
    lemma_create_dir_below(t, base);
    let t1 = apply(t, a1)->Ok_0;
    assert(spec_dir(base).drop_last() =~= base);
    assert(!m.contains_key(spec_dir(base)));
    lemma_create_dir_below(t1, spec_dir(base));
    let t2 = apply(t1, a2)->Ok_0;
    assert(index_dir(base).drop_last() =~= base);
    assert(!m.contains_key(index_dir(base)));
    lemma_create_dir_below(t2, index_dir(base));
    let t3 = apply(t2, a3)->Ok_0;
    assert(data_dir(base).drop_last() =~= base);
    assert(!m.contains_key(data_dir(base)));
    lemma_create_dir_below(t3, data_dir(base));
    let t4 = apply(t3, a4)->Ok_0;
    lemma_run_four(t, a1, a2, a3, a4);
    let m4 = nodes(t4);
    assert(m4 == with_base(m, base));

    assert forall|c: Seq<char>| !m4.contains_key(#[trigger] column_dir(base, c)) by {
        assert(!m.contains_key(column_dir(base, c)));
    }
    assert forall|c: Seq<char>| !m4.contains_key(#[trigger] spec_file(base, c)) by {
        assert(!m.contains_key(spec_file(base, c)));
    }
    lemma_column_actions(t4, base, columns);
    lemma_with_columns(m4, base, columns);
    lemma_run_concat(t, head, column_actions(base, columns));
    let u = run(t, create_actions(base, columns)).0;
    let mu = nodes(u);
    let schema = to_map(columns);
    assert(mu == with_columns(m4, base, columns));
    assert(m4.contains_key(base) && m4.contains_key(spec_dir(base)) && m4.contains_key(
        data_dir(base),
    ) && m4.contains_key(index_dir(base)));
    assert(mu.contains_key(base) && mu[base] == m4[base]);
    assert(mu.contains_key(spec_dir(base)) && mu[spec_dir(base)] == m4[spec_dir(base)]);
    assert(mu.contains_key(index_dir(base)) && mu[index_dir(base)] == m4[index_dir(base)]);
    assert(mu.contains_key(data_dir(base)) && mu[data_dir(base)] == m4[data_dir(base)]);
    assert forall|c: Seq<char>| schema.contains_key(c) implies dir_in(
        mu,
        #[trigger] column_dir(base, c),
    ) by {
        assert(mu.contains_key(column_dir(base, c)));
        assert(node_fits(kind_of(base, column_dir(base, c)), mu[column_dir(base, c)]));
    }
    assert forall|c: Seq<char>, x: Seq<char>, i: Seq<char>|
        !mu.contains_key(#[trigger] marker_file(base, c, x, i)) by {
        if mu.contains_key(marker_file(base, c, x, i)) {
            assert(m4.contains_key(marker_file(base, c, x, i)));
            assert(m.contains_key(marker_file(base, c, x, i)));
        }
    }

    let dir = spec_dir(base);
    let names = listing(u, dir);
    assert(read_dir(u, dir) == Ok::<Seq<Seq<char>>, FsError>(names));
    lemma_nodes_keys(u);
    assert forall|n: Seq<char>| names.contains(n) <==> schema.contains_key(n) by {
        lemma_listing_contains(u, dir, n);
        assert(dir.push(n) == spec_file(base, n));
    }
    assert forall|n: Seq<char>| schema.contains_key(n) implies column_at(u, dir, n) == Ok::<
        Column,
        Error,
    >(schema[n]) by {
        assert(dir.push(n) == spec_file(base, n));
        assert(mu[spec_file(base, n)] == Node::File(tag_text(schema[n])));
        lemma_tag_round_trip(schema[n]);
    }
    assert forall|k: int| 0 <= k < names.len() implies column_at(u, dir, #[trigger] names[k])
        is Ok by {
        assert(names.contains(names[k]));
    }
    lemma_tags_of_all(u, dir, names);
    assert(Map::new(|n: Seq<char>| names.contains(n), |n: Seq<char>| column_at(u, dir, n)->Ok_0)
        =~= schema);
}

} // verus!
