//! What a path below a table's directory is for, read off the path itself.

use crate::layout::{
    bucket_dir, cell_file, column_dir, data_dir, data_name, index_dir, index_name, marker_file,
    row_dir, spec_dir, spec_file, spec_name,
};
use crate::tree::Path;
use vstd::prelude::*;

verus! {

/// What a path is for in the layout of a table.
pub ghost enum PathKind {
    /// The table's directory.
    Base,
    /// The directory of the schema.
    SpecDir,
    /// The tag file of a column.
    SpecFile(Seq<char>),
    /// The directory of the rows.
    DataDir,
    /// The directory of a row, by its id.
    RowDir(Seq<char>),
    /// The file of a cell, by the row's id and the column.
    CellFile(Seq<char>, Seq<char>),
    /// The directory of the index.
    IndexDir,
    /// The index directory of a column.
    ColumnDir(Seq<char>),
    /// The bucket of a text in a column.
    Bucket(Seq<char>, Seq<char>),
    /// The marker of a row in a bucket, by column, text and the row's id.
    Marker(Seq<char>, Seq<char>, Seq<char>),
    /// Anything else.
    Other,
}

/// What the path `p` is for in the layout of the table at `base`.
pub open spec fn kind_of(base: Path, p: Path) -> PathKind {
    let n = base.len() as int;
    if p.len() < n || p.take(n) != base {
        PathKind::Other
    } else {
        let r = p.subrange(n, p.len() as int);
        if r.len() == 0 {
            PathKind::Base
        } else if r[0] == spec_name() {
            if r.len() == 1 {
                PathKind::SpecDir
            } else if r.len() == 2 {
                PathKind::SpecFile(r[1])
            } else {
                PathKind::Other
            }
        } else if r[0] == data_name() {
            if r.len() == 1 {
                PathKind::DataDir
            } else if r.len() == 2 {
                PathKind::RowDir(r[1])
            } else if r.len() == 3 {
                PathKind::CellFile(r[1], r[2])
            } else {
                PathKind::Other
            }
        } else if r[0] == index_name() {
            if r.len() == 1 {
                PathKind::IndexDir
            } else if r.len() == 2 {
                PathKind::ColumnDir(r[1])
            } else if r.len() == 3 {
                PathKind::Bucket(r[1], r[2])
            } else if r.len() == 4 {
                PathKind::Marker(r[1], r[2], r[3])
            } else {
                PathKind::Other
            }
        } else {
            PathKind::Other
        }
    }
}

/// The three directory names of the layout differ from each other.
pub proof fn lemma_names_differ()
    ensures
        spec_name() != data_name(),
        spec_name() != index_name(),
        data_name() != index_name(),
{
    assert(spec_name()[1] == 's');
    assert(data_name()[1] == 'd');
    assert(index_name()[1] == 'i');
}

/// A path that continues `base` by `r` is read as `base` and then `r`.
proof fn lemma_split(base: Path, r: Path)
    ensures
        (base + r).take(base.len() as int) == base,
        (base + r).subrange(base.len() as int, (base + r).len() as int) == r,
{
    assert((base + r).take(base.len() as int) =~= base);
    assert((base + r).subrange(base.len() as int, (base + r).len() as int) =~= r);
}

/// Each path of the layout is read as what it was built for.
pub proof fn lemma_kinds(base: Path)
    ensures
        kind_of(base, base) == PathKind::Base,
        kind_of(base, spec_dir(base)) == PathKind::SpecDir,
        kind_of(base, data_dir(base)) == PathKind::DataDir,
        kind_of(base, index_dir(base)) == PathKind::IndexDir,
        forall|c: Seq<char>| kind_of(base, #[trigger] spec_file(base, c)) == PathKind::SpecFile(c),
        forall|i: Seq<char>| kind_of(base, #[trigger] row_dir(base, i)) == PathKind::RowDir(i),
        forall|i: Seq<char>, c: Seq<char>|
            kind_of(base, #[trigger] cell_file(base, i, c)) == PathKind::CellFile(i, c),
        forall|c: Seq<char>|
            kind_of(base, #[trigger] column_dir(base, c)) == PathKind::ColumnDir(c),
        forall|c: Seq<char>, x: Seq<char>|
            kind_of(base, #[trigger] bucket_dir(base, c, x)) == PathKind::Bucket(c, x),
        forall|c: Seq<char>, x: Seq<char>, i: Seq<char>|
            kind_of(base, #[trigger] marker_file(base, c, x, i)) == PathKind::Marker(c, x, i),
{
    lemma_names_differ();
    lemma_split(base, Seq::empty());
    assert(base + Seq::<Seq<char>>::empty() =~= base);
    lemma_split(base, seq![spec_name()]);
    assert(base + seq![spec_name()] =~= spec_dir(base));
    lemma_split(base, seq![data_name()]);
    assert(base + seq![data_name()] =~= data_dir(base));
    lemma_split(base, seq![index_name()]);
    assert(base + seq![index_name()] =~= index_dir(base));
    assert forall|c: Seq<char>|
        kind_of(base, #[trigger] spec_file(base, c)) == PathKind::SpecFile(c) by {
        lemma_split(base, seq![spec_name(), c]);
        assert(base + seq![spec_name(), c] =~= spec_file(base, c));
    }
    assert forall|i: Seq<char>|
        kind_of(base, #[trigger] row_dir(base, i)) == PathKind::RowDir(i) by {
        lemma_split(base, seq![data_name(), i]);
        assert(base + seq![data_name(), i] =~= row_dir(base, i));
    }
    assert forall|i: Seq<char>, c: Seq<char>|
        kind_of(base, #[trigger] cell_file(base, i, c)) == PathKind::CellFile(i, c) by {
        lemma_split(base, seq![data_name(), i, c]);
        assert(base + seq![data_name(), i, c] =~= cell_file(base, i, c));
    }
    assert forall|c: Seq<char>|
        kind_of(base, #[trigger] column_dir(base, c)) == PathKind::ColumnDir(c) by {
        lemma_split(base, seq![index_name(), c]);
        assert(base + seq![index_name(), c] =~= column_dir(base, c));
    }
    assert forall|c: Seq<char>, x: Seq<char>|
        kind_of(base, #[trigger] bucket_dir(base, c, x)) == PathKind::Bucket(c, x) by {
        lemma_split(base, seq![index_name(), c, x]);
        assert(base + seq![index_name(), c, x] =~= bucket_dir(base, c, x));
    }
    assert forall|c: Seq<char>, x: Seq<char>, i: Seq<char>|
        kind_of(base, #[trigger] marker_file(base, c, x, i)) == PathKind::Marker(c, x, i) by {
        lemma_split(base, seq![index_name(), c, x, i]);
        assert(base + seq![index_name(), c, x, i] =~= marker_file(base, c, x, i));
    }
}

} // verus!
