//! Reading rows back: one row by its id, and the rows of an index bucket.

use crate::column::{cell_of_text, cell_text, stringify_col, Cell, ColumnValue};
use crate::disk::{path_join, path_of, Disk};
use crate::error::Error;
use crate::fields::{Cells, Fields};
use crate::layout::{bucket_dir, bucket_dir_at, row_dir, row_dir_at};
use crate::row::{rows_view, Row, RowView};
use crate::schema::Schema;
use crate::table::{Table, TableView};
use crate::traits::ToCell;
use crate::tree::{read_dir, read_to_string, FsError, Path, Tree};
use vstd::prelude::*;

verus! {

/// The cell that the file `name` of the row directory `dir` holds: the
/// file's text, read as a value of the type that the schema declares for the
/// column `name`.
pub open spec fn cell_at(t: Tree, schema: Schema, dir: Path, name: Seq<char>) -> Result<
    Cell,
    Error,
> {
    match read_to_string(t, dir.push(name)) {
        Err(e) => Err(Error::Io(e)),
        Ok(text) => if !schema.contains_key(name) {
            Err(Error::UnknownColumn)
        } else {
            match cell_of_text(schema[name], text) {
                Some(cell) => Ok(cell),
                None => Err(Error::BadCell),
            }
        },
    }
}

/// The cells that the files `names` of the row directory `dir` hold, or the
/// failure of the first of them that cannot be read.
pub open spec fn cells_of(t: Tree, schema: Schema, dir: Path, names: Seq<Seq<char>>) -> Result<
    Cells,
    Error,
>
    decreases names.len(),
{
    if names.len() == 0 {
        Ok(Map::empty())
    } else {
        match cells_of(t, schema, dir, names.drop_last()) {
            Err(e) => Err(e),
            Ok(cells) => match cell_at(t, schema, dir, names.last()) {
                Err(e) => Err(e),
                Ok(cell) => Ok(cells.insert(names.last(), cell)),
            },
        }
    }
}

/// The cells of the row `id` as the tree holds them.
pub open spec fn row_cells(t: Tree, table: TableView, id: Seq<char>) -> Result<Cells, Error> {
    match read_dir(t, row_dir(table.path, id)) {
        Err(e) => Err(Error::Io(e)),
        Ok(names) => cells_of(t, table.spec, row_dir(table.path, id), names),
    }
}

/// The rows with the ids `ids`, in that order, or the failure of the first
/// of them that cannot be read.
pub open spec fn rows_of(t: Tree, table: TableView, ids: Seq<Seq<char>>) -> Result<
    Seq<RowView>,
    Error,
>
    decreases ids.len(),
{
    if ids.len() == 0 {
        Ok(Seq::empty())
    } else {
        match rows_of(t, table, ids.drop_last()) {
            Err(e) => Err(e),
            Ok(rows) => match row_cells(t, table, ids.last()) {
                Err(e) => Err(e),
                Ok(cells) => Ok(rows.push(RowView { id: ids.last(), table, cells })),
            },
        }
    }
}

/// The rows that the index lists under `text` in `column`, in the order of
/// the bucket's listing.
pub open spec fn bucket_rows(
    t: Tree,
    table: TableView,
    column: Seq<char>,
    text: Seq<char>,
) -> Result<Seq<RowView>, Error> {
    match read_dir(t, bucket_dir(table.path, column, text)) {
        Err(e) => Err(Error::Io(e)),
        Ok(ids) => rows_of(t, table, ids),
    }
}

/// The first row that the index lists under `text` in `column`; none if the
/// bucket is empty or not there.
pub open spec fn bucket_first(
    t: Tree,
    table: TableView,
    column: Seq<char>,
    text: Seq<char>,
) -> Result<Option<RowView>, Error> {
    match read_dir(t, bucket_dir(table.path, column, text)) {
        Err(FsError::NotFound) => Ok(None),
        Err(e) => Err(Error::Io(e)),
        Ok(ids) => if ids.len() == 0 {
            Ok(None)
        } else {
            match row_cells(t, table, ids[0]) {
                Err(e) => Err(e),
                Ok(cells) => Ok(Some(RowView { id: ids[0], table, cells })),
            }
        },
    }
}

impl Table {
    /// Reads the cell that the file `name` of the row directory `dir` holds.
    pub fn read_cell(&self, disk: &Disk, dir: &Vec<String>, name: &str) -> (r: Result<
        ColumnValue,
        Error,
    >)
        requires
            self.wf(),
            disk.wf(),
        ensures
            match r {
                Ok(v) => cell_at(disk@, self@.spec, path_of(dir@), name@) == Ok::<Cell, Error>(v@),
                Err(e) => cell_at(disk@, self@.spec, path_of(dir@), name@) == Err::<Cell, Error>(
                    e,
                ),
            },
    {
        let file = path_join(dir, name);
        let text = match disk.read_to_string(&file) {
            Ok(text) => text,
            Err(e) => {
                return Err(Error::Io(e));
            },
        };
        let column = match self.schema().get(name) {
            Some(column) => column,
            None => {
                return Err(Error::UnknownColumn);
            },
        };
        match ColumnValue::parse(column, text) {
            Some(value) => Ok(value),
            None => Err(Error::BadCell),
        }
    }

    /// Reads the row `id`: every file of its directory, as a value of the
    /// type that the schema declares for the column of the file's name.
    pub fn row(&self, disk: &Disk, id: &str) -> (r: Result<Row, Error>)
        requires
            self.wf(),
            disk.wf(),
        ensures
            match r {
                Ok(row) => row.wf() && row@.id == id@ && row@.table == self@ && row_cells(
                    disk@,
                    self@,
                    id@,
                ) == Ok::<Cells, Error>(row@.cells),
                Err(e) => row_cells(disk@, self@, id@) == Err::<Cells, Error>(e),
            },
    {
        let dir = row_dir_at(self.path(), id);
        let names = match disk.read_dir(&dir) {
            Ok(names) => names,
            Err(e) => {
                return Err(Error::Io(e));
            },
        };
        let ghost listed = path_of(names@);
        let mut cells = Fields::new();
        let mut i: usize = 0;
        assert(listed.take(0) =~= Seq::<Seq<char>>::empty());
        while i < names.len()
            invariant
                i <= names@.len(),
                self.wf(),
                disk.wf(),
                cells.wf(),
                listed == path_of(names@),
                path_of(dir@) == row_dir(self@.path, id@),
                read_dir(disk@, path_of(dir@)) == Ok::<Seq<Seq<char>>, FsError>(listed),
                cells_of(disk@, self@.spec, path_of(dir@), listed.take(i as int)) == Ok::<
                    Cells,
                    Error,
                >(cells@),
            decreases names@.len() - i,
        {
            let name = &names[i];
            proof {
                lemma_cells_of_step(disk@, self@.spec, path_of(dir@), listed, i as int);
            }
            let value = match self.read_cell(disk, &dir, name.as_str()) {
                Ok(value) => value,
                Err(e) => {
                    return Err(e);
                },
            };
            cells.insert(name.clone(), value);
            i = i + 1;
        }
        assert(listed.take(names@.len() as int) =~= listed);
        Ok(Row::new(self, cells, id.to_owned()))
    }

    /// Reads every row that the index lists under the value `v` in the
    /// column `key`, in the order of the bucket's listing. The bucket must be
    /// there: a value that no row ever had is a failure.
    pub fn get<T: ToCell>(&self, disk: &Disk, key: &str, v: T) -> (r: Result<Vec<Row>, Error>)
        requires
            self.wf(),
            disk.wf(),
        ensures
            match r {
                Ok(rows) => bucket_rows(disk@, self@, key@, cell_text(v.cell())) == Ok::<
                    Seq<RowView>,
                    Error,
                >(rows_view(rows@)) && forall|i: int|
                    0 <= i < rows@.len() ==> (#[trigger] rows@[i]).wf(),
                Err(e) => bucket_rows(disk@, self@, key@, cell_text(v.cell())) == Err::<
                    Seq<RowView>,
                    Error,
                >(e),
            },
    {
        let text = stringify_col(v.to_cell());
        let bucket = bucket_dir_at(self.path(), key, text.as_str());
        let ids = match disk.read_dir(&bucket) {
            Ok(ids) => ids,
            Err(e) => {
                return Err(Error::Io(e));
            },
        };
        let ghost listed = path_of(ids@);
        let mut rows: Vec<Row> = Vec::new();
        let mut i: usize = 0;
        assert(listed.take(0) =~= Seq::<Seq<char>>::empty());
        assert(rows_view(rows@) =~= Seq::<RowView>::empty());
        while i < ids.len()
            invariant
                i <= ids@.len(),
                self.wf(),
                disk.wf(),
                listed == path_of(ids@),
                read_dir(disk@, bucket_dir(self@.path, key@, cell_text(v.cell()))) == Ok::<
                    Seq<Seq<char>>,
                    FsError,
                >(listed),
                rows_of(disk@, self@, listed.take(i as int)) == Ok::<Seq<RowView>, Error>(
                    rows_view(rows@),
                ),
                forall|j: int| 0 <= j < rows@.len() ==> (#[trigger] rows@[j]).wf(),
            decreases ids@.len() - i,
        {
            proof {
                lemma_rows_of_step(disk@, self@, listed, i as int);
            }
            let ghost before = rows_view(rows@);
            match self.row(disk, ids[i].as_str()) {
                Ok(row) => {
                    rows.push(row);
                    assert(rows_view(rows@) =~= before.push(row@));
                },
                Err(e) => {
                    return Err(e);
                },
            }
            i = i + 1;
        }
        assert(listed.take(ids@.len() as int) =~= listed);
        Ok(rows)
    }

    /// Reads the first row that the index lists under the value `v` in the
    /// column `key`. Returns `None` where the bucket is empty or not there.
    pub fn get_one<T: ToCell>(&self, disk: &Disk, key: &str, v: T) -> (r: Result<
        Option<Row>,
        Error,
    >)
        requires
            self.wf(),
            disk.wf(),
        ensures
            match r {
                Ok(Some(row)) => row.wf() && bucket_first(
                    disk@,
                    self@,
                    key@,
                    cell_text(v.cell()),
                ) == Ok::<Option<RowView>, Error>(Some(row@)),
                Ok(None) => bucket_first(disk@, self@, key@, cell_text(v.cell())) == Ok::<
                    Option<RowView>,
                    Error,
                >(None),
                Err(e) => bucket_first(disk@, self@, key@, cell_text(v.cell())) == Err::<
                    Option<RowView>,
                    Error,
                >(e),
            },
    {
        let text = stringify_col(v.to_cell());
        let bucket = bucket_dir_at(self.path(), key, text.as_str());
        let ids = match disk.read_dir(&bucket) {
            Ok(ids) => ids,
            Err(FsError::NotFound) => {
                return Ok(None);
            },
            Err(e) => {
                return Err(Error::Io(e));
            },
        };
        if ids.len() == 0 {
            return Ok(None);
        }
        match self.row(disk, ids[0].as_str()) {
            Ok(row) => Ok(Some(row)),
            Err(e) => Err(e),
        }
    }
}

/// Reading one row more: it joins those read before it, and its failure is
/// the failure of the whole.
pub proof fn lemma_rows_of_step(t: Tree, table: TableView, ids: Seq<Seq<char>>, i: int)
    requires
        0 <= i < ids.len(),
        rows_of(t, table, ids.take(i)) is Ok,
    ensures
        rows_of(t, table, ids.take(i + 1)) == match row_cells(t, table, ids[i]) {
            Ok(cells) => Ok::<Seq<RowView>, Error>(
                rows_of(t, table, ids.take(i))->Ok_0.push(RowView { id: ids[i], table, cells }),
            ),
            Err(e) => Err(e),
        },
        row_cells(t, table, ids[i]) is Err ==> rows_of(t, table, ids) == Err::<
            Seq<RowView>,
            Error,
        >(row_cells(t, table, ids[i])->Err_0),
{
    assert(ids.take(i + 1).drop_last() =~= ids.take(i));
    assert(ids.take(i + 1).last() == ids[i]);
    if row_cells(t, table, ids[i]) is Err {
        lemma_rows_of_fails(t, table, ids, i + 1);
    }
}

/// Where the rows of a prefix of the ids cannot be read, those of all the
/// ids fail in the same way.
pub proof fn lemma_rows_of_fails(t: Tree, table: TableView, ids: Seq<Seq<char>>, k: int)
    requires
        0 <= k <= ids.len(),
        rows_of(t, table, ids.take(k)) is Err,
    ensures
        rows_of(t, table, ids) == rows_of(t, table, ids.take(k)),
    decreases ids.len(),
{
    if k == ids.len() {
        assert(ids.take(k) =~= ids);
    } else {
        assert(ids.drop_last().take(k) =~= ids.take(k));
        lemma_rows_of_fails(t, table, ids.drop_last(), k);
    }
}

/// Reading one name more: its cell joins those read before it, and its
/// failure is the failure of the whole.
pub proof fn lemma_cells_of_step(
    t: Tree,
    schema: Schema,
    dir: Path,
    names: Seq<Seq<char>>,
    i: int,
)
    requires
        0 <= i < names.len(),
        cells_of(t, schema, dir, names.take(i)) is Ok,
    ensures
        cells_of(t, schema, dir, names.take(i + 1)) == match cell_at(t, schema, dir, names[i]) {
            Ok(cell) => Ok::<Cells, Error>(
                cells_of(t, schema, dir, names.take(i))->Ok_0.insert(names[i], cell),
            ),
            Err(e) => Err(e),
        },
        cell_at(t, schema, dir, names[i]) is Err ==> cells_of(t, schema, dir, names) == Err::<
            Cells,
            Error,
        >(cell_at(t, schema, dir, names[i])->Err_0),
{
    assert(names.take(i + 1).drop_last() =~= names.take(i));
    assert(names.take(i + 1).last() == names[i]);
    if cell_at(t, schema, dir, names[i]) is Err {
        lemma_cells_of_fails(t, schema, dir, names, i + 1);
    }
}

/// Where the cells of a prefix of the names cannot be read, those of all the
/// names fail in the same way.
pub proof fn lemma_cells_of_fails(
    t: Tree,
    schema: Schema,
    dir: Path,
    names: Seq<Seq<char>>,
    k: int,
)
    requires
        0 <= k <= names.len(),
        cells_of(t, schema, dir, names.take(k)) is Err,
    ensures
        cells_of(t, schema, dir, names) == cells_of(t, schema, dir, names.take(k)),
    decreases names.len(),
{
    if k == names.len() {
        assert(names.take(k) =~= names);
    } else {
        assert(names.drop_last().take(k) =~= names.take(k));
        lemma_cells_of_fails(t, schema, dir, names.drop_last(), k);
    }
}

/// Where every file of a row directory can be read, the row has one cell
/// for each of them.
pub proof fn lemma_cells_of_all(t: Tree, schema: Schema, dir: Path, names: Seq<Seq<char>>)
    requires
        forall|k: int| 0 <= k < names.len() ==> cell_at(t, schema, dir, #[trigger] names[k]) is Ok,
    ensures
        cells_of(t, schema, dir, names) == Ok::<Cells, Error>(
            Map::new(
                |n: Seq<char>| names.contains(n),
                |n: Seq<char>| cell_at(t, schema, dir, n)->Ok_0,
            ),
        ),
    decreases names.len(),
{
    let all = Map::new(
        |n: Seq<char>| names.contains(n),
        |n: Seq<char>| cell_at(t, schema, dir, n)->Ok_0,
    );
    if names.len() == 0 {
        assert(all =~= Map::<Seq<char>, Cell>::empty());
    } else {
        let head = names.drop_last();
        let last = names.last();
        assert forall|k: int| 0 <= k < head.len() implies cell_at(
            t,
            schema,
            dir,
            #[trigger] head[k],
        ) is Ok by {
            assert(head[k] == names[k]);
        }
        lemma_cells_of_all(t, schema, dir, head);
        let seen = Map::new(
            |n: Seq<char>| head.contains(n),
            |n: Seq<char>| cell_at(t, schema, dir, n)->Ok_0,
        );
        assert(cell_at(t, schema, dir, names[names.len() - 1]) is Ok);
        assert forall|n: Seq<char>| names.contains(n) <==> head.contains(n) || n == last by {
            if names.contains(n) {
                let k = choose|k: int| 0 <= k < names.len() && names[k] == n;
                if k < head.len() {
                    assert(head[k] == n);
                }
            }
            if head.contains(n) {
                let k = choose|k: int| 0 <= k < head.len() && head[k] == n;
                assert(names[k] == n);
            }
            assert(names[names.len() - 1] == last);
        }
        assert(all =~= seen.insert(last, cell_at(t, schema, dir, last)->Ok_0));
    }
}

/// Where the files of a row directory were read, each of them gave the cell
/// under its name.
pub proof fn lemma_cells_of_each(
    t: Tree,
    schema: Schema,
    dir: Path,
    names: Seq<Seq<char>>,
    n: Seq<char>,
)
    requires
        cells_of(t, schema, dir, names) is Ok,
        names.contains(n),
    ensures
        cell_at(t, schema, dir, n) is Ok,
        cells_of(t, schema, dir, names)->Ok_0.contains_key(n),
        cells_of(t, schema, dir, names)->Ok_0[n] == cell_at(t, schema, dir, n)->Ok_0,
    decreases names.len(),
{
    let k = choose|k: int| 0 <= k < names.len() && names[k] == n;
    if names.last() != n {
        assert(names.drop_last()[k] == n);
        lemma_cells_of_each(t, schema, dir, names.drop_last(), n);
    }
}

/// Where the rows of a list of ids were read, there is one row for each id,
/// in the same order, with the cells that the tree holds for it.
pub proof fn lemma_rows_of_each(t: Tree, table: TableView, ids: Seq<Seq<char>>, k: int)
    requires
        rows_of(t, table, ids) is Ok,
        0 <= k < ids.len(),
    ensures
        rows_of(t, table, ids)->Ok_0.len() == ids.len(),
        row_cells(t, table, ids[k]) is Ok,
        rows_of(t, table, ids)->Ok_0[k] == (RowView {
            id: ids[k],
            table,
            cells: row_cells(t, table, ids[k])->Ok_0,
        }),
    decreases ids.len(),
{
    lemma_rows_of_len(t, table, ids);
    lemma_rows_of_len(t, table, ids.drop_last());
    if k < ids.len() - 1 {
        assert(ids.drop_last()[k] == ids[k]);
        lemma_rows_of_each(t, table, ids.drop_last(), k);
    }
}

/// Where the rows of a list of ids were read, there are as many rows as ids.
pub proof fn lemma_rows_of_len(t: Tree, table: TableView, ids: Seq<Seq<char>>)
    requires
        rows_of(t, table, ids) is Ok,
    ensures
        rows_of(t, table, ids)->Ok_0.len() == ids.len(),
    decreases ids.len(),
{
    if ids.len() > 0 {
        lemma_rows_of_len(t, table, ids.drop_last());
    }
}

} // verus!
