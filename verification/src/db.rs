//! A database: a directory that holds tables, and the opening of a table
//! against its stored schema.

use crate::assoc::to_map;
use crate::column::{column_of_tag, tag_text, Column};
use crate::disk::{path_join, path_of, Disk};
use crate::error::Error;
use crate::layout::{
    column_dir, column_dir_at, data_dir, data_dir_at, index_dir, index_dir_at, spec_dir,
    spec_dir_at, spec_file, spec_file_at,
};
use crate::plan::{actions, run, Action, FsOp};
use crate::schema::{Schema, TableSpec};
use crate::table::{Table, TableView};
use crate::tree::{create_dir, present, read_dir, read_to_string, FsError, Path, Tree};
use vstd::prelude::*;

verus! {

/// A database: the directory that holds its tables.
#[derive(Debug)]
pub struct Db {
    path: String,
}

impl View for Db {
    type V = Seq<char>;

    closed spec fn view(&self) -> Seq<char> {
        self.path@
    }
}

/// The directory of a database.
pub open spec fn root_dir(root: Seq<char>) -> Path {
    seq![root]
}

/// The directory of the table `name` of a database.
pub open spec fn table_dir(root: Seq<char>, name: Seq<char>) -> Path {
    root_dir(root).push(name)
}

/// Opening a database: its directory is created if nothing stands there.
pub open spec fn open_root(t: Tree, root: Seq<char>) -> (Tree, Option<FsError>) {
    if present(t, root_dir(root)) {
        (t, None)
    } else {
        match create_dir(t, root_dir(root)) {
            Ok(u) => (u, None),
            Err(e) => (t, Some(e)),
        }
    }
}

/// What declaring columns in a new table takes: for each column its tag
/// file, then its index directory.
pub open spec fn column_actions(base: Path, columns: Seq<(Seq<char>, Column)>) -> Seq<Action>
    decreases columns.len(),
{
    if columns.len() == 0 {
        Seq::empty()
    } else {
        column_actions(base, columns.drop_last()) + seq![
            Action::Write(spec_file(base, columns.last().0), tag_text(columns.last().1)),
            Action::CreateDir(column_dir(base, columns.last().0)),
        ]
    }
}

/// What creating a table takes: its directory, in it the directories of the
/// schema, the index and the rows, then what its columns take.
pub open spec fn create_actions(base: Path, columns: Seq<(Seq<char>, Column)>) -> Seq<Action> {
    seq![
        Action::CreateDir(base),
        Action::CreateDir(spec_dir(base)),
        Action::CreateDir(index_dir(base)),
        Action::CreateDir(data_dir(base)),
    ] + column_actions(base, columns)
}

/// The column type that the tag file `name` of the schema directory `dir`
/// holds.
pub open spec fn column_at(t: Tree, dir: Path, name: Seq<char>) -> Result<Column, Error> {
    match read_to_string(t, dir.push(name)) {
        Err(e) => Err(Error::Io(e)),
        Ok(text) => match column_of_tag(text) {
            Some(column) => Ok(column),
            None => Err(Error::BadTag),
        },
    }
}

/// The schema that the tag files `names` of the schema directory `dir` hold,
/// or the failure of the first of them that cannot be read.
pub open spec fn tags_of(t: Tree, dir: Path, names: Seq<Seq<char>>) -> Result<Schema, Error>
    decreases names.len(),
{
    if names.len() == 0 {
        Ok(Map::empty())
    } else {
        match tags_of(t, dir, names.drop_last()) {
            Err(e) => Err(e),
            Ok(schema) => match column_at(t, dir, names.last()) {
                Err(e) => Err(e),
                Ok(column) => Ok(schema.insert(names.last(), column)),
            },
        }
    }
}

/// The schema of the table at `base` as the tree holds it.
pub open spec fn stored_schema(t: Tree, base: Path) -> Result<Schema, Error> {
    match read_dir(t, spec_dir(base)) {
        Err(e) => Err(Error::Io(e)),
        Ok(names) => tags_of(t, spec_dir(base), names),
    }
}

/// Opening the table `name` with the declared columns `declared`. Where
/// nothing stands at the table's directory, the table is created. Where
/// something stands there, the stored schema is read and must equal the
/// declared one; the tree stays as it is.
pub open spec fn open_table(
    t: Tree,
    root: Seq<char>,
    name: Seq<char>,
    declared: Seq<(Seq<char>, Column)>,
) -> (Tree, Result<TableView, Error>) {
    let base = table_dir(root, name);
    if !present(t, base) {
        let done = run(t, create_actions(base, declared));
        match done.1 {
            None => (done.0, Ok(TableView { spec: to_map(declared), name, path: base })),
            Some(e) => (done.0, Err(Error::Io(e))),
        }
    } else {
        match stored_schema(t, base) {
            Err(e) => (t, Err(e)),
            Ok(found) => if found == to_map(declared) {
                (t, Ok(TableView { spec: found, name, path: base }))
            } else {
                (t, Err(Error::SchemaMismatch))
            },
        }
    }
}

/// Where the tags of a prefix of the names cannot be read, those of all the
/// names fail in the same way.
pub proof fn lemma_tags_of_fails(t: Tree, dir: Path, names: Seq<Seq<char>>, k: int)
    requires
        0 <= k <= names.len(),
        tags_of(t, dir, names.take(k)) is Err,
    ensures
        tags_of(t, dir, names) == tags_of(t, dir, names.take(k)),
    decreases names.len(),
{
    if k == names.len() {
        assert(names.take(k) =~= names);
    } else {
        assert(names.drop_last().take(k) =~= names.take(k));
        lemma_tags_of_fails(t, dir, names.drop_last(), k);
    }
}

/// Reading one tag more: its column joins those read before it, and its
/// failure is the failure of the whole.
pub proof fn lemma_tags_of_step(t: Tree, dir: Path, names: Seq<Seq<char>>, i: int)
    requires
        0 <= i < names.len(),
        tags_of(t, dir, names.take(i)) is Ok,
    ensures
        tags_of(t, dir, names.take(i + 1)) == match column_at(t, dir, names[i]) {
            Ok(column) => Ok::<Schema, Error>(
                tags_of(t, dir, names.take(i))->Ok_0.insert(names[i], column),
            ),
            Err(e) => Err(e),
        },
        column_at(t, dir, names[i]) is Err ==> tags_of(t, dir, names) == Err::<Schema, Error>(
            column_at(t, dir, names[i])->Err_0,
        ),
{
    assert(names.take(i + 1).drop_last() =~= names.take(i));
    assert(names.take(i + 1).last() == names[i]);
    if column_at(t, dir, names[i]) is Err {
        lemma_tags_of_fails(t, dir, names, i + 1);
    }
}

/// Where every tag file of a schema directory can be read, the schema has
/// one column for each of them.
pub proof fn lemma_tags_of_all(t: Tree, dir: Path, names: Seq<Seq<char>>)
    requires
        forall|k: int| 0 <= k < names.len() ==> column_at(t, dir, #[trigger] names[k]) is Ok,
    ensures
        tags_of(t, dir, names) == Ok::<Schema, Error>(
            Map::new(|n: Seq<char>| names.contains(n), |n: Seq<char>| column_at(t, dir, n)->Ok_0),
        ),
    decreases names.len(),
{
    let all = Map::new(
        |n: Seq<char>| names.contains(n),
        |n: Seq<char>| column_at(t, dir, n)->Ok_0,
    );
    if names.len() == 0 {
        assert(all =~= Map::<Seq<char>, Column>::empty());
    } else {
        let head = names.drop_last();
        let last = names.last();
        assert forall|k: int| 0 <= k < head.len() implies column_at(
            t,
            dir,
            #[trigger] head[k],
        ) is Ok by {
            assert(head[k] == names[k]);
        }
        lemma_tags_of_all(t, dir, head);
        let seen = Map::new(
            |n: Seq<char>| head.contains(n),
            |n: Seq<char>| column_at(t, dir, n)->Ok_0,
        );
        assert(column_at(t, dir, names[names.len() - 1]) is Ok);
        assert forall|n: Seq<char>| names.contains(n) <==> head.contains(n) || n == last by {
            if names.contains(n) {
                let k = choose|k: int| 0 <= k < names.len() && names[k] == n;
                if k < head.len() {
                    assert(head[k] == n);
                }
            }
            if head.contains(n) {
                let k = choose|k: int| 0 <= k < head.len() && head[k] == n;
                assert(names[k] == n);
            }
            assert(names[names.len() - 1] == last);
        }
        assert(all =~= seen.insert(last, column_at(t, dir, last)->Ok_0));
    }
}

impl Db {
    /// Opens the database in the directory `path`, creating the directory
    /// if nothing stands there.
    pub fn new(disk: &mut Disk, path: &str) -> (r: Result<Db, FsError>)
        requires
            old(disk).wf(),
        ensures
            final(disk).wf(),
            open_root(old(disk)@, path@) == (
                final(disk)@,
                match r {
                    Ok(_) => None::<FsError>,
                    Err(e) => Some(e),
                },
            ),
            r matches Ok(db) ==> db@ == path@,
    {
        let mut root: Vec<String> = Vec::new();
        root.push(path.to_owned());
        assert(path_of(root@) =~= root_dir(path@));
        if disk.is_present(&root) {
            Ok(Db { path: path.to_owned() })
        } else {
            match disk.create_dir(&root) {
                Ok(_) => Ok(Db { path: path.to_owned() }),
                Err(e) => Err(e),
            }
        }
    }

    /// The directory of the table `name`.
    pub fn table_path(&self, name: &str) -> (r: Vec<String>)
        ensures
            path_of(r@) == table_dir(self@, name@),
    {
        let mut root: Vec<String> = Vec::new();
        root.push(self.path.clone());
        assert(path_of(root@) =~= root_dir(self@));
        path_join(&root, name)
    }

    /// The plan that creates a table with the columns of `spec` in the
    /// directory `base`.
    pub fn create_ops(base: &Vec<String>, spec: &TableSpec) -> (ops: Vec<FsOp>)
        ensures
            actions(ops@) == create_actions(path_of(base@), spec.entries()),
    {
        let mut ops: Vec<FsOp> = Vec::new();
        ops.push(FsOp::CreateDir(crate::disk::path_prefix(base, base.len())));
        ops.push(FsOp::CreateDir(spec_dir_at(base)));
        ops.push(FsOp::CreateDir(index_dir_at(base)));
        ops.push(FsOp::CreateDir(data_dir_at(base)));
        let ghost head = actions(ops@);
        let ghost columns = spec.entries();
        proof {
            assert(path_of(base@).take(base@.len() as int) =~= path_of(base@));
            assert(columns.take(0) =~= Seq::<(Seq<char>, Column)>::empty());
            assert(actions(ops@) =~= head + column_actions(path_of(base@), columns.take(0)));
        }
        let mut i: usize = 0;
        while i < spec.len()
            invariant
                i <= columns.len(),
                columns == spec.entries(),
                actions(ops@) == head + column_actions(path_of(base@), columns.take(i as int)),
            decreases columns.len() - i,
        {
            let name = spec.name_at(i);
            let column = spec.column_at(i);
            let ghost before = actions(ops@);
            proof {
                assert(columns.take(i + 1).drop_last() =~= columns.take(i as int));
                assert(columns.take(i + 1).last() == columns[i as int]);
            }
            ops.push(FsOp::Write(spec_file_at(base, name.as_str()), column.tag().to_owned()));
            ops.push(FsOp::CreateDir(column_dir_at(base, name.as_str())));
            assert(actions(ops@) =~= before + seq![
                Action::Write(spec_file(path_of(base@), name@), tag_text(column)),
                Action::CreateDir(column_dir(path_of(base@), name@)),
            ]);
            assert(actions(ops@) =~= head + column_actions(path_of(base@), columns.take(i + 1)));
            i = i + 1;
        }
        assert(columns.take(columns.len() as int) =~= columns);
        ops
    }

    /// Reads the stored schema of the table `table`: every file of its
    /// schema directory names a column and holds the column's type tag.
    pub fn spec(&self, disk: &Disk, table: &str) -> (r: Result<TableSpec, Error>)
        requires
            disk.wf(),
        ensures
            match r {
                Ok(spec) => spec.wf() && stored_schema(disk@, table_dir(self@, table@)) == Ok::<
                    Schema,
                    Error,
                >(spec@),
                Err(e) => stored_schema(disk@, table_dir(self@, table@)) == Err::<Schema, Error>(
                    e,
                ),
            },
    {
        let base = self.table_path(table);
        let dir = spec_dir_at(&base);
        let names = match disk.read_dir(&dir) {
            Ok(names) => names,
            Err(e) => {
                return Err(Error::Io(e));
            },
        };
        let ghost listed = path_of(names@);
        let mut spec = TableSpec::new();
        let mut i: usize = 0;
        assert(listed.take(0) =~= Seq::<Seq<char>>::empty());
        while i < names.len()
            invariant
                i <= names@.len(),
                disk.wf(),
                spec.wf(),
                listed == path_of(names@),
                path_of(dir@) == spec_dir(table_dir(self@, table@)),
                read_dir(disk@, path_of(dir@)) == Ok::<Seq<Seq<char>>, FsError>(listed),
                tags_of(disk@, path_of(dir@), listed.take(i as int)) == Ok::<Schema, Error>(
                    spec@,
                ),
            decreases names@.len() - i,
        {
            let name = &names[i];
            proof {
                lemma_tags_of_step(disk@, path_of(dir@), listed, i as int);
            }
            let file = path_join(&dir, name.as_str());
            let text = match disk.read_to_string(&file) {
                Ok(text) => text,
                Err(e) => {
                    return Err(Error::Io(e));
                },
            };
            let column = match Column::from_tag(text.as_str()) {
                Some(column) => column,
                None => {
                    return Err(Error::BadTag);
                },
            };
            spec.insert(name.clone(), column);
            i = i + 1;
        }
        assert(listed.take(names@.len() as int) =~= listed);
        Ok(spec)
    }

    /// Opens the table `name` with the schema `tablespec`. A table that is
    /// not there is created. A table that is there is opened if its stored
    /// schema equals `tablespec`, and refused otherwise; either way the disk
    /// stays as it is.
    pub fn table(&self, disk: &mut Disk, name: &str, tablespec: TableSpec) -> (r: Result<
        Table,
        Error,
    >)
        requires
            old(disk).wf(),
            tablespec.wf(),
        ensures
            final(disk).wf(),
            open_table(old(disk)@, self@, name@, tablespec.entries()) == (
                final(disk)@,
                match r {
                    Ok(table) => Ok::<TableView, Error>(table@),
                    Err(e) => Err(e),
                },
            ),
            r matches Ok(table) ==> table.wf(),
    {
        let base = self.table_path(name);
        if !disk.is_present(&base) {
            let ops = Db::create_ops(&base, &tablespec);
            match disk.run(&ops) {
                Ok(_) => Ok(Table::new(tablespec, name.to_owned(), base)),
                Err(e) => Err(Error::Io(e)),
            }
        } else {
            let found = match self.spec(disk, name) {
                Ok(found) => found,
                Err(e) => {
                    return Err(e);
                },
            };
            if found.same_as(&tablespec) {
                Ok(Table::new(found, name.to_owned(), base))
            } else {
                Err(Error::SchemaMismatch)
            }
        }
    }
}

} // verus!
