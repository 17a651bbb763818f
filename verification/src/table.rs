//! A table: a schema bound to a directory, and the operations that keep the
//! rows and the index below it.

use crate::column::{cell_column, cell_text, stringify_col, Cell, ColumnValue};
use crate::decimal::digit_value;
use crate::disk::{path_of, Disk};
use crate::fields::Fields;
use crate::layout::{
    bucket_dir, bucket_dir_at, cell_file, cell_file_at, marker_file, marker_file_at, row_dir,
    row_dir_at,
};
use crate::plan::{actions, run, Action, FsOp};
use crate::schema::{Schema, TableSpec};
use crate::traits::ToCell;
use crate::tree::{FsError, Path};
use vstd::prelude::*;

verus! {

/// A table: its schema, its name, and the directory that holds it.
#[derive(Debug)]
pub struct Table {
    pub spec: TableSpec,
    name: String,
    path: Vec<String>,
}

/// A table as a mathematical value.
pub ghost struct TableView {
    pub spec: Schema,
    pub name: Seq<char>,
    pub path: Path,
}

impl View for Table {
    type V = TableView;

    closed spec fn view(&self) -> TableView {
        TableView { spec: self.spec@, name: self.name@, path: path_of(self.path@) }
    }
}

/// One of the sixteen digits of lower-case hexadecimal.
pub open spec fn is_hex_digit(c: char) -> bool {
    digit_value(c) is Some || c == 'a' || c == 'b' || c == 'c' || c == 'd' || c == 'e' || c
        == 'f'
}

/// The form of a row id: thirty-two hexadecimal digits in five groups of
/// eight, four, four, four and twelve, with a hyphen between the groups.
pub open spec fn is_row_id(id: Seq<char>) -> bool {
    &&& id.len() == 36
    &&& forall|i: int|
        0 <= i < 36 ==> if i == 8 || i == 13 || i == 18 || i == 23 {
            id[i] == '-'
        } else {
            is_hex_digit(#[trigger] id[i])
        }
}

/// A new row id, from `uuid::Uuid::new_v4` in its hyphenated form. The
/// digits are random; of the result only its form is known. The call needs
/// the system's source of randomness and does not return without it.
#[verifier::external_body]
fn fresh_id() -> (id: String)
    ensures
        is_row_id(id@),
{
    uuid::Uuid::new_v4().to_hyphenated().to_string()
}

/// Every cell belongs to a column of the schema.
pub open spec fn fields_known(schema: Schema, fields: Seq<(Seq<char>, Cell)>) -> bool {
    forall|i: int| 0 <= i < fields.len() ==> schema.contains_key((#[trigger] fields[i]).0)
}

/// What storing one cell of the row `id` takes. A cell whose value is not of
/// its column's type is left out.
pub open spec fn field_actions(
    base: Path,
    schema: Schema,
    id: Seq<char>,
    name: Seq<char>,
    cell: Cell,
) -> Seq<Action> {
    if schema.contains_key(name) && schema[name] == cell_column(cell) {
        seq![
            Action::CreateDirAll(row_dir(base, id)),
            Action::Write(cell_file(base, id, name), cell_text(cell)),
            Action::CreateDirAll(bucket_dir(base, name, cell_text(cell))),
            Action::Write(marker_file(base, name, cell_text(cell), id), Seq::empty()),
        ]
    } else {
        Seq::empty()
    }
}

/// What storing a row under the id `id` takes: the actions of its cells, in
/// the order of the cells.
pub open spec fn insert_actions(
    base: Path,
    schema: Schema,
    id: Seq<char>,
    fields: Seq<(Seq<char>, Cell)>,
) -> Seq<Action>
    decreases fields.len(),
{
    if fields.len() == 0 {
        Seq::empty()
    } else {
        insert_actions(base, schema, id, fields.drop_last()) + field_actions(
            base,
            schema,
            id,
            fields.last().0,
            fields.last().1,
        )
    }
}

/// What changing one cell of the row `id` takes: the cell's file takes the
/// new text, the row enters the bucket of the new text and leaves the bucket
/// of the old.
pub open spec fn set_cell_actions(
    base: Path,
    id: Seq<char>,
    column: Seq<char>,
    new_text: Seq<char>,
    old_text: Seq<char>,
) -> Seq<Action> {
    seq![
        Action::Write(cell_file(base, id, column), new_text),
        Action::CreateDirAll(bucket_dir(base, column, new_text)),
        Action::Write(marker_file(base, column, new_text, id), Seq::empty()),
        Action::RemoveFile(marker_file(base, column, old_text, id)),
    ]
}

impl Table {
    /// The invariant of a table: its schema is well formed.
    pub closed spec fn wf(&self) -> bool {
        self.spec.wf()
    }

    /// Binds a schema to the directory `path` under the name `name`.
    pub fn new(spec: TableSpec, name: String, path: Vec<String>) -> (r: Table)
        requires
            spec.wf(),
        ensures
            r.wf(),
            r@ == (TableView { spec: spec@, name: name@, path: path_of(path@) }),
    {
        Table { spec, name, path }
    }

    /// The table's schema.
    pub fn schema(&self) -> (r: &TableSpec)
        requires
            self.wf(),
        ensures
            r.wf(),
            r@ == self@.spec,
    {
        &self.spec
    }

    /// The table's name.
    pub fn name(&self) -> (r: &String)
        ensures
            r@ == self@.name,
    {
        &self.name
    }

    /// The directory that holds the table.
    pub fn path(&self) -> (r: &Vec<String>)
        ensures
            path_of(r@) == self@.path,
    {
        &self.path
    }

    /// Whether every cell of `fields` belongs to a column of the table.
    pub fn accepts(&self, fields: &Fields) -> (r: bool)
        requires
            self.wf(),
        ensures
            r == fields_known(self@.spec, fields.entries()),
    {
        let mut i: usize = 0;
        while i < fields.len()
            invariant
                i <= fields.entries().len(),
                self.wf(),
                forall|j: int|
                    0 <= j < i ==> self@.spec.contains_key((#[trigger] fields.entries()[j]).0),
            decreases fields.entries().len() - i,
        {
            if self.spec.get(fields.name_at(i).as_str()).is_none() {
                return false;
            }
            i = i + 1;
        }
        true
    }

    /// The plan that stores the cells of `fields` as the row `id`.
    pub fn insert_ops(&self, id: &str, fields: &Fields) -> (ops: Vec<FsOp>)
        requires
            self.wf(),
            fields_known(self@.spec, fields.entries()),
        ensures
            actions(ops@) == insert_actions(self@.path, self@.spec, id@, fields.entries()),
    {
        let mut ops: Vec<FsOp> = Vec::new();
        let mut i: usize = 0;
        assert(fields.entries().take(0) =~= Seq::<(Seq<char>, Cell)>::empty());
        assert(actions(ops@) =~= Seq::<Action>::empty());
        while i < fields.len()
            invariant
                i <= fields.entries().len(),
                self.wf(),
                actions(ops@) == insert_actions(
                    self@.path,
                    self@.spec,
                    id@,
                    fields.entries().take(i as int),
                ),
            decreases fields.entries().len() - i,
        {
            let name = fields.name_at(i);
            let value = fields.value_at(i);
            let ghost done = fields.entries().take(i as int);
            let ghost next = fields.entries().take(i + 1);
            let ghost before = actions(ops@);
            proof {
                assert(next.drop_last() =~= done);
                assert(next.last() == fields.entries()[i as int]);
            }
            let declared = self.spec.get(name.as_str());
            let fits = match declared {
                Some(column) => column == value.column(),
                None => false,
            };
            if fits {
                let text = stringify_col(value.clone());
                ops.push(FsOp::CreateDirAll(row_dir_at(&self.path, id)));
                ops.push(FsOp::Write(cell_file_at(&self.path, id, name.as_str()), text.clone()));
                ops.push(
                    FsOp::CreateDirAll(bucket_dir_at(&self.path, name.as_str(), text.as_str())),
                );
                ops.push(
                    FsOp::Write(
                        marker_file_at(&self.path, name.as_str(), text.as_str(), id),
                        String::new(),
                    ),
                );
            }
            assert(actions(ops@) =~= before + field_actions(
                self@.path,
                self@.spec,
                id@,
                name@,
                value@,
            ));
            i = i + 1;
        }
        assert(fields.entries().take(fields.entries().len() as int) =~= fields.entries());
        ops
    }

    /// The plan that gives the cell of the row `row` in `column` the text
    /// `new_text`, where its text was `old_text`.
    pub fn set_cell_ops(&self, row: &str, column: &str, new_text: &str, old_text: &str) -> (ops:
        Vec<FsOp>)
        ensures
            actions(ops@) == set_cell_actions(
                self@.path,
                row@,
                column@,
                new_text@,
                old_text@,
            ),
    {
        let mut ops: Vec<FsOp> = Vec::new();
        ops.push(FsOp::Write(cell_file_at(&self.path, row, column), new_text.to_owned()));
        ops.push(FsOp::CreateDirAll(bucket_dir_at(&self.path, column, new_text)));
        ops.push(FsOp::Write(marker_file_at(&self.path, column, new_text, row), String::new()));
        ops.push(FsOp::RemoveFile(marker_file_at(&self.path, column, old_text, row)));
        assert(actions(ops@) =~= set_cell_actions(
            self@.path,
            row@,
            column@,
            new_text@,
            old_text@,
        ));
        ops
    }

    /// Stores the cells of `fields` as the row `id`. A cell whose value is
    /// not of its column's type is left out. The first file operation that
    /// fails ends the call; what was written before it stays.
    pub fn insert_as(&self, disk: &mut Disk, id: &str, fields: &Fields) -> (r: Result<
        (),
        FsError,
    >)
        requires
            self.wf(),
            old(disk).wf(),
            fields_known(self@.spec, fields.entries()),
        ensures
            final(disk).wf(),
            run(
                old(disk)@,
                insert_actions(self@.path, self@.spec, id@, fields.entries()),
            ) == (
                final(disk)@,
                match r {
                    Ok(_) => None::<FsError>,
                    Err(e) => Some(e),
                },
            ),
    {
        let ops = self.insert_ops(id, fields);
        disk.run(&ops)
    }

    /// Makes a new row id at random, and the plan that stores the cells of
    /// `value` as the row of that id.
    pub fn insert_plan(&self, value: &Fields) -> (r: (String, Vec<FsOp>))
        requires
            self.wf(),
            fields_known(self@.spec, value.entries()),
        ensures
            is_row_id(r.0@),
            actions(r.1@) == insert_actions(self@.path, self@.spec, r.0@, value.entries()),
    {
        let id = fresh_id();
        let ops = self.insert_ops(id.as_str(), value);
        (id, ops)
    }

    /// Stores the cells of `value` as a new row and returns the row's id,
    /// which is made at random.
    pub fn insert(&self, disk: &mut Disk, value: Fields) -> (r: Result<String, FsError>)
        requires
            self.wf(),
            old(disk).wf(),
            fields_known(self@.spec, value.entries()),
        ensures
            final(disk).wf(),
            match r {
                Ok(id) => is_row_id(id@) && run(
                    old(disk)@,
                    insert_actions(self@.path, self@.spec, id@, value.entries()),
                ) == (final(disk)@, None::<FsError>),
                Err(e) => exists|id: Seq<char>|
                    is_row_id(id) && #[trigger] run(
                        old(disk)@,
                        insert_actions(self@.path, self@.spec, id, value.entries()),
                    ) == (final(disk)@, Some(e)),
            },
    {
        let (id, ops) = self.insert_plan(&value);
        match disk.run(&ops) {
            Ok(_) => Ok(id),
            Err(e) => Err(e),
        }
    }

    /// Gives the cell of the row `row` in `col` the value `val`, and moves
    /// the row from the index bucket of `old_val` to that of `val`. The
    /// first file operation that fails ends the call; what was written
    /// before it stays.
    pub fn set_cell<T: ToCell>(
        &self,
        disk: &mut Disk,
        row: String,
        col: String,
        val: T,
        old_val: ColumnValue,
    ) -> (r: Result<(), FsError>)
        requires
            old(disk).wf(),
        ensures
            final(disk).wf(),
            run(
                old(disk)@,
                set_cell_actions(
                    self@.path,
                    row@,
                    col@,
                    cell_text(val.cell()),
                    cell_text(old_val@),
                ),
            ) == (
                final(disk)@,
                match r {
                    Ok(_) => None::<FsError>,
                    Err(e) => Some(e),
                },
            ),
    {
        let new_text = stringify_col(val.to_cell());
        let old_text = stringify_col(old_val);
        let ops = self.set_cell_ops(
            row.as_str(),
            col.as_str(),
            new_text.as_str(),
            old_text.as_str(),
        );
        disk.run(&ops)
    }
}

impl Clone for Table {
    fn clone(&self) -> (r: Self)
        ensures
            r@ == self@,
            self.wf() ==> r.wf(),
    {
        let path = crate::disk::path_prefix(&self.path, self.path.len());
        assert(path_of(self.path@).take(self.path@.len() as int) =~= path_of(self.path@));
        Table { spec: self.spec.clone(), name: self.name.clone(), path }
    }
}

} // verus!
