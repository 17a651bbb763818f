use kiln::db::Db as Database;
use kiln::{Column, ColumnValue, Db, Disk, Error, Fields, FsError, FsOp, Row, Table, TableSpec, ToCell};

fn path(names: &[&str]) -> Vec<String> {
    names.iter().map(|n| n.to_string()).collect()
}

fn users_spec() -> TableSpec {
    let mut spec = TableSpec::new();
    spec.insert("age".to_string(), Column::I32);
    spec.insert("name".to_string(), Column::Str);
    spec
}

fn person(name: &str, age: i32) -> Fields {
    let mut fields = Fields::new();
    fields.insert("name".to_string(), name.to_cell());
    fields.insert("age".to_string(), age.to_cell());
    fields
}

fn open_users(disk: &mut Disk) -> Table {
    let db = Db::new(disk, "data").unwrap();
    db.table(disk, "users", users_spec()).unwrap()
}

fn ids_of(rows: &[Row]) -> Vec<String> {
    let mut ids: Vec<String> = rows.iter().map(|r| r.id().clone()).collect();
    ids.sort();
    ids
}

#[test]
fn opening_a_database_creates_its_directory_once() {
    let mut disk = Disk::new();
    assert!(!disk.is_present(&path(&["data"])));
    Db::new(&mut disk, "data").unwrap();
    assert!(disk.is_present(&path(&["data"])));
    assert_eq!(disk.read_dir(&path(&["data"])), Ok(vec![]));
    disk.create_dir(&path(&["data", "kept"])).unwrap();
    Db::new(&mut disk, "data").unwrap();
    assert_eq!(disk.read_dir(&path(&["data"])), Ok(vec!["kept".to_string()]));
    assert_eq!(disk.read_dir(&path(&[])), Ok(vec!["data".to_string()]));
}

#[test]
fn creating_a_table_lays_out_its_directories() {
    let mut disk = Disk::new();
    open_users(&mut disk);
    assert_eq!(
        disk.read_dir(&path(&["data", "users"])),
        Ok(vec!["_spec".to_string(), "_index".to_string(), "_data".to_string()])
    );
    assert_eq!(
        disk.read_dir(&path(&["data", "users", "_spec"])),
        Ok(vec!["age".to_string(), "name".to_string()])
    );
    assert_eq!(disk.read_to_string(&path(&["data", "users", "_spec", "age"])), Ok("i32".to_string()));
    assert_eq!(disk.read_to_string(&path(&["data", "users", "_spec", "name"])), Ok("str".to_string()));
    assert_eq!(
        disk.read_dir(&path(&["data", "users", "_index"])),
        Ok(vec!["age".to_string(), "name".to_string()])
    );
    assert_eq!(disk.read_dir(&path(&["data", "users", "_index", "age"])), Ok(vec![]));
    assert_eq!(disk.read_dir(&path(&["data", "users", "_data"])), Ok(vec![]));
}

#[test]
fn the_plan_of_a_new_table() {
    let mut spec = TableSpec::new();
    spec.insert("raw".to_string(), Column::Byte);
    spec.insert("text".to_string(), Column::LongStr);
    let ops = Database::create_ops(&path(&["data", "t"]), &spec);
    assert_eq!(
        ops,
        vec![
            FsOp::CreateDir(path(&["data", "t"])),
            FsOp::CreateDir(path(&["data", "t", "_spec"])),
            FsOp::CreateDir(path(&["data", "t", "_index"])),
            FsOp::CreateDir(path(&["data", "t", "_data"])),
            FsOp::Write(path(&["data", "t", "_spec", "raw"]), "byte".to_string()),
            FsOp::CreateDir(path(&["data", "t", "_index", "raw"])),
            FsOp::Write(path(&["data", "t", "_spec", "text"]), "longstr".to_string()),
            FsOp::CreateDir(path(&["data", "t", "_index", "text"])),
        ]
    );
}

#[test]
fn a_table_knows_its_name_path_and_schema() {
    let mut disk = Disk::new();
    let users = open_users(&mut disk);
    assert_eq!(users.name(), "users");
    assert_eq!(users.path(), &path(&["data", "users"]));
    assert!(users.schema().same_as(&users_spec()));
    assert!(users.spec.same_as(&users_spec()));
    let copy = users.clone();
    assert_eq!(copy.name(), "users");
    assert_eq!(copy.path(), &path(&["data", "users"]));
    assert!(copy.schema().same_as(&users_spec()));
}

#[test]
fn opening_a_table_again_with_the_same_schema_gives_the_stored_one() {
    let mut disk = Disk::new();
    let db = Db::new(&mut disk, "data").unwrap();
    db.table(&mut disk, "users", users_spec()).unwrap();
    let mut reordered = TableSpec::new();
    reordered.insert("name".to_string(), Column::Str);
    reordered.insert("age".to_string(), Column::I32);
    let again = db.table(&mut disk, "users", reordered).unwrap();
    assert!(again.schema().same_as(&users_spec()));
    assert_eq!(again.schema().name_at(0), "age");
    assert!(db.spec(&disk, "users").unwrap().same_as(&users_spec()));
}

#[test]
fn opening_a_table_again_with_another_schema_fails_and_changes_nothing() {
    let mut disk = Disk::new();
    let db = Db::new(&mut disk, "data").unwrap();
    db.table(&mut disk, "users", users_spec()).unwrap();

    let mut other_type = TableSpec::new();
    other_type.insert("age".to_string(), Column::Str);
    other_type.insert("name".to_string(), Column::Str);
    assert_eq!(db.table(&mut disk, "users", other_type).err(), Some(Error::SchemaMismatch));

    let mut other_set = users_spec();
    other_set.insert("email".to_string(), Column::Str);
    assert_eq!(db.table(&mut disk, "users", other_set).err(), Some(Error::SchemaMismatch));

    let mut fewer = TableSpec::new();
    fewer.insert("age".to_string(), Column::I32);
    assert_eq!(db.table(&mut disk, "users", fewer).err(), Some(Error::SchemaMismatch));

    assert_eq!(
        disk.read_dir(&path(&["data", "users", "_spec"])),
        Ok(vec!["age".to_string(), "name".to_string()])
    );
    assert_eq!(disk.read_to_string(&path(&["data", "users", "_spec", "age"])), Ok("i32".to_string()));
    assert_eq!(
        disk.read_dir(&path(&["data", "users", "_index"])),
        Ok(vec!["age".to_string(), "name".to_string()])
    );
    assert!(db.table(&mut disk, "users", users_spec()).is_ok());
}

#[test]
fn a_stored_schema_with_an_unknown_tag_cannot_be_opened() {
    let mut disk = Disk::new();
    let db = Db::new(&mut disk, "data").unwrap();
    db.table(&mut disk, "users", users_spec()).unwrap();
    disk.write_file(&path(&["data", "users", "_spec", "age"]), "block").unwrap();
    assert_eq!(db.spec(&disk, "users").err(), Some(Error::BadTag));
    assert_eq!(db.table(&mut disk, "users", users_spec()).err(), Some(Error::BadTag));
}

#[test]
fn a_stored_schema_that_cannot_be_read_is_a_failure() {
    let mut disk = Disk::new();
    let db = Db::new(&mut disk, "data").unwrap();
    assert_eq!(db.spec(&disk, "users").err(), Some(Error::Io(FsError::NotFound)));
    disk.create_dir(&path(&["data", "users"])).unwrap();
    assert_eq!(
        db.table(&mut disk, "users", users_spec()).err(),
        Some(Error::Io(FsError::NotFound))
    );
    disk.create_dir(&path(&["data", "users", "_spec"])).unwrap();
    disk.create_dir(&path(&["data", "users", "_spec", "age"])).unwrap();
    assert_eq!(db.spec(&disk, "users").err(), Some(Error::Io(FsError::IsADirectory)));
}

#[test]
fn creating_a_table_without_its_database_fails() {
    let mut disk = Disk::new();
    let db = Db::new(&mut disk, "data").unwrap();
    let mut elsewhere = Disk::new();
    assert_eq!(
        db.table(&mut elsewhere, "users", users_spec()).err(),
        Some(Error::Io(FsError::NotFound))
    );
    assert!(!elsewhere.is_present(&path(&["data"])));
}

#[test]
fn a_row_id_is_a_hyphenated_uuid() {
    let mut disk = Disk::new();
    let users = open_users(&mut disk);
    let id = users.insert(&mut disk, person("Bob", 24)).unwrap();
    let chars: Vec<char> = id.chars().collect();
    assert_eq!(chars.len(), 36);
    for (i, c) in chars.iter().enumerate() {
        if i == 8 || i == 13 || i == 18 || i == 23 {
            assert_eq!(*c, '-');
        } else {
            assert!(c.is_ascii_digit() || ('a'..='f').contains(c), "{:?} at {}", c, i);
        }
    }
    let other = users.insert(&mut disk, person("Bob", 24)).unwrap();
    assert_ne!(id, other);
}

#[test]
fn insert_writes_cells_and_markers() {
    let mut disk = Disk::new();
    let users = open_users(&mut disk);
    let id = users.insert(&mut disk, person("Bob", 24)).unwrap();
    assert_eq!(disk.read_dir(&path(&["data", "users", "_data"])), Ok(vec![id.clone()]));
    assert_eq!(
        disk.read_dir(&path(&["data", "users", "_data", &id])),
        Ok(vec!["name".to_string(), "age".to_string()])
    );
    assert_eq!(disk.read_to_string(&path(&["data", "users", "_data", &id, "age"])), Ok("24".to_string()));
    assert_eq!(disk.read_to_string(&path(&["data", "users", "_data", &id, "name"])), Ok("Bob".to_string()));
    assert_eq!(disk.read_dir(&path(&["data", "users", "_index", "age", "24"])), Ok(vec![id.clone()]));
    assert_eq!(disk.read_dir(&path(&["data", "users", "_index", "name", "Bob"])), Ok(vec![id.clone()]));
    assert_eq!(
        disk.read_to_string(&path(&["data", "users", "_index", "age", "24", &id])),
        Ok(String::new())
    );
}

#[test]
fn the_plan_of_an_insert() {
    let mut disk = Disk::new();
    let users = open_users(&mut disk);
    let mut fields = Fields::new();
    fields.insert("age".to_string(), 24.to_cell());
    fields.insert("name".to_string(), 7.to_cell());
    let ops = users.insert_ops("row-1", &fields);
    assert_eq!(
        ops,
        vec![
            FsOp::CreateDirAll(path(&["data", "users", "_data", "row-1"])),
            FsOp::Write(path(&["data", "users", "_data", "row-1", "age"]), "24".to_string()),
            FsOp::CreateDirAll(path(&["data", "users", "_index", "age", "24"])),
            FsOp::Write(path(&["data", "users", "_index", "age", "24", "row-1"]), String::new()),
        ]
    );
    assert_eq!(users.insert_ops("row-1", &Fields::new()), vec![]);
}

#[test]
fn row_returns_exactly_the_cells_that_fit() {
    let mut disk = Disk::new();
    let users = open_users(&mut disk);
    let mut fields = Fields::new();
    fields.insert("name".to_string(), "Bob".to_cell());
    fields.insert("age".to_string(), "twenty".to_cell());
    let id = users.insert(&mut disk, fields).unwrap();
    let row = users.row(&disk, &id).unwrap();
    assert_eq!(row.id(), &id);
    assert_eq!(row.get("name").string(), Some("Bob".to_string()));
    assert!(row.find("age").is_none());
    assert_eq!(disk.read_dir(&path(&["data", "users", "_index", "age"])), Ok(vec![]));

    let id = users.insert(&mut disk, person("Jeff", 30)).unwrap();
    let row = users.row(&disk, &id).unwrap();
    assert_eq!(row.get("name").string(), Some("Jeff".to_string()));
    assert_eq!(row.get("age").i32(), Some(30));
    assert!(row.find("email").is_none());
}

#[test]
fn a_row_without_a_fitting_cell_leaves_nothing_to_read() {
    let mut disk = Disk::new();
    let users = open_users(&mut disk);
    let mut fields = Fields::new();
    fields.insert("age".to_string(), "twenty".to_cell());
    let id = users.insert(&mut disk, fields).unwrap();
    assert_eq!(users.row(&disk, &id).err(), Some(Error::Io(FsError::NotFound)));
    let id = users.insert(&mut disk, Fields::new()).unwrap();
    assert_eq!(users.row(&disk, &id).err(), Some(Error::Io(FsError::NotFound)));
    assert_eq!(disk.read_dir(&path(&["data", "users", "_data"])), Ok(vec![]));
}

#[test]
fn row_read_twice_is_the_same() {
    let mut disk = Disk::new();
    let users = open_users(&mut disk);
    let id = users.insert(&mut disk, person("Bob", 24)).unwrap();
    let first = users.row(&disk, &id).unwrap();
    let second = users.row(&disk, &id).unwrap();
    assert_eq!(first.id(), second.id());
    assert_eq!(first.get("age").i32(), second.get("age").i32());
    assert_eq!(first.get("name").string(), second.get("name").string());
    assert_eq!(first.find("email").is_none(), second.find("email").is_none());
}

#[test]
fn insert_as_stores_under_the_given_id() {
    let mut disk = Disk::new();
    let users = open_users(&mut disk);
    assert_eq!(users.insert_as(&mut disk, "row-1", &person("Bob", 24)), Ok(()));
    let row = users.row(&disk, "row-1").unwrap();
    assert_eq!(row.id(), "row-1");
    assert_eq!(row.get("age").i32(), Some(24));
    let found = users.get_one(&disk, "age", 24).unwrap().unwrap();
    assert_eq!(found.id(), "row-1");
}

#[test]
fn insert_creates_the_directories_that_it_needs() {
    let mut disk = Disk::new();
    let users = open_users(&mut disk);
    let mut elsewhere = Disk::new();
    assert_eq!(users.insert_as(&mut elsewhere, "row-1", &person("Bob", 24)), Ok(()));
    assert_eq!(
        elsewhere.read_dir(&path(&["data", "users"])),
        Ok(vec!["_data".to_string(), "_index".to_string()])
    );
    assert_eq!(users.row(&elsewhere, "row-1").unwrap().get("age").i32(), Some(24));
}

#[test]
fn insert_fails_where_a_file_is_in_the_way() {
    let mut disk = Disk::new();
    let users = open_users(&mut disk);
    let mut elsewhere = Disk::new();
    elsewhere.create_dir_all(&path(&["data", "users"])).unwrap();
    elsewhere.write_file(&path(&["data", "users", "_index"]), "").unwrap();
    assert_eq!(
        users.insert_as(&mut elsewhere, "row-1", &person("Bob", 24)),
        Err(FsError::NotADirectory)
    );
    assert_eq!(
        elsewhere.read_to_string(&path(&["data", "users", "_data", "row-1", "name"])),
        Ok("Bob".to_string())
    );
}

#[test]
fn a_row_file_named_after_no_column_is_a_failure() {
    let mut disk = Disk::new();
    let users = open_users(&mut disk);
    let id = users.insert(&mut disk, person("Bob", 24)).unwrap();
    disk.write_file(&path(&["data", "users", "_data", &id, "email"]), "b@x").unwrap();
    assert_eq!(users.row(&disk, &id).err(), Some(Error::UnknownColumn));
    assert_eq!(users.get(&disk, "age", 24).err(), Some(Error::UnknownColumn));
    assert_eq!(users.get_one(&disk, "age", 24).err(), Some(Error::UnknownColumn));
}

#[test]
fn a_cell_that_is_no_number_is_a_failure() {
    let mut disk = Disk::new();
    let users = open_users(&mut disk);
    let id = users.insert(&mut disk, person("Bob", 24)).unwrap();
    disk.write_file(&path(&["data", "users", "_data", &id, "age"]), "young").unwrap();
    assert_eq!(users.row(&disk, &id).err(), Some(Error::BadCell));
    assert_eq!(users.get(&disk, "name", "Bob").err(), Some(Error::BadCell));
}

#[test]
fn a_row_that_is_not_there_is_a_failure() {
    let mut disk = Disk::new();
    let users = open_users(&mut disk);
    assert_eq!(users.row(&disk, "missing").err(), Some(Error::Io(FsError::NotFound)));
    disk.create_dir(&path(&["data", "users", "_data", "odd"])).unwrap();
    disk.create_dir(&path(&["data", "users", "_data", "odd", "age"])).unwrap();
    assert_eq!(users.row(&disk, "odd").err(), Some(Error::Io(FsError::IsADirectory)));
}

#[test]
fn read_cell_reads_one_file_of_a_row() {
    let mut disk = Disk::new();
    let users = open_users(&mut disk);
    users.insert_as(&mut disk, "row-1", &person("Bob", 24)).unwrap();
    let dir = path(&["data", "users", "_data", "row-1"]);
    assert_eq!(users.read_cell(&disk, &dir, "age").unwrap().i32(), Some(24));
    assert_eq!(users.read_cell(&disk, &dir, "name").unwrap().string(), Some("Bob".to_string()));
    assert_eq!(users.read_cell(&disk, &dir, "email").err(), Some(Error::Io(FsError::NotFound)));
}

#[test]
fn get_lists_the_rows_of_a_value() {
    let mut disk = Disk::new();
    let users = open_users(&mut disk);
    let bob = users.insert(&mut disk, person("Bob", 24)).unwrap();
    let jeff = users.insert(&mut disk, person("Jeff", 24)).unwrap();
    let ann = users.insert(&mut disk, person("Ann", 30)).unwrap();
    let rows = users.get(&disk, "age", 24).unwrap();
    assert_eq!(rows.len(), 2);
    assert_eq!(rows[0].id(), &bob);
    assert_eq!(rows[1].id(), &jeff);
    for row in &rows {
        assert_eq!(row.get("age").i32(), Some(24));
    }
    let rows = users.get(&disk, "name", "Ann").unwrap();
    assert_eq!(ids_of(&rows), vec![ann]);
    let rows = users.get(&disk, "age", 24i64).unwrap();
    assert_eq!(rows.len(), 2);
}

#[test]
fn get_of_a_value_that_no_row_ever_had_is_a_failure() {
    let mut disk = Disk::new();
    let users = open_users(&mut disk);
    users.insert(&mut disk, person("Bob", 24)).unwrap();
    assert_eq!(users.get(&disk, "age", 99).err(), Some(Error::Io(FsError::NotFound)));
    assert_eq!(users.get(&disk, "email", "b@x").err(), Some(Error::Io(FsError::NotFound)));
}

#[test]
fn get_one_of_a_value_that_no_row_ever_had_is_nothing() {
    let mut disk = Disk::new();
    let users = open_users(&mut disk);
    users.insert(&mut disk, person("Bob", 24)).unwrap();
    assert!(users.get_one(&disk, "age", 99).unwrap().is_none());
    assert!(users.get_one(&disk, "email", "b@x").unwrap().is_none());
}

#[test]
fn get_one_is_the_first_of_get() {
    let mut disk = Disk::new();
    let users = open_users(&mut disk);
    users.insert(&mut disk, person("Bob", 24)).unwrap();
    users.insert(&mut disk, person("Jeff", 24)).unwrap();
    let all = users.get(&disk, "age", 24).unwrap();
    let one = users.get_one(&disk, "age", 24).unwrap().unwrap();
    assert_eq!(one.id(), all[0].id());
    assert_eq!(one.get("name").string(), all[0].get("name").string());
}

#[test]
fn get_one_of_an_emptied_bucket_is_nothing() {
    let mut disk = Disk::new();
    let users = open_users(&mut disk);
    let bob = users.insert(&mut disk, person("Bob", 24)).unwrap();
    users
        .set_cell(&mut disk, bob, "age".to_string(), 42, ColumnValue::I32(24))
        .unwrap();
    assert!(users.get_one(&disk, "age", 24).unwrap().is_none());
    assert_eq!(users.get(&disk, "age", 24).unwrap().len(), 0);
}

#[test]
fn lookups_are_by_column() {
    let mut disk = Disk::new();
    let db = Db::new(&mut disk, "data").unwrap();
    let mut spec = TableSpec::new();
    spec.insert("n".to_string(), Column::I32);
    spec.insert("s".to_string(), Column::Str);
    let table = db.table(&mut disk, "t", spec).unwrap();
    let mut fields = Fields::new();
    fields.insert("n".to_string(), 42.to_cell());
    fields.insert("s".to_string(), "x".to_cell());
    let a = table.insert(&mut disk, fields).unwrap();
    let mut fields = Fields::new();
    fields.insert("n".to_string(), 1.to_cell());
    fields.insert("s".to_string(), "42".to_cell());
    let b = table.insert(&mut disk, fields).unwrap();
    assert_eq!(ids_of(&table.get(&disk, "n", 42).unwrap()), vec![a.clone()]);
    assert_eq!(ids_of(&table.get(&disk, "s", "42").unwrap()), vec![b.clone()]);
    assert_eq!(ids_of(&table.get(&disk, "s", 42).unwrap()), vec![b]);
    assert_eq!(ids_of(&table.get(&disk, "n", "42").unwrap()), vec![a]);
}

#[test]
fn every_row_of_a_bucket_has_the_buckets_text() {
    let mut disk = Disk::new();
    let users = open_users(&mut disk);
    for (name, age) in [("Bob", 24), ("Jeff", 24), ("Ann", 30), ("Joe", 24)] {
        users.insert(&mut disk, person(name, age)).unwrap();
    }
    let joe = users.get_one(&disk, "name", "Joe").unwrap().unwrap();
    users
        .set_cell(&mut disk, joe.id().clone(), "age".to_string(), 30, ColumnValue::I32(24))
        .unwrap();
    for age in [24, 30] {
        for row in users.get(&disk, "age", age).unwrap() {
            assert_eq!(kiln::stringify_col(row.get("age").clone()), age.to_string());
        }
    }
    assert_eq!(users.get(&disk, "age", 24).unwrap().len(), 2);
    assert_eq!(users.get(&disk, "age", 30).unwrap().len(), 2);
}

#[test]
fn the_plan_of_a_change() {
    let mut disk = Disk::new();
    let users = open_users(&mut disk);
    let ops = users.set_cell_ops("row-1", "age", "42", "24");
    assert_eq!(
        ops,
        vec![
            FsOp::Write(path(&["data", "users", "_data", "row-1", "age"]), "42".to_string()),
            FsOp::CreateDirAll(path(&["data", "users", "_index", "age", "42"])),
            FsOp::Write(path(&["data", "users", "_index", "age", "42", "row-1"]), String::new()),
            FsOp::RemoveFile(path(&["data", "users", "_index", "age", "24", "row-1"])),
        ]
    );
}

#[test]
fn set_cell_moves_the_row_in_the_index() {
    let mut disk = Disk::new();
    let users = open_users(&mut disk);
    let bob = users.insert(&mut disk, person("Bob", 24)).unwrap();
    let jeff = users.insert(&mut disk, person("Jeff", 24)).unwrap();
    users
        .set_cell(&mut disk, bob.clone(), "age".to_string(), 42, ColumnValue::I32(24))
        .unwrap();
    assert_eq!(
        disk.read_to_string(&path(&["data", "users", "_data", &bob, "age"])),
        Ok("42".to_string())
    );
    let old = users.get_one(&disk, "age", 24).unwrap().unwrap();
    assert_eq!(old.id(), &jeff);
    let new = users.get_one(&disk, "age", 42).unwrap().unwrap();
    assert_eq!(new.id(), &bob);
    assert_eq!(new.get("age").i32(), Some(42));
    assert_eq!(new.get("name").string(), Some("Bob".to_string()));
    assert_eq!(ids_of(&users.get(&disk, "age", 24).unwrap()), vec![jeff]);
    assert_eq!(ids_of(&users.get(&disk, "age", 42).unwrap()), vec![bob]);
}

#[test]
fn set_cell_with_a_wrong_old_value_fails_and_leaves_both_markers() {
    let mut disk = Disk::new();
    let users = open_users(&mut disk);
    let bob = users.insert(&mut disk, person("Bob", 24)).unwrap();
    let r = users.set_cell(&mut disk, bob.clone(), "age".to_string(), 42, ColumnValue::I32(25));
    assert_eq!(r, Err(FsError::NotFound));
    assert_eq!(ids_of(&users.get(&disk, "age", 24).unwrap()), vec![bob.clone()]);
    assert_eq!(ids_of(&users.get(&disk, "age", 42).unwrap()), vec![bob.clone()]);
    assert_eq!(users.row(&disk, &bob).unwrap().get("age").i32(), Some(42));
}

#[test]
fn set_cell_to_the_same_text_takes_the_row_out_of_the_index() {
    let mut disk = Disk::new();
    let users = open_users(&mut disk);
    let bob = users.insert(&mut disk, person("Bob", 24)).unwrap();
    users
        .set_cell(&mut disk, bob.clone(), "age".to_string(), 24, ColumnValue::I32(24))
        .unwrap();
    assert!(users.get_one(&disk, "age", 24).unwrap().is_none());
    assert_eq!(users.row(&disk, &bob).unwrap().get("age").i32(), Some(24));
}

#[test]
fn set_cell_of_a_row_that_is_not_there_fails_at_once() {
    let mut disk = Disk::new();
    let users = open_users(&mut disk);
    let r = users.set_cell(&mut disk, "missing".to_string(), "age".to_string(), 42, ColumnValue::I32(24));
    assert_eq!(r, Err(FsError::NotFound));
    assert_eq!(disk.read_dir(&path(&["data", "users", "_index", "age"])), Ok(vec![]));
}

#[test]
fn a_table_accepts_the_cells_of_its_columns() {
    let mut disk = Disk::new();
    let users = open_users(&mut disk);
    assert!(users.accepts(&person("Bob", 24)));
    assert!(users.accepts(&Fields::new()));
    let mut wrong_type = Fields::new();
    wrong_type.insert("age".to_string(), "old".to_cell());
    assert!(users.accepts(&wrong_type));
    let mut unknown = person("Bob", 24);
    unknown.insert("email".to_string(), "b@x".to_cell());
    assert!(!users.accepts(&unknown));
}

#[test]
fn a_row_is_indexed_by_column() {
    let mut disk = Disk::new();
    let users = open_users(&mut disk);
    let row = Row::new(&users, person("Bob", 24), "row-1".to_string());
    assert_eq!(row["name"].string(), Some("Bob".to_string()));
    assert_eq!(row["age"].i32(), Some(24));
    assert_eq!(row.table().name(), "users");
}

#[test]
fn a_row_takes_a_value_into_its_cells() {
    let mut disk = Disk::new();
    let users = open_users(&mut disk);
    let mut row = Row::new(&users, person("Bob", 24), "row-1".to_string());
    let ops = row.set_ops("age", &42);
    assert_eq!(ops, users.set_cell_ops("row-1", "age", "42", "24"));
    row.record("age", 42);
    assert_eq!(row["age"].i32(), Some(42));
    row.record("email", "b@x");
    assert_eq!(row["email"].string(), Some("b@x".to_string()));
    assert_eq!(disk.read_dir(&path(&["data", "users", "_data"])), Ok(vec![]));
}

#[test]
fn an_insert_plan_has_a_new_id_each_time() {
    let mut disk = Disk::new();
    let users = open_users(&mut disk);
    let (id, ops) = users.insert_plan(&person("Bob", 24));
    assert_eq!(ops, users.insert_ops(&id, &person("Bob", 24)));
    assert_eq!(ops.len(), 8);
    let (other, _) = users.insert_plan(&person("Bob", 24));
    assert_ne!(id, other);
    assert_eq!(disk.run(&ops), Ok(()));
    assert_eq!(users.row(&disk, &id).unwrap()["age"].i32(), Some(24));
}

#[test]
fn a_row_is_what_it_was_made_of() {
    let mut disk = Disk::new();
    let users = open_users(&mut disk);
    let row = Row::new(&users, person("Bob", 24), "row-1".to_string());
    assert_eq!(row.id(), "row-1");
    assert_eq!(row.get("name").string(), Some("Bob".to_string()));
    assert_eq!(row.get("age").i32(), Some(24));
    assert!(row.find("email").is_none());
    assert_eq!(row.find("age").unwrap().i32(), Some(24));
}

#[test]
fn row_set_writes_through_and_updates_its_cells() {
    let mut disk = Disk::new();
    let users = open_users(&mut disk);
    let bob = users.insert(&mut disk, person("Bob", 24)).unwrap();
    let mut row = users.row(&disk, &bob).unwrap();
    assert_eq!(row.set(&mut disk, "age", 42), Ok(()));
    assert_eq!(row.get("age").i32(), Some(42));
    assert_eq!(row.get("name").string(), Some("Bob".to_string()));
    assert_eq!(users.row(&disk, &bob).unwrap().get("age").i32(), Some(42));
    assert_eq!(row.set(&mut disk, "age", 43i64), Ok(()));
    assert_eq!(row.get("age").i32(), Some(43));
    assert!(users.get_one(&disk, "age", 42).unwrap().is_none());
    assert_eq!(users.get_one(&disk, "age", 43).unwrap().unwrap().id(), &bob);
    assert_eq!(row.set(&mut disk, "name", "Robert"), Ok(()));
    assert_eq!(users.get_one(&disk, "name", "Robert").unwrap().unwrap().id(), &bob);
}

#[test]
fn row_set_that_fails_leaves_its_cells() {
    let mut disk = Disk::new();
    let users = open_users(&mut disk);
    let bob = users.insert(&mut disk, person("Bob", 24)).unwrap();
    let mut stale = users.row(&disk, &bob).unwrap();
    let mut fresh = users.row(&disk, &bob).unwrap();
    fresh.set(&mut disk, "age", 30).unwrap();
    assert_eq!(stale.set(&mut disk, "age", 42), Err(FsError::NotFound));
    assert_eq!(stale.get("age").i32(), Some(24));
    assert_eq!(users.row(&disk, &bob).unwrap().get("age").i32(), Some(42));
    assert_eq!(ids_of(&users.get(&disk, "age", 30).unwrap()), vec![bob.clone()]);
    assert_eq!(ids_of(&users.get(&disk, "age", 42).unwrap()), vec![bob]);
}

#[test]
fn users_end_to_end() {
    let mut disk = Disk::new();
    let db = Db::new(&mut disk, "data").unwrap();
    let users = db.table(&mut disk, "users", users_spec()).unwrap();
    let bob = users.insert(&mut disk, person("Bob", 24)).unwrap();
    let jeff = users.insert(&mut disk, person("Jeff", 24)).unwrap();

    let both = users.get(&disk, "age", 24).unwrap();
    let mut expected = vec![bob.clone(), jeff.clone()];
    expected.sort();
    assert_eq!(ids_of(&both), expected);

    let mut row = users.get_one(&disk, "name", "Bob").unwrap().unwrap();
    assert_eq!(row["age"].i32(), Some(24));
    row.set(&mut disk, "age", 42).unwrap();
    assert_eq!(row["age"].i32(), Some(42));

    let young = users.get(&disk, "age", 24).unwrap();
    assert_eq!(young.len(), 1);
    assert_eq!(young[0].id(), &jeff);
    assert_eq!(young[0].get("name").string(), Some("Jeff".to_string()));
    let old = users.get(&disk, "age", 42).unwrap();
    assert_eq!(old.len(), 1);
    assert_eq!(old[0].id(), &bob);
    assert_eq!(old[0].get("name").string(), Some("Bob".to_string()));
}
