use kiln::disk::{path_join, path_prefix, same_path, stands_in};
use kiln::{Disk, FsError, FsOp};

fn path(names: &[&str]) -> Vec<String> {
    names.iter().map(|n| n.to_string()).collect()
}

#[test]
fn a_new_disk_has_only_its_top() {
    let disk = Disk::new();
    assert!(disk.is_present(&path(&[])));
    assert!(!disk.is_present(&path(&["a"])));
    assert_eq!(disk.read_dir(&path(&[])), Ok(vec![]));
}

#[test]
fn create_dir_needs_a_free_name_in_a_directory() {
    let mut disk = Disk::new();
    assert_eq!(disk.create_dir(&path(&["a"])), Ok(()));
    assert!(disk.is_present(&path(&["a"])));
    assert_eq!(disk.create_dir(&path(&["a"])), Err(FsError::AlreadyExists));
    assert_eq!(disk.create_dir(&path(&[])), Err(FsError::AlreadyExists));
    assert_eq!(disk.create_dir(&path(&["x", "y"])), Err(FsError::NotFound));
    assert_eq!(disk.write_file(&path(&["a", "f"]), "text"), Ok(()));
    assert_eq!(disk.create_dir(&path(&["a", "f", "d"])), Err(FsError::NotADirectory));
    assert_eq!(disk.create_dir(&path(&["a", "f"])), Err(FsError::AlreadyExists));
}

#[test]
fn write_creates_and_replaces() {
    let mut disk = Disk::new();
    disk.create_dir(&path(&["a"])).unwrap();
    assert_eq!(disk.write_file(&path(&["a", "f"]), "one"), Ok(()));
    assert_eq!(disk.read_to_string(&path(&["a", "f"])), Ok("one".to_string()));
    assert_eq!(disk.write_file(&path(&["a", "f"]), "two"), Ok(()));
    assert_eq!(disk.read_to_string(&path(&["a", "f"])), Ok("two".to_string()));
    assert_eq!(disk.read_dir(&path(&["a"])), Ok(vec!["f".to_string()]));
}

#[test]
fn write_fails_without_a_directory_to_hold_the_file() {
    let mut disk = Disk::new();
    disk.create_dir(&path(&["a"])).unwrap();
    disk.write_file(&path(&["a", "f"]), "one").unwrap();
    assert_eq!(disk.write_file(&path(&["a"]), "x"), Err(FsError::IsADirectory));
    assert_eq!(disk.write_file(&path(&[]), "x"), Err(FsError::IsADirectory));
    assert_eq!(disk.write_file(&path(&["b", "f"]), "x"), Err(FsError::NotFound));
    assert_eq!(disk.write_file(&path(&["a", "f", "g"]), "x"), Err(FsError::NotADirectory));
    assert_eq!(disk.read_to_string(&path(&["a", "f"])), Ok("one".to_string()));
}

#[test]
fn read_to_string_needs_a_file() {
    let mut disk = Disk::new();
    disk.create_dir(&path(&["a"])).unwrap();
    assert_eq!(disk.read_to_string(&path(&["a"])), Err(FsError::IsADirectory));
    assert_eq!(disk.read_to_string(&path(&[])), Err(FsError::IsADirectory));
    assert_eq!(disk.read_to_string(&path(&["a", "f"])), Err(FsError::NotFound));
}

#[test]
fn read_dir_lists_in_order_of_creation() {
    let mut disk = Disk::new();
    disk.create_dir(&path(&["a"])).unwrap();
    disk.write_file(&path(&["a", "z"]), "").unwrap();
    disk.create_dir(&path(&["a", "m"])).unwrap();
    disk.write_file(&path(&["a", "b"]), "").unwrap();
    disk.write_file(&path(&["a", "m", "deep"]), "").unwrap();
    disk.write_file(&path(&["a", "z"]), "again").unwrap();
    assert_eq!(
        disk.read_dir(&path(&["a"])),
        Ok(vec!["z".to_string(), "m".to_string(), "b".to_string()])
    );
    assert_eq!(disk.read_dir(&path(&[])), Ok(vec!["a".to_string()]));
    assert_eq!(disk.read_dir(&path(&["a", "m"])), Ok(vec!["deep".to_string()]));
}

#[test]
fn read_dir_needs_a_directory() {
    let mut disk = Disk::new();
    disk.create_dir(&path(&["a"])).unwrap();
    disk.write_file(&path(&["a", "f"]), "").unwrap();
    assert_eq!(disk.read_dir(&path(&["b"])), Err(FsError::NotFound));
    assert_eq!(disk.read_dir(&path(&["a", "f"])), Err(FsError::NotADirectory));
}

#[test]
fn remove_file_takes_a_file_away() {
    let mut disk = Disk::new();
    disk.create_dir(&path(&["a"])).unwrap();
    disk.write_file(&path(&["a", "f"]), "").unwrap();
    disk.write_file(&path(&["a", "g"]), "").unwrap();
    assert_eq!(disk.remove_file(&path(&["a", "f"])), Ok(()));
    assert!(!disk.is_present(&path(&["a", "f"])));
    assert_eq!(disk.read_dir(&path(&["a"])), Ok(vec!["g".to_string()]));
    assert_eq!(disk.remove_file(&path(&["a", "f"])), Err(FsError::NotFound));
    assert_eq!(disk.remove_file(&path(&["a"])), Err(FsError::IsADirectory));
    assert_eq!(disk.remove_file(&path(&[])), Err(FsError::IsADirectory));
}

#[test]
fn create_dir_all_creates_what_is_missing() {
    let mut disk = Disk::new();
    assert_eq!(disk.create_dir_all(&path(&["a", "b", "c"])), Ok(()));
    assert!(disk.is_present(&path(&["a"])));
    assert!(disk.is_present(&path(&["a", "b"])));
    assert!(disk.is_present(&path(&["a", "b", "c"])));
    assert_eq!(disk.create_dir_all(&path(&["a", "b", "c"])), Ok(()));
    assert_eq!(disk.create_dir_all(&path(&["a", "b", "d"])), Ok(()));
    assert_eq!(disk.create_dir_all(&path(&[])), Ok(()));
    assert_eq!(
        disk.read_dir(&path(&["a", "b"])),
        Ok(vec!["c".to_string(), "d".to_string()])
    );
}

#[test]
fn create_dir_all_stops_at_a_file_and_changes_nothing() {
    let mut disk = Disk::new();
    disk.create_dir(&path(&["a"])).unwrap();
    disk.write_file(&path(&["a", "f"]), "").unwrap();
    assert_eq!(disk.create_dir_all(&path(&["a", "f", "x", "y"])), Err(FsError::NotADirectory));
    assert_eq!(disk.create_dir_all(&path(&["a", "f"])), Err(FsError::NotADirectory));
    assert_eq!(disk.read_dir(&path(&["a"])), Ok(vec!["f".to_string()]));
    assert!(!disk.is_present(&path(&["a", "f", "x"])));
}

#[test]
fn a_plan_runs_in_order() {
    let mut disk = Disk::new();
    let plan = vec![
        FsOp::CreateDir(path(&["a"])),
        FsOp::CreateDirAll(path(&["a", "b", "c"])),
        FsOp::Write(path(&["a", "b", "f"]), "text".to_string()),
        FsOp::Write(path(&["a", "g"]), String::new()),
        FsOp::RemoveFile(path(&["a", "g"])),
    ];
    assert_eq!(disk.run(&plan), Ok(()));
    assert_eq!(disk.read_to_string(&path(&["a", "b", "f"])), Ok("text".to_string()));
    assert!(!disk.is_present(&path(&["a", "g"])));
    assert!(disk.is_present(&path(&["a", "b", "c"])));
}

#[test]
fn a_plan_ends_at_its_first_failure_and_keeps_what_was_done() {
    let mut disk = Disk::new();
    let plan = vec![
        FsOp::CreateDir(path(&["a"])),
        FsOp::RemoveFile(path(&["a", "missing"])),
        FsOp::CreateDir(path(&["b"])),
    ];
    assert_eq!(disk.run(&plan), Err(FsError::NotFound));
    assert!(disk.is_present(&path(&["a"])));
    assert!(!disk.is_present(&path(&["b"])));
}

#[test]
fn one_operation_at_a_time() {
    let mut disk = Disk::new();
    assert_eq!(disk.apply(&FsOp::CreateDir(path(&["a"]))), Ok(()));
    assert_eq!(disk.apply(&FsOp::CreateDir(path(&["a"]))), Err(FsError::AlreadyExists));
    assert_eq!(disk.apply(&FsOp::Write(path(&["a", "f"]), "x".to_string())), Ok(()));
    assert_eq!(disk.apply(&FsOp::RemoveFile(path(&["a", "f"]))), Ok(()));
    assert_eq!(disk.apply(&FsOp::CreateDirAll(path(&["a", "b", "c"]))), Ok(()));
    assert!(disk.is_present(&path(&["a", "b", "c"])));
}

#[test]
fn names_are_taken_as_they_are() {
    let mut disk = Disk::new();
    disk.create_dir(&path(&["a/b"])).unwrap();
    assert!(disk.is_present(&path(&["a/b"])));
    assert!(!disk.is_present(&path(&["a"])));
    assert!(!disk.is_present(&path(&["a", "b"])));
    disk.write_file(&path(&["a/b", ""]), "x").unwrap();
    assert_eq!(disk.read_dir(&path(&["a/b"])), Ok(vec![String::new()]));
}

#[test]
fn paths_compare_name_by_name() {
    assert!(same_path(&path(&["a", "b"]), &path(&["a", "b"])));
    assert!(same_path(&path(&[]), &path(&[])));
    assert!(!same_path(&path(&["a", "b"]), &path(&["a"])));
    assert!(!same_path(&path(&["a", "b"]), &path(&["a", "c"])));
    assert!(!same_path(&path(&["ab"]), &path(&["a", "b"])));
}

#[test]
fn stands_in_means_directly_below() {
    assert!(stands_in(&path(&["a", "b"]), &path(&["a"])));
    assert!(stands_in(&path(&["a"]), &path(&[])));
    assert!(!stands_in(&path(&["a", "b", "c"]), &path(&["a"])));
    assert!(!stands_in(&path(&["a"]), &path(&["a"])));
    assert!(!stands_in(&path(&["x", "b"]), &path(&["a"])));
    assert!(!stands_in(&path(&[]), &path(&[])));
}

#[test]
fn prefixes_and_joins() {
    assert_eq!(path_prefix(&path(&["a", "b", "c"]), 2), path(&["a", "b"]));
    assert_eq!(path_prefix(&path(&["a", "b", "c"]), 0), path(&[]));
    assert_eq!(path_prefix(&path(&["a", "b", "c"]), 3), path(&["a", "b", "c"]));
    assert_eq!(path_join(&path(&["a"]), "b"), path(&["a", "b"]));
    assert_eq!(path_join(&path(&[]), "b"), path(&["b"]));
}
