//! A small embedded store of typed rows, laid out as a tree of directories
//! and files.
//!
//! A table keeps one directory per row with one file per cell, and an index
//! with one directory per value of each column. The operations are stated
//! over a directory tree in memory, [`Disk`], and as plans of file
//! operations, [`FsOp`], that a caller can carry out on a real file system.

pub mod assoc;
pub mod column;
pub mod creation;
pub mod db;
pub mod decimal;
pub mod disk;
pub mod error;
pub mod fields;
pub mod sound;
pub mod insertion;
pub mod laws;
pub mod layout;
pub mod lookup;
pub mod plan;
pub mod row;
pub mod schema;
pub mod shape;
pub mod table;
pub mod traits;
pub mod tree;
pub mod update;

pub use crate::column::{stringify_col, Column, ColumnValue};
pub use crate::db::Db;
pub use crate::disk::Disk;
pub use crate::error::Error;
pub use crate::fields::Fields;
pub use crate::plan::FsOp;
pub use crate::row::Row;
pub use crate::schema::TableSpec;
pub use crate::table::Table;
pub use crate::traits::ToCell;
pub use crate::tree::FsError;
