//! Why an operation of the store failed.

use crate::tree::FsError;
use vstd::prelude::*;

verus! {

/// Why an operation of the store failed.
#[derive(Debug, PartialEq, Eq, Clone, Copy, Structural)]
pub enum Error {
    /// A file operation failed.
    Io(FsError),
    /// A table of that name exists with another schema.
    SchemaMismatch,
    /// A file of a stored schema holds no known type tag.
    BadTag,
    /// A file of a stored row is named after no column of the table.
    UnknownColumn,
    /// The text of a stored cell stands for no value of its column's type.
    BadCell,
}

} // verus!
