use vstd::prelude::*;
use crate::value::ColumnType;

verus! {

/// One column of a table: its name (for diagnostics), its declared type, and,
/// for a foreign column, the 1-based id of the table it references.
pub struct Column {
    pub c_name: String,
    pub c_type: ColumnType,
    pub c_ref: i32,
}

/// A table schema: its name and its ordered columns.
pub struct Table {
    pub t_name: String,
    pub t_cols: Vec<Column>,
}

} // verus!
