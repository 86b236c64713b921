use vstd::prelude::*;
use crate::value::Value;

verus! {

/// The closed set of error codes returned to a client.
#[derive(Clone, Copy, Debug, PartialEq, Eq, Structural)]
pub enum ErrorCode {
    BadTable,
    BadQuery,
    BadRow,
    BadValue,
    BadForeign,
    NotFound,
    TxnAbort,
    ServerBusy,
    BadRequest,
    Unimplemented,
}

/// Query operator codes.
pub const OP_AL: i32 = 1;
pub const OP_EQ: i32 = 2;
pub const OP_NE: i32 = 3;
pub const OP_LT: i32 = 4;
pub const OP_GT: i32 = 5;
pub const OP_LE: i32 = 6;
pub const OP_GE: i32 = 7;

/// A parsed request body.
#[derive(Debug)]
pub enum Command {
    /// Values of the new row.
    Insert(Vec<Value>),
    /// Row id, expected version (`0` skips the check), new values.
    Update(i64, i64, Vec<Value>),
    /// Row id.
    Drop(i64),
    /// Row id.
    Get(i64),
    /// Column id (`0` is the row id), operator code, operand.
    Query(i32, i32, Value),
    Exit,
}

/// A parsed request: the table it addresses and what to do.
#[derive(Debug)]
pub struct Request {
    pub table_id: i32,
    pub command: Command,
}

/// A response to one request.
#[derive(Debug)]
pub enum Response {
    Connected,
    Error(ErrorCode),
    /// New row id and its version.
    Insert(i64, i64),
    /// New version.
    Update(i64),
    Drop,
    /// Version and values.
    Get(i64, Vec<Value>),
    /// Matching row ids.
    Query(Vec<i64>),
}

} // verus!
