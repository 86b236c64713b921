use vstd::prelude::*;
use crate::packet::{ErrorCode, OP_AL, OP_EQ, OP_NE, OP_LT, OP_GT, OP_LE, OP_GE, Command, Request, Response};
use crate::schema::{Column, Table};
use crate::value::{ref_of, Value, ColumnType, type_of, value_eq, value_lt, value_le, value_eq_exec, value_lt_exec};

verus! {

/// A stored row: the table it belongs to, its database-wide id, its version and its values.
pub struct StoredRow {
    pub table: i32,
    pub id: i64,
    pub version: i64,
    pub data: Vec<Value>,
}

/// An entry of the foreign-reference index: row `row` of table `table` refers to row `target`.
#[derive(Clone, Copy, Debug, PartialEq, Eq, Structural)]
pub struct RefEdge {
    pub target: i64,
    pub table: i32,
    pub row: i64,
}

/// The whole database. `rows` holds the rows of every table in order of creation,
/// so ids increase along it; `next` is the id the next insert receives; `foreign`
/// is the foreign-reference index. The invariant is `wf`.
pub struct Database {
    pub tables: Vec<Table>,
    pub rows: Vec<StoredRow>,
    pub next: i64,
    pub foreign: Vec<RefEdge>,
}

/// Row `id` is in table `t`.
pub open spec fn holds_in(rows: Seq<StoredRow>, t: int, id: int) -> bool {
    exists|i: int| 0 <= i < rows.len() && rows[i].table == t && rows[i].id == id
}

/// The values refer to row `v` through some column.
pub open spec fn refers(data: Seq<Value>, v: i64) -> bool {
    v != 0 && exists|c: int| 0 <= c < data.len() && ref_of(#[trigger] data[c]) == v
}

/// Each value has the declared type of its column, and there is one value per column.
pub open spec fn typed(cols: Seq<Column>, data: Seq<Value>) -> bool {
    data.len() == cols.len() && forall|c: int| 0 <= c < data.len() ==> type_of(#[trigger] data[c]) == cols[c].c_type
}

/// Every non-zero foreign value names a row of the table its column references.
pub open spec fn resolved(rows: Seq<StoredRow>, cols: Seq<Column>, data: Seq<Value>) -> bool {
    forall|c: int|
        0 <= c < data.len() && ref_of(#[trigger] data[c]) != 0 ==> holds_in(
            rows,
            cols[c].c_ref as int,
            ref_of(data[c]) as int,
        )
}

/// Ids strictly increase along the rows; in particular no id is held twice.
pub open spec fn ids_increasing(rows: Seq<StoredRow>) -> bool {
    forall|i: int, j: int| 0 <= i < j < rows.len() ==> rows[i].id < rows[j].id
}

/// Every non-zero foreign value of every row is registered in the index.
pub open spec fn indexed(rows: Seq<StoredRow>, foreign: Seq<RefEdge>) -> bool {
    forall|i: int, c: int|
        0 <= i < rows.len() && 0 <= c < rows[i].data@.len() && ref_of(#[trigger] rows[i].data@[c])
            != 0 ==> foreign.contains(
            RefEdge { target: ref_of(rows[i].data@[c]), table: rows[i].table, row: rows[i].id },
        )
}

/// Entry `e` was registered by an existing row that refers to its target.
pub open spec fn registered_edge(rows: Seq<StoredRow>, e: RefEdge) -> bool {
    exists|i: int|
        0 <= i < rows.len() && rows[i].table == e.table && rows[i].id == e.row && refers(
            rows[i].data@,
            e.target,
        )
}

/// Every index entry was registered by an existing row that refers to its target.
pub open spec fn registered(rows: Seq<StoredRow>, foreign: Seq<RefEdge>) -> bool {
    forall|k: int| 0 <= k < foreign.len() ==> registered_edge(rows, #[trigger] foreign[k])
}

impl Database {
    pub open spec fn table_ok(&self, t: int) -> bool {
        1 <= t <= self.tables@.len()
    }

    pub open spec fn cols(&self, t: int) -> Seq<Column> {
        self.tables@[t - 1].t_cols@
    }

    pub open spec fn holds(&self, t: int, id: int) -> bool {
        holds_in(self.rows@, t, id)
    }

    /// The rows' shape, excluding referential integrity and the index.
    pub open spec fn wf_rows(&self) -> bool {
        &&& self.tables@.len() <= i32::MAX
        &&& 1 <= self.next
        &&& ids_increasing(self.rows@)
        &&& forall|i: int|
            0 <= i < self.rows@.len() ==> {
                &&& self.table_ok((#[trigger] self.rows@[i]).table as int)
                &&& 1 <= self.rows@[i].id < self.next
                &&& 1 <= self.rows@[i].version
                &&& typed(self.cols(self.rows@[i].table as int), self.rows@[i].data@)
            }
    }

    /// Referential integrity: every non-zero foreign value resolves to an existing row.
    pub open spec fn integral(&self) -> bool {
        forall|i: int|
            0 <= i < self.rows@.len() ==> resolved(
                self.rows@,
                self.cols((#[trigger] self.rows@[i]).table as int),
                self.rows@[i].data@,
            )
    }

    /// The database invariant.
    pub open spec fn wf(&self) -> bool {
        &&& self.wf_rows()
        &&& self.integral()
        &&& indexed(self.rows@, self.foreign@)
        &&& registered(self.rows@, self.foreign@)
    }

    /// An empty database with the given tables.
    pub fn new(schemas: Vec<Table>) -> (r: Database)
        requires
            schemas@.len() <= i32::MAX,
        ensures
            r.wf(),
            r.tables@ == schemas@,
            r.rows@.len() == 0,
            r.next == 1,
    {
        Database { tables: schemas, rows: Vec::new(), next: 1, foreign: Vec::new() }
    }
}

/// Index of row `id` of table `t`, if there is one.
fn find_row(rows: &Vec<StoredRow>, t: i32, id: i64) -> (r: Option<usize>)
    ensures
        r is Some ==> r->0 < rows@.len() && rows@[r->0 as int].table == t && rows@[r->0 as int].id
            == id,
        r is None ==> !holds_in(rows@, t as int, id as int),
{
    let mut i: usize = 0;
    while i < rows.len()
        invariant
            i <= rows@.len(),
            forall|k: int| 0 <= k < i ==> !(rows@[k].table == t && rows@[k].id == id),
        decreases rows@.len() - i,
    {
        if rows[i].table == t && rows[i].id == id {
            return Some(i);
        }
        i = i + 1;
    }
    None
}

fn valid_table_id(db: &Database, table_id: i32) -> (r: bool)
    ensures
        r == db.table_ok(table_id as int),
{
    table_id >= 1 && (table_id as usize) <= db.tables.len()
}

fn copy_values(vals: &Vec<Value>) -> (r: Vec<Value>)
    ensures
        r@ == vals@,
{
    let mut r: Vec<Value> = Vec::new();
    let mut i: usize = 0;
    while i < vals.len()
        invariant
            i <= vals@.len(),
            r@ == vals@.subrange(0, i as int),
        decreases vals@.len() - i,
    {
        r.push(vals[i].copy());
        i = i + 1;
        assert(r@ =~= vals@.subrange(0, i as int));
    }
    assert(r@ =~= vals@);
    r
}

/// Version and values of row `object_id` of table `table_id`.
pub fn handle_get(db: &Database, table_id: i32, object_id: i64) -> (r: Result<
    (i64, Vec<Value>),
    ErrorCode,
>)
    requires
        db.wf(),
    ensures
        !db.table_ok(table_id as int) ==> r == Err::<(i64, Vec<Value>), ErrorCode>(
            ErrorCode::BadTable),
        db.table_ok(table_id as int) && !db.holds(table_id as int, object_id as int) ==> r == Err::<
            (i64, Vec<Value>),
            ErrorCode,
        >(ErrorCode::NotFound),
        db.table_ok(table_id as int) && db.holds(table_id as int, object_id as int) ==> r is Ok
            && exists|i: int|
            0 <= i < db.rows@.len() && db.rows@[i].table == table_id && db.rows@[i].id == object_id
                && r->Ok_0.0 == db.rows@[i].version && r->Ok_0.1@ == db.rows@[i].data@,
{
    if !valid_table_id(db, table_id) {
        return Err(ErrorCode::BadTable);
    }
    match find_row(&db.rows, table_id, object_id) {
        None => Err(ErrorCode::NotFound),
        Some(i) => {
            let row = &db.rows[i];
            Ok((row.version, copy_values(&row.data)))
        },
    }
}

/// Whether a row satisfies the predicate `column op operand`; column `0` is the row id.
pub open spec fn row_matches(r: StoredRow, col: int, op: i32, operand: Value) -> bool {
    if op == OP_AL {
        true
    } else if col == 0 {
        match operand {
            Value::Integer(x) => if op == OP_EQ {
                r.id == x
            } else {
                r.id != x
            },
            _ => false,
        }
    } else {
        let v = r.data@[col - 1];
        if op == OP_EQ {
            value_eq(v, operand)
        } else if op == OP_NE {
            !value_eq(v, operand)
        } else if op == OP_LT {
            value_lt(v, operand)
        } else if op == OP_GT {
            value_lt(operand, v)
        } else if op == OP_LE {
            value_le(v, operand)
        } else {
            value_le(operand, v)
        }
    }
}

/// Ids of the rows of table `t` that satisfy the predicate, in store order.
pub open spec fn select(rows: Seq<StoredRow>, t: int, col: int, op: i32, operand: Value) -> Seq<
    i64,
>
    decreases rows.len(),
{
    if rows.len() == 0 {
        Seq::empty()
    } else {
        let prev = select(rows.drop_last(), t, col, op, operand);
        if rows.last().table == t && row_matches(rows.last(), col, op, operand) {
            prev.push(rows.last().id)
        } else {
            prev
        }
    }
}

/// Column types on which the ordering operators are defined.
pub open spec fn orderable(ty: ColumnType) -> bool {
    ty == ColumnType::Integer || ty == ColumnType::Float || ty == ColumnType::Text
}

impl Database {
    /// The error a query is refused with, if any.
    pub open spec fn query_error(&self, t: i32, col: i32, op: i32, operand: Value) -> Option<
        ErrorCode,
    > {
        if !self.table_ok(t as int) {
            Some(ErrorCode::BadTable)
        } else if op == OP_AL {
            if col == 0 {
                None
            } else {
                Some(ErrorCode::BadQuery)
            }
        } else if op < OP_EQ || op > OP_GE {
            Some(ErrorCode::BadQuery)
        } else if col == 0 {
            if (op == OP_EQ || op == OP_NE) && operand is Integer {
                None
            } else {
                Some(ErrorCode::BadQuery)
            }
        } else if col < 0 || col > self.cols(t as int).len() {
            Some(ErrorCode::BadQuery)
        } else if type_of(operand) != self.cols(t as int)[col - 1].c_type {
            Some(ErrorCode::BadQuery)
        } else if op >= OP_LT && !orderable(self.cols(t as int)[col - 1].c_type) {
            Some(ErrorCode::BadQuery)
        } else {
            None
        }
    }
}

fn row_matches_exec(r: &StoredRow, col: i32, op: i32, operand: &Value) -> (b: bool)
    requires
        OP_AL <= op <= OP_GE,
        col == 0 ==> op == OP_AL || op == OP_EQ || op == OP_NE,
        op != OP_AL && col != 0 ==> 1 <= col <= r.data@.len(),
    ensures
        b == row_matches(*r, col as int, op, *operand),
{
    if op == OP_AL {
        true
    } else if col == 0 {
        match operand {
            Value::Integer(x) => if op == OP_EQ {
                r.id == *x
            } else {
                r.id != *x
            },
            _ => false,
        }
    } else {
        let v = &r.data[(col - 1) as usize];
        if op == OP_EQ {
            value_eq_exec(v, operand)
        } else if op == OP_NE {
            !value_eq_exec(v, operand)
        } else if op == OP_LT {
            value_lt_exec(v, operand)
        } else if op == OP_GT {
            value_lt_exec(operand, v)
        } else if op == OP_LE {
            value_lt_exec(v, operand) || value_eq_exec(v, operand)
        } else {
            value_lt_exec(operand, v) || value_eq_exec(operand, v)
        }
    }
}

fn column_type_of(db: &Database, table_id: i32, col: i32) -> (r: ColumnType)
    requires
        db.table_ok(table_id as int),
        1 <= col <= db.cols(table_id as int).len(),
    ensures
        r == db.cols(table_id as int)[col - 1].c_type,
{
    db.tables[(table_id - 1) as usize].t_cols[(col - 1) as usize].c_type
}

/// Ids of the rows of table `table_id` whose column `column_id` (`0`: the row id) stands
/// in relation `operator` to `other`, in store order.
pub fn handle_query(db: &Database, table_id: i32, column_id: i32, operator: i32, other: Value) -> (r:
    Result<Vec<i64>, ErrorCode>)
    requires
        db.wf(),
    ensures
        match db.query_error(table_id, column_id, operator, other) {
            Some(e) => r == Err::<Vec<i64>, ErrorCode>(e),
            None => r is Ok && r->Ok_0@ == select(
                db.rows@,
                table_id as int,
                column_id as int,
                operator,
                other,
            ),
        },
{
    if !valid_table_id(db, table_id) {
        return Err(ErrorCode::BadTable);
    }
    if operator == OP_AL {
        if column_id != 0 {
            return Err(ErrorCode::BadQuery);
        }
    } else if operator < OP_EQ || operator > OP_GE {
        return Err(ErrorCode::BadQuery);
    } else if column_id == 0 {
        let is_int = match &other {
            Value::Integer(_) => true,
            _ => false,
        };
        if !((operator == OP_EQ || operator == OP_NE) && is_int) {
            return Err(ErrorCode::BadQuery);
        }
    } else {
        if column_id < 0 || column_id as usize > db.tables[(table_id - 1) as usize].t_cols.len() {
            return Err(ErrorCode::BadQuery);
        }
        let ty = column_type_of(db, table_id, column_id);
        if other.column_type() != ty {
            return Err(ErrorCode::BadQuery);
        }
        if operator >= OP_LT && !(ty == ColumnType::Integer || ty == ColumnType::Float || ty
            == ColumnType::Text) {
            return Err(ErrorCode::BadQuery);
        }
    }
    let mut res: Vec<i64> = Vec::new();
    let mut i: usize = 0;
    while i < db.rows.len()
        invariant
            db.wf(),
            db.query_error(table_id, column_id, operator, other) is None,
            i <= db.rows@.len(),
            res@ == select(db.rows@.subrange(0, i as int), table_id as int, column_id as int, operator, other),
        decreases db.rows@.len() - i,
    {
        let row = &db.rows[i];
        assert(db.rows@.subrange(0, i + 1).drop_last() =~= db.rows@.subrange(0, i as int));
        if row.table == table_id {
            assert(typed(db.cols(row.table as int), row.data@));
            if row_matches_exec(row, column_id, operator, &other) {
                res.push(row.id);
            }
        }
        i = i + 1;
    }
    assert(db.rows@.subrange(0, db.rows@.len() as int) =~= db.rows@);
    Ok(res)
}

impl Database {
    /// The error that validation of `vals` for table `t` refuses them with, if any.
    pub open spec fn values_error(&self, t: i32, vals: Seq<Value>) -> Option<ErrorCode> {
        if !self.table_ok(t as int) {
            Some(ErrorCode::BadTable)
        } else if vals.len() != self.cols(t as int).len() {
            Some(ErrorCode::BadRow)
        } else if !typed(self.cols(t as int), vals) {
            Some(ErrorCode::BadValue)
        } else if !resolved(self.rows@, self.cols(t as int), vals) {
            Some(ErrorCode::BadForeign)
        } else {
            None
        }
    }

    /// The error an insert is refused with, if any; the id space runs out at `i64::MAX`.
    pub open spec fn insert_error(&self, t: i32, vals: Seq<Value>) -> Option<ErrorCode> {
        match self.values_error(t, vals) {
            Some(e) => Some(e),
            None => if self.next == i64::MAX {
                Some(ErrorCode::ServerBusy)
            } else {
                None
            },
        }
    }

    /// Nothing observable differs between the two states.
    pub open spec fn same_as(&self, other: &Database) -> bool {
        &&& self.tables@ == other.tables@
        &&& self.rows@ == other.rows@
        &&& self.next == other.next
        &&& self.foreign@ == other.foreign@
    }
}

/// `after` is `before` with one more row at the end, `(t, id, version, vals)`.
pub open spec fn appended(before: Seq<StoredRow>, after: Seq<StoredRow>, t: i32, id: i64, version: i64, vals: Seq<Value>) -> bool {
    &&& after.len() == before.len() + 1
    &&& after.subrange(0, before.len() as int) == before
    &&& after.last().table == t
    &&& after.last().id == id
    &&& after.last().version == version
    &&& after.last().data@ == vals
}

fn validate(db: &Database, table_id: i32, values: &Vec<Value>) -> (r: Result<(), ErrorCode>)
    requires
        db.wf(),
    ensures
        match db.values_error(table_id, values@) {
            Some(e) => r == Err::<(), ErrorCode>(e),
            None => r is Ok,
        },
{
    if !valid_table_id(db, table_id) {
        return Err(ErrorCode::BadTable);
    }
    let cols = &db.tables[(table_id - 1) as usize].t_cols;
    if values.len() != cols.len() {
        return Err(ErrorCode::BadRow);
    }
    let mut i: usize = 0;
    while i < values.len()
        invariant
            db.wf(),
            db.table_ok(table_id as int),
            cols@ == db.cols(table_id as int),
            values@.len() == cols@.len(),
            i <= values@.len(),
            forall|c: int| 0 <= c < i ==> type_of(#[trigger] values@[c]) == cols@[c].c_type,
        decreases values@.len() - i,
    {
        if values[i].column_type() != cols[i].c_type {
            assert(type_of(values@[i as int]) != cols@[i as int].c_type);
            assert(!typed(db.cols(table_id as int), values@));
            assert(db.values_error(table_id, values@) == Some(ErrorCode::BadValue));
            return Err(ErrorCode::BadValue);
        }
        i = i + 1;
    }
    let mut i: usize = 0;
    while i < values.len()
        invariant
            db.wf(),
            db.table_ok(table_id as int),
            cols@ == db.cols(table_id as int),
            values@.len() == cols@.len(),
            typed(cols@, values@),
            i <= values@.len(),
            forall|c: int|
                0 <= c < i && ref_of(#[trigger] values@[c]) != 0 ==> holds_in(
                    db.rows@,
                    cols@[c].c_ref as int,
                    ref_of(values@[c]) as int,
                ),
        decreases values@.len() - i,
    {
        match &values[i] {
            Value::Foreign(v) => {
                if *v != 0 {
                    if find_row(&db.rows, cols[i].c_ref, *v).is_none() {
                        assert(ref_of(values@[i as int]) == *v);
                        assert(!resolved(db.rows@, db.cols(table_id as int), values@));
                        return Err(ErrorCode::BadForeign);
                    }
                }
            },
            _ => {},
        }
        i = i + 1;
    }
    Ok(())
}

/// Registers row `row` of table `table` under every row its values refer to.
fn link_row(foreign: &mut Vec<RefEdge>, table: i32, row: i64, data: &Vec<Value>)
    ensures
        forall|e: RefEdge| old(foreign)@.contains(e) ==> final(foreign)@.contains(e),
        forall|e: RefEdge|
            #[trigger] final(foreign)@.contains(e) ==> old(foreign)@.contains(e) || (e.table
                == table && e.row == row && refers(data@, e.target)),
        forall|c: int|
            0 <= c < data@.len() && ref_of(#[trigger] data@[c]) != 0 ==> final(foreign)@.contains(
                RefEdge { target: ref_of(data@[c]), table, row },
            ),
{
    let ghost start = foreign@;
    let mut i: usize = 0;
    while i < data.len()
        invariant
            i <= data@.len(),
            foreign@.len() >= start.len(),
            foreign@.subrange(0, start.len() as int) == start,
            forall|k: int| start.len() <= k < foreign@.len() ==> (#[trigger] foreign@[k]).table == table && foreign@[k].row == row && refers(data@, foreign@[k].target),
            forall|c: int|
                0 <= c < i && ref_of(#[trigger] data@[c]) != 0 ==> foreign@.contains(
                    RefEdge { target: ref_of(data@[c]), table, row },
                ),
        decreases data@.len() - i,
    {
        match &data[i] {
            Value::Foreign(v) => {
                if *v != 0 {
                    let e = RefEdge { target: *v, table, row };
                    let ghost prev = foreign@;
                    foreign.push(e);
                    assert(foreign@[foreign@.len() - 1] == e);
                    assert(ref_of(data@[i as int]) == *v);
                    assert(refers(data@, e.target));
                    assert(foreign@.contains(e));
                    assert forall|x: RefEdge| prev.contains(x) implies foreign@.contains(x) by {
                        let k = choose|k: int| 0 <= k < prev.len() && prev[k] == x;
                        assert(foreign@[k] == x);
                    }
                    assert(foreign@.subrange(0, start.len() as int) =~= start);
                }
            },
            _ => {},
        }
        i = i + 1;
    }
    proof {
        assert forall|e: RefEdge| start.contains(e) implies foreign@.contains(e) by {
            let k = choose|k: int| 0 <= k < start.len() && start[k] == e;
            assert(foreign@.subrange(0, start.len() as int)[k] == e);
        }
        assert forall|e: RefEdge| #[trigger] foreign@.contains(e) implies start.contains(e) || (e.table
            == table && e.row == row && refers(data@, e.target)) by {
            let k = choose|k: int| 0 <= k < foreign@.len() && foreign@[k] == e;
            if k < start.len() {
                assert(foreign@.subrange(0, start.len() as int)[k] == e);
            }
        }
    }
}

/// A successful insert of `vals` into table `t` took `before` to `after` and gave row id `id`.
pub open spec fn inserted(before: Database, after: Database, t: i32, vals: Seq<Value>, id: i64) -> bool {
    &&& before.wf()
    &&& after.wf()
    &&& before.insert_error(t, vals) is None
    &&& id == before.next
    &&& after.next == before.next + 1
    &&& after.tables@ == before.tables@
    &&& appended(before.rows@, after.rows@, t, id, 1, vals)
}

/// Adds a row to table `table_id`; returns its id, the row's version being `1`.
pub fn handle_insert(db: &mut Database, table_id: i32, values: Vec<Value>) -> (r: Result<
    i64,
    ErrorCode,
>)
    requires
        old(db).wf(),
    ensures
        final(db).wf(),
        final(db).tables@ == old(db).tables@,
        match old(db).insert_error(table_id, values@) {
            Some(e) => r == Err::<i64, ErrorCode>(e) && final(db).same_as(old(db)),
            None => {
                &&& r == Ok::<i64, ErrorCode>(old(db).next)
                &&& final(db).next == old(db).next + 1
                &&& appended(old(db).rows@, final(db).rows@, table_id, old(db).next, 1, values@)
            },
        },
        r is Ok ==> inserted(*old(db), *final(db), table_id, values@, r->Ok_0),
{
    match validate(db, table_id, &values) {
        Err(e) => return Err(e),
        Ok(()) => {},
    }
    if db.next == i64::MAX {
        return Err(ErrorCode::ServerBusy);
    }
    let ghost o = db.rows@;
    let ghost of = db.foreign@;
    let ghost vals = values@;
    let id = db.next;
    db.next = id + 1;
    link_row(&mut db.foreign, table_id, id, &values);
    db.rows.push(StoredRow { table: table_id, id, version: 1, data: values });
    proof {
        let n = db.rows@;
        assert(n.subrange(0, o.len() as int) =~= o);
        assert forall|a: int, b: int| 0 <= a < b < n.len() implies n[a].id < n[b].id by {
            assert(n[a] == o[a]);
            if b < o.len() {
                assert(n[b] == o[b]);
            }
        }
        assert forall|t: int, x: int| holds_in(o, t, x) implies holds_in(n, t, x) by {
            let k = choose|k: int| 0 <= k < o.len() && o[k].table == t && o[k].id == x;
            assert(n[k] == o[k]);
        }
        assert forall|i: int| 0 <= i < n.len() implies resolved(n, db.cols(#[trigger] n[i].table as int), n[i].data@) by {
            if i < o.len() {
                assert(n[i] == o[i]);
            }
        }
        assert forall|i: int, c: int|
            0 <= i < n.len() && 0 <= c < n[i].data@.len() && ref_of(#[trigger] n[i].data@[c]) != 0 implies db.foreign@.contains(
            RefEdge { target: ref_of(n[i].data@[c]), table: n[i].table, row: n[i].id }) by {
            if i < o.len() {
                assert(n[i] == o[i]);
            }
        }
        assert forall|k: int| 0 <= k < db.foreign@.len() implies registered_edge(n, #[trigger] db.foreign@[k]) by {
            let e = db.foreign@[k];
            assert(db.foreign@.contains(e));
            if of.contains(e) {
                let m = choose|m: int| 0 <= m < of.len() && of[m] == e;
                assert(registered_edge(o, of[m]));
                let i = choose|i: int| 0 <= i < o.len() && o[i].table == e.table && o[i].id == e.row && refers(o[i].data@, e.target);
                assert(n[i] == o[i]);
            } else {
                assert(n[o.len() as int].data@ == vals);
            }
        }
    }
    Ok(id)
}

/// Removes every index entry registered by row `row` of table `table`.
fn unlink_source(foreign: &mut Vec<RefEdge>, table: i32, row: i64)
    ensures
        forall|e: RefEdge|
            #[trigger] final(foreign)@.contains(e) <==> old(foreign)@.contains(e) && !(e.table
                == table && e.row == row),
{
    let mut kept: Vec<RefEdge> = Vec::new();
    let mut i: usize = 0;
    while i < foreign.len()
        invariant
            i <= foreign@.len(),
            forall|k: int|
                0 <= k < kept@.len() ==> foreign@.contains(#[trigger] kept@[k]) && !(kept@[k].table
                    == table && kept@[k].row == row),
            forall|k: int|
                0 <= k < i && !((#[trigger] foreign@[k]).table == table && foreign@[k].row == row)
                    ==> kept@.contains(foreign@[k]),
        decreases foreign@.len() - i,
    {
        let e = foreign[i];
        if !(e.table == table && e.row == row) {
            let ghost prev = kept@;
            kept.push(e);
            assert(kept@[kept@.len() - 1] == e);
            assert forall|x: RefEdge| prev.contains(x) implies kept@.contains(x) by {
                let k = choose|k: int| 0 <= k < prev.len() && prev[k] == x;
                assert(kept@[k] == x);
            }
        }
        i = i + 1;
    }
    proof {
        assert forall|e: RefEdge| #[trigger] kept@.contains(e) <==> foreign@.contains(e) && !(e.table
            == table && e.row == row) by {
            if kept@.contains(e) {
                let k = choose|k: int| 0 <= k < kept@.len() && kept@[k] == e;
            }
            if foreign@.contains(e) && !(e.table == table && e.row == row) {
                let k = choose|k: int| 0 <= k < foreign@.len() && foreign@[k] == e;
            }
        }
    }
    *foreign = kept;
}

/// Removes every index entry registered under row `target`; returns the
/// (table, row) pairs of those entries.
fn take_dependents(foreign: &mut Vec<RefEdge>, target: i64) -> (r: Vec<(i32, i64)>)
    ensures
        forall|e: RefEdge|
            #[trigger] final(foreign)@.contains(e) <==> old(foreign)@.contains(e) && e.target != target,
        forall|e: RefEdge|
            #[trigger] old(foreign)@.contains(e) && e.target == target ==> r@.contains((e.table, e.row)),
        forall|k: int|
            0 <= k < r@.len() ==> old(foreign)@.contains(
                RefEdge { target, table: (#[trigger] r@[k]).0, row: r@[k].1 },
            ),
{
    let mut kept: Vec<RefEdge> = Vec::new();
    let mut deps: Vec<(i32, i64)> = Vec::new();
    let mut i: usize = 0;
    while i < foreign.len()
        invariant
            i <= foreign@.len(),
            forall|k: int|
                0 <= k < kept@.len() ==> foreign@.contains(#[trigger] kept@[k]) && kept@[k].target != target,
            forall|k: int|
                0 <= k < i && (#[trigger] foreign@[k]).target != target ==> kept@.contains(foreign@[k]),
            forall|k: int|
                0 <= k < i && (#[trigger] foreign@[k]).target == target ==> deps@.contains((foreign@[k].table, foreign@[k].row)),
            forall|k: int|
                0 <= k < deps@.len() ==> foreign@.contains(
                    RefEdge { target, table: (#[trigger] deps@[k]).0, row: deps@[k].1 },
                ),
        decreases foreign@.len() - i,
    {
        let e = foreign[i];
        if e.target != target {
            let ghost prev = kept@;
            kept.push(e);
            assert(kept@[kept@.len() - 1] == e);
            assert forall|x: RefEdge| prev.contains(x) implies kept@.contains(x) by {
                let k = choose|k: int| 0 <= k < prev.len() && prev[k] == x;
                assert(kept@[k] == x);
            }
        } else {
            let ghost prev = deps@;
            deps.push((e.table, e.row));
            assert(deps@[deps@.len() - 1] == (e.table, e.row));
            assert(foreign@[i as int] == RefEdge { target, table: e.table, row: e.row });
            assert forall|x: (i32, i64)| prev.contains(x) implies deps@.contains(x) by {
                let k = choose|k: int| 0 <= k < prev.len() && prev[k] == x;
                assert(deps@[k] == x);
            }
        }
        i = i + 1;
    }
    proof {
        assert forall|e: RefEdge| #[trigger] kept@.contains(e) <==> foreign@.contains(e) && e.target != target by {
            if kept@.contains(e) {
                let k = choose|k: int| 0 <= k < kept@.len() && kept@[k] == e;
            }
            if foreign@.contains(e) && e.target != target {
                let k = choose|k: int| 0 <= k < foreign@.len() && foreign@[k] == e;
            }
        }
        assert forall|e: RefEdge| #[trigger] foreign@.contains(e) && e.target == target implies deps@.contains((e.table, e.row)) by {
            let k = choose|k: int| 0 <= k < foreign@.len() && foreign@[k] == e;
        }
    }
    *foreign = kept;
    deps
}

/// Two row sequences that hold the same (table, id) at every position hold the same rows.
proof fn lemma_same_keys(o: Seq<StoredRow>, n: Seq<StoredRow>)
    requires
        o.len() == n.len(),
        forall|k: int| 0 <= k < o.len() ==> o[k].table == n[k].table && o[k].id == n[k].id,
    ensures
        forall|t: int, x: int| holds_in(o, t, x) == holds_in(n, t, x),
{
    assert forall|t: int, x: int| holds_in(o, t, x) == holds_in(n, t, x) by {
        if holds_in(o, t, x) {
            let k = choose|k: int| 0 <= k < o.len() && o[k].table == t && o[k].id == x;
            assert(n[k].table == t && n[k].id == x);
        }
        if holds_in(n, t, x) {
            let k = choose|k: int| 0 <= k < n.len() && n[k].table == t && n[k].id == x;
            assert(o[k].table == t && o[k].id == x);
        }
    }
}

impl Database {
    /// Position of row `id` of table `t`, where `holds(t, id)`.
    pub open spec fn index_of(&self, t: int, id: int) -> int {
        choose|i: int| 0 <= i < self.rows@.len() && self.rows@[i].table == t && self.rows@[i].id == id
    }

    /// Current version of row `id` of table `t`, where `holds(t, id)`.
    pub open spec fn version_of(&self, t: int, id: int) -> i64 {
        self.rows@[self.index_of(t, id)].version
    }

    /// The error an update is refused with, if any; a version that has reached
    /// `i64::MAX` cannot be advanced and the update is refused as a conflict.
    pub open spec fn update_error(&self, t: i32, id: i64, expected: i64, vals: Seq<Value>) -> Option<ErrorCode> {
        match self.values_error(t, vals) {
            Some(e) => Some(e),
            None => if !self.holds(t as int, id as int) {
                Some(ErrorCode::NotFound)
            } else if expected != 0 && expected != self.version_of(t as int, id as int) {
                Some(ErrorCode::TxnAbort)
            } else if self.version_of(t as int, id as int) == i64::MAX {
                Some(ErrorCode::TxnAbort)
            } else {
                None
            },
        }
    }
}

/// `after` is `before` with the row at `k` given version `version` and values `vals`.
pub open spec fn replaced(before: Seq<StoredRow>, after: Seq<StoredRow>, k: int, version: i64, vals: Seq<Value>) -> bool {
    &&& after.len() == before.len()
    &&& forall|j: int| 0 <= j < before.len() && j != k ==> after[j] == before[j]
    &&& after[k].table == before[k].table
    &&& after[k].id == before[k].id
    &&& after[k].version == version
    &&& after[k].data@ == vals
}

/// A successful update of row `id` of table `t` took `before` to `after` and gave version `v`.
pub open spec fn updated(before: Database, after: Database, t: i32, id: i64, expected: i64, vals: Seq<Value>, v: i64) -> bool {
    &&& before.wf()
    &&& after.wf()
    &&& before.update_error(t, id, expected, vals) is None
    &&& v == before.version_of(t as int, id as int) + 1
    &&& after.tables@ == before.tables@
    &&& after.next == before.next
    &&& replaced(before.rows@, after.rows@, before.index_of(t as int, id as int), v, vals)
}

/// Replaces the values of row `object_id` of table `table_id` and advances its version;
/// `version` other than `0` must equal the row's current version. Returns the new version.
pub fn handle_update(db: &mut Database, table_id: i32, object_id: i64, version: i64, values: Vec<Value>) -> (r: Result<i64, ErrorCode>)
    requires
        old(db).wf(),
    ensures
        final(db).wf(),
        final(db).tables@ == old(db).tables@,
        final(db).next == old(db).next,
        match old(db).update_error(table_id, object_id, version, values@) {
            Some(e) => r == Err::<i64, ErrorCode>(e) && final(db).same_as(old(db)),
            None => {
                let k = old(db).index_of(table_id as int, object_id as int);
                &&& r == Ok::<i64, ErrorCode>((old(db).version_of(table_id as int, object_id as int) + 1) as i64)
                &&& replaced(old(db).rows@, final(db).rows@, k, (old(db).version_of(table_id as int, object_id as int) + 1) as i64, values@)
            },
        },
        r is Ok ==> updated(*old(db), *final(db), table_id, object_id, version, values@, r->Ok_0),
{
    match validate(db, table_id, &values) {
        Err(e) => return Err(e),
        Ok(()) => {},
    }
    let k = match find_row(&db.rows, table_id, object_id) {
        None => return Err(ErrorCode::NotFound),
        Some(k) => k,
    };
    proof {
        let j = db.index_of(table_id as int, object_id as int);
        if j != k as int {
            if j < k { assert(db.rows@[j].id < db.rows@[k as int].id); }
            else { assert(db.rows@[k as int].id < db.rows@[j].id); }
        }
    }
    let current = db.rows[k].version;
    if version != 0 && version != current {
        return Err(ErrorCode::TxnAbort);
    }
    if current == i64::MAX {
        return Err(ErrorCode::TxnAbort);
    }
    let ghost o = db.rows@;
    let ghost of = db.foreign@;
    let ghost vals = values@;
    unlink_source(&mut db.foreign, table_id, object_id);
    link_row(&mut db.foreign, table_id, object_id, &values);
    db.rows.set(k, StoredRow { table: table_id, id: object_id, version: current + 1, data: values });
    proof {
        let n = db.rows@;
        lemma_same_keys(o, n);
        assert forall|i: int| 0 <= i < n.len() implies resolved(n, db.cols(#[trigger] n[i].table as int), n[i].data@) by {
            if i != k {
                assert(n[i] == o[i]);
                assert(resolved(o, db.cols(o[i].table as int), o[i].data@));
            }
        }
        assert forall|i: int, c: int|
            0 <= i < n.len() && 0 <= c < n[i].data@.len() && ref_of(#[trigger] n[i].data@[c]) != 0 implies db.foreign@.contains(
            RefEdge { target: ref_of(n[i].data@[c]), table: n[i].table, row: n[i].id }) by {
            if i != k {
                assert(n[i] == o[i]);
                if i < k { assert(o[i].id < o[k as int].id); }
                else { assert(o[k as int].id < o[i].id); }
            }
        }
        assert forall|m: int| 0 <= m < db.foreign@.len() implies registered_edge(n, #[trigger] db.foreign@[m]) by {
            let e = db.foreign@[m];
            assert(db.foreign@.contains(e));
            if e.table == table_id && e.row == object_id && refers(vals, e.target) {
                assert(n[k as int].data@ == vals);
            } else {
                let q = choose|q: int| 0 <= q < of.len() && of[q] == e;
                assert(registered_edge(o, of[q]));
                let i = choose|i: int| 0 <= i < o.len() && o[i].table == e.table && o[i].id == e.row && refers(o[i].data@, e.target);
                assert(i != k);
                assert(n[i] == o[i]);
            }
        }
    }
    Ok(current + 1)
}

/// What removing the row at `i` does to which rows are held, ids being unique.
proof fn lemma_remove_holds(o: Seq<StoredRow>, i: int)
    requires
        0 <= i < o.len(),
        ids_increasing(o),
    ensures
        ids_increasing(o.remove(i)),
        forall|t: int, x: int| #[trigger] holds_in(o.remove(i), t, x) ==> holds_in(o, t, x),
        forall|t: int, x: int| x != o[i].id && #[trigger] holds_in(o, t, x) ==> holds_in(o.remove(i), t, x),
        forall|t: int| #[trigger] holds_in(o, t, o[i].id as int) ==> t == o[i].table,
        forall|t: int| !(#[trigger] holds_in(o.remove(i), t, o[i].id as int)),
{
    let n = o.remove(i);
    assert forall|a: int, b: int| 0 <= a < b < n.len() implies n[a].id < n[b].id by {
        let a2 = if a < i { a } else { a + 1 };
        let b2 = if b < i { b } else { b + 1 };
        assert(n[a] == o[a2] && n[b] == o[b2]);
    }
    assert forall|t: int, x: int| #[trigger] holds_in(n, t, x) implies holds_in(o, t, x) by {
        let k = choose|k: int| 0 <= k < n.len() && n[k].table == t && n[k].id == x;
        let k2 = if k < i { k } else { k + 1 };
        assert(n[k] == o[k2]);
    }
    assert forall|t: int, x: int| x != o[i].id && #[trigger] holds_in(o, t, x) implies holds_in(n, t, x) by {
        let k = choose|k: int| 0 <= k < o.len() && o[k].table == t && o[k].id == x;
        if k < i {
            assert(n[k] == o[k]);
        } else {
            assert(k != i);
            assert(n[k - 1] == o[k]);
        }
    }
    assert forall|t: int| #[trigger] holds_in(o, t, o[i].id as int) implies t == o[i].table by {
        let k = choose|k: int| 0 <= k < o.len() && o[k].table == t && o[k].id == o[i].id;
        if k < i { assert(o[k].id < o[i].id); }
        if k > i { assert(o[i].id < o[k].id); }
    }
    assert forall|t: int| !(#[trigger] holds_in(n, t, o[i].id as int)) by {
        if holds_in(n, t, o[i].id as int) {
            let k = choose|k: int| 0 <= k < n.len() && n[k].table == t && n[k].id == o[i].id;
            if k < i {
                assert(n[k] == o[k]);
                assert(o[k].id < o[i].id);
            } else {
                assert(n[k] == o[k + 1]);
                assert(o[i].id < o[k + 1].id);
            }
        }
    }
}

/// Every non-zero foreign value either resolves and is indexed, or its row is pending removal.
pub open spec fn pending_ok(db: &Database, work: Seq<(i32, i64)>) -> bool {
    forall|i: int, c: int|
        0 <= i < db.rows@.len() && 0 <= c < db.rows@[i].data@.len() && ref_of(#[trigger] db.rows@[i].data@[c]) != 0 ==> {
            ||| (holds_in(db.rows@, db.cols(db.rows@[i].table as int)[c].c_ref as int, ref_of(db.rows@[i].data@[c]) as int)
                && db.foreign@.contains(RefEdge { target: ref_of(db.rows@[i].data@[c]), table: db.rows@[i].table, row: db.rows@[i].id }))
            ||| work.contains((db.rows@[i].table, db.rows@[i].id))
        }
}

/// Row `a` has a non-zero foreign value naming row `b`.
pub open spec fn cites(rows: Seq<StoredRow>, a: i64, b: i64) -> bool {
    exists|i: int| 0 <= i < rows.len() && rows[i].id == a && refers(rows[i].data@, b)
}

/// Row `a` is row `x` or leads to it through a chain of at most `n` references.
pub open spec fn reaches(rows: Seq<StoredRow>, a: i64, x: i64, n: nat) -> bool
    decreases n,
{
    if n == 0 {
        a == x
    } else {
        reaches(rows, a, x, (n - 1) as nat) || exists|b: i64|
            #[trigger] cites(rows, a, b) && reaches(rows, b, x, (n - 1) as nat)
    }
}

/// A successful drop of row `id` of table `t` took `before` to `after`: the row is gone,
/// every remaining row was there before, and the database is consistent.
pub open spec fn dropped(before: Database, after: Database, t: i32, id: i64) -> bool {
    &&& before.wf()
    &&& after.wf()
    &&& before.table_ok(t as int)
    &&& before.holds(t as int, id as int)
    &&& !after.holds(t as int, id as int)
    &&& after.tables@ == before.tables@
    &&& forall|i: int| 0 <= i < after.rows@.len() ==> before.rows@.contains(#[trigger] after.rows@[i])
    &&& forall|k: int|
        0 <= k < before.rows@.len() && !after.rows@.contains(#[trigger] before.rows@[k]) ==> exists|n: nat|
            reaches(before.rows@, before.rows@[k].id, id, n)
}

/// Removes row `object_id` of table `table_id` and, transitively, every row that refers to a removed row.
pub fn handle_drop(db: &mut Database, table_id: i32, object_id: i64) -> (r: Result<(), ErrorCode>)
    requires
        old(db).wf(),
    ensures
        final(db).wf(),
        final(db).tables@ == old(db).tables@,
        final(db).next == old(db).next,
        !old(db).table_ok(table_id as int) ==> r == Err::<(), ErrorCode>(ErrorCode::BadTable) && final(db).same_as(old(db)),
        old(db).table_ok(table_id as int) && !old(db).holds(table_id as int, object_id as int) ==> r == Err::<(), ErrorCode>(ErrorCode::NotFound) && final(db).same_as(old(db)),
        old(db).table_ok(table_id as int) && old(db).holds(table_id as int, object_id as int) ==> {
            &&& r is Ok
            &&& !final(db).holds(table_id as int, object_id as int)
            &&& forall|i: int| 0 <= i < final(db).rows@.len() ==> old(db).rows@.contains(#[trigger] final(db).rows@[i])
            &&& forall|k: int|
                0 <= k < old(db).rows@.len() && !final(db).rows@.contains(#[trigger] old(db).rows@[k]) ==> exists|n: nat|
                    reaches(old(db).rows@, old(db).rows@[k].id, object_id, n)
        },
        r is Ok ==> dropped(*old(db), *final(db), table_id, object_id),
{
    if !valid_table_id(db, table_id) {
        return Err(ErrorCode::BadTable);
    }
    if find_row(&db.rows, table_id, object_id).is_none() {
        return Err(ErrorCode::NotFound);
    }
    let ghost orig = db.rows@;
    let mut work: Vec<(i32, i64)> = Vec::new();
    work.push((table_id, object_id));
    assert(work@[0] == (table_id, object_id));
    let ghost mut depth: Seq<nat> = seq![0nat];
    let ghost mut gone: Seq<nat> = Seq::new(orig.len(), |k: int| 0nat);
    assert(reaches(orig, work@[0].1, object_id, depth[0]));
    assert forall|k: int| 0 <= k < orig.len() implies db.rows@.contains(#[trigger] orig[k]) by {
        assert(db.rows@[k] == orig[k]);
    }
    while work.len() > 0
        invariant
            db.wf_rows(),
            db.tables@ == old(db).tables@,
            db.next == old(db).next,
            orig == old(db).rows@,
            pending_ok(db, work@),
            registered(db.rows@, db.foreign@),
            db.holds(table_id as int, object_id as int) ==> work@.contains((table_id, object_id)),
            forall|i: int| 0 <= i < db.rows@.len() ==> orig.contains(#[trigger] db.rows@[i]),
            depth.len() == work@.len(),
            forall|k: int| 0 <= k < work@.len() ==> reaches(orig, (#[trigger] work@[k]).1, object_id, depth[k]),
            gone.len() == orig.len(),
            forall|k: int|
                0 <= k < orig.len() && !db.rows@.contains(#[trigger] orig[k]) ==> reaches(orig, orig[k].id, object_id, gone[k]),
        decreases db.rows@.len(), work@.len(),
    {
        let ghost w = work@;
        let (t, r) = work.pop().unwrap();
        assert(w.last() == (t, r));
        assert forall|x: (i32, i64)| w.contains(x) && x != (t, r) implies work@.contains(x) by {
            let k = choose|k: int| 0 <= k < w.len() && w[k] == x;
            assert(k != w.len() - 1);
            assert(work@[k] == x);
        }
        assert(w[w.len() - 1] == (t, r));
        let ghost rn = depth[w.len() - 1];
        assert(reaches(orig, r, object_id, rn));
        proof {
            depth = depth.drop_last();
        }
        assert forall|k: int| 0 <= k < work@.len() implies reaches(orig, (#[trigger] work@[k]).1, object_id, depth[k]) by {
            assert(work@[k] == w[k]);
        }
        match find_row(&db.rows, t, r) {
            None => {
                assert forall|i: int| 0 <= i < db.rows@.len() implies (#[trigger] db.rows@[i].table, db.rows@[i].id) != (t, r) by {}
            },
            Some(i) => {
                let ghost o = db.rows@;
                let ghost of = db.foreign@;
                let ghost wp = work@;
                let ghost dp = depth;
                proof { lemma_remove_holds(o, i as int); }
                db.rows.remove(i);
                unlink_source(&mut db.foreign, t, r);
                let ghost mid = db.foreign@;
                let mut deps = take_dependents(&mut db.foreign, r);
                let ghost ds = deps@;
                work.append(&mut deps);
                proof {
                    let n = db.rows@;
                    assert forall|x: (i32, i64)| wp.contains(x) implies work@.contains(x) by {
                        let k = choose|k: int| 0 <= k < wp.len() && wp[k] == x;
                        assert(work@[k] == x);
                    }
                    assert forall|x: (i32, i64)| ds.contains(x) implies work@.contains(x) by {
                        let k = choose|k: int| 0 <= k < ds.len() && ds[k] == x;
                        assert(work@[wp.len() + k] == x);
                    }
                    assert forall|m: int| 0 <= m < db.foreign@.len() implies registered_edge(n, #[trigger] db.foreign@[m]) by {
                        let e = db.foreign@[m];
                        assert(db.foreign@.contains(e));
                        assert(mid.contains(e));
                        let q = choose|q: int| 0 <= q < of.len() && of[q] == e;
                        assert(registered_edge(o, of[q]));
                        let j = choose|j: int| 0 <= j < o.len() && o[j].table == e.table && o[j].id == e.row && refers(o[j].data@, e.target);
                        assert(j != i);
                        if j < i {
                            assert(n[j] == o[j]);
                        } else {
                            assert(n[j - 1] == o[j]);
                        }
                    }
                    depth = dp + Seq::new(ds.len(), |k: int| (rn + 1) as nat);
                    assert forall|k: int| 0 <= k < work@.len() implies reaches(orig, (#[trigger] work@[k]).1, object_id, depth[k]) by {
                        if k < wp.len() {
                            assert(work@[k] == wp[k]);
                        } else {
                            let d = ds[k - wp.len()];
                            assert(work@[k] == d);
                            let e = RefEdge { target: r, table: d.0, row: d.1 };
                            assert(mid.contains(e));
                            let q = choose|q: int| 0 <= q < of.len() && of[q] == e;
                            assert(registered_edge(o, of[q]));
                            let j = choose|j: int| 0 <= j < o.len() && o[j].table == e.table && o[j].id == e.row && refers(o[j].data@, r);
                            assert(orig.contains(o[j]));
                            let g = choose|g: int| 0 <= g < orig.len() && orig[g] == o[j];
                            assert(cites(orig, d.1, r));
                            assert(reaches(orig, d.1, object_id, (rn + 1) as nat));
                        }
                    }
                    let gp = gone;
                    gone = Seq::new(orig.len(), |k: int| if orig[k] == o[i as int] { rn } else { gp[k] });
                    assert forall|k: int|
                        0 <= k < orig.len() && !n.contains(#[trigger] orig[k]) implies reaches(orig, orig[k].id, object_id, gone[k]) by {
                        if o.contains(orig[k]) {
                            let j = choose|j: int| 0 <= j < o.len() && o[j] == orig[k];
                            if j < i {
                                assert(n[j] == o[j]);
                            } else if j > i {
                                assert(n[j - 1] == o[j]);
                            }
                        }
                    }
                    assert forall|j: int| 0 <= j < n.len() implies orig.contains(#[trigger] n[j]) by {
                        let j2 = if j < i { j } else { j + 1 };
                        assert(n[j] == o[j2]);
                    }
                    assert forall|j: int, c: int|
                        0 <= j < n.len() && 0 <= c < n[j].data@.len() && ref_of(#[trigger] n[j].data@[c]) != 0 implies {
                            ||| (holds_in(n, db.cols(n[j].table as int)[c].c_ref as int, ref_of(n[j].data@[c]) as int)
                                && db.foreign@.contains(RefEdge { target: ref_of(n[j].data@[c]), table: n[j].table, row: n[j].id }))
                            ||| work@.contains((n[j].table, n[j].id))
                        } by {
                        let j2 = if j < i { j } else { j + 1 };
                        assert(n[j] == o[j2]);
                        assert(j2 != i);
                        if j2 < i { assert(o[j2].id < o[i as int].id); } else { assert(o[i as int].id < o[j2].id); }
                        let v = ref_of(n[j].data@[c]);
                        let rt = db.cols(n[j].table as int)[c].c_ref as int;
                        let e = RefEdge { target: v, table: n[j].table, row: n[j].id };
                        if w.contains((n[j].table, n[j].id)) {
                            assert(wp.contains((n[j].table, n[j].id)));
                        } else {
                            assert(holds_in(o, rt, v as int) && of.contains(e));
                            assert(mid.contains(e));
                            if v == r {
                                assert(ds.contains((e.table, e.row)));
                            } else {
                                assert(holds_in(n, rt, v as int));
                            }
                        }
                    }
                }
            },
        }
    }
    proof {
        assert forall|k: int|
            0 <= k < orig.len() && !db.rows@.contains(#[trigger] orig[k]) implies exists|m: nat| reaches(orig, orig[k].id, object_id, m) by {
            assert(reaches(orig, orig[k].id, object_id, gone[k]));
        }
        assert forall|i: int| 0 <= i < db.rows@.len() implies resolved(db.rows@, db.cols((#[trigger] db.rows@[i]).table as int), db.rows@[i].data@) by {
            assert forall|c: int| 0 <= c < db.rows@[i].data@.len() && ref_of(#[trigger] db.rows@[i].data@[c]) != 0 implies holds_in(
                db.rows@, db.cols(db.rows@[i].table as int)[c].c_ref as int, ref_of(db.rows@[i].data@[c]) as int) by {
                assert(!work@.contains((db.rows@[i].table, db.rows@[i].id)));
            }
        }
        assert forall|i: int, c: int|
            0 <= i < db.rows@.len() && 0 <= c < db.rows@[i].data@.len() && ref_of(#[trigger] db.rows@[i].data@[c]) != 0 implies db.foreign@.contains(
            RefEdge { target: ref_of(db.rows@[i].data@[c]), table: db.rows@[i].table, row: db.rows@[i].id }) by {
            assert(!work@.contains((db.rows@[i].table, db.rows@[i].id)));
        }
    }
    Ok(())
}

/// What answering `req` in state `before` does: the response `resp` and the state `after`.
pub open spec fn request_outcome(before: Database, req: Request, resp: Response, after: Database) -> bool {
    let t = req.table_id;
    &&& after.wf()
    &&& match req.command {
        Command::Insert(vals) => match before.insert_error(t, vals@) {
            Some(e) => resp == Response::Error(e) && after.same_as(&before),
            None => resp == Response::Insert(before.next, 1) && inserted(before, after, t, vals@, before.next),
        },
        Command::Update(id, ev, vals) => match before.update_error(t, id, ev, vals@) {
            Some(e) => resp == Response::Error(e) && after.same_as(&before),
            None => {
                let v = (before.version_of(t as int, id as int) + 1) as i64;
                resp == Response::Update(v) && updated(before, after, t, id, ev, vals@, v)
            },
        },
        Command::Drop(id) => if !before.table_ok(t as int) {
            resp == Response::Error(ErrorCode::BadTable) && after.same_as(&before)
        } else if !before.holds(t as int, id as int) {
            resp == Response::Error(ErrorCode::NotFound) && after.same_as(&before)
        } else {
            resp == Response::Drop && dropped(before, after, t, id) && after.next == before.next
        },
        Command::Get(id) => after.same_as(&before) && if !before.table_ok(t as int) {
            resp == Response::Error(ErrorCode::BadTable)
        } else if !before.holds(t as int, id as int) {
            resp == Response::Error(ErrorCode::NotFound)
        } else {
            let k = before.index_of(t as int, id as int);
            resp is Get && resp->Get_0 == before.rows@[k].version && resp->Get_1@ == before.rows@[k].data@
        },
        Command::Query(col, op, operand) => after.same_as(&before) && match before.query_error(t, col, op, operand) {
            Some(e) => resp == Response::Error(e),
            None => resp is Query && resp->Query_0@ == select(before.rows@, t as int, col as int, op, operand),
        },
        Command::Exit => resp == Response::Error(ErrorCode::Unimplemented) && after.same_as(&before),
    }
}

/// Answers one request against the database.
pub fn handle_request(request: Request, db: &mut Database) -> (r: Response)
    requires
        old(db).wf(),
    ensures
        request_outcome(*old(db), request, r, *final(db)),
        final(db).next >= old(db).next,
{
    let table_id = request.table_id;
    let result = match request.command {
        Command::Insert(values) => match handle_insert(db, table_id, values) {
            Ok(id) => Ok(Response::Insert(id, 1)),
            Err(e) => Err(e),
        },
        Command::Update(id, version, values) => match handle_update(db, table_id, id, version, values) {
            Ok(v) => Ok(Response::Update(v)),
            Err(e) => Err(e),
        },
        Command::Drop(id) => match handle_drop(db, table_id, id) {
            Ok(()) => Ok(Response::Drop),
            Err(e) => Err(e),
        },
        Command::Get(id) => {
            let res = handle_get(db, table_id, id);
            proof {
                if db.table_ok(table_id as int) && db.holds(table_id as int, id as int) {
                    let k = db.index_of(table_id as int, id as int);
                    let j = choose|i: int| 0 <= i < db.rows@.len() && db.rows@[i].table == table_id && db.rows@[i].id == id
                        && res->Ok_0.0 == db.rows@[i].version && res->Ok_0.1@ == db.rows@[i].data@;
                    if j < k { assert(db.rows@[j].id < db.rows@[k].id); }
                    if k < j { assert(db.rows@[k].id < db.rows@[j].id); }
                }
            }
            match res {
                Ok((version, values)) => Ok(Response::Get(version, values)),
                Err(e) => Err(e),
            }
        },
        Command::Query(column_id, operator, other) => match handle_query(db, table_id, column_id, operator, other) {
            Ok(ids) => Ok(Response::Query(ids)),
            Err(e) => Err(e),
        },
        Command::Exit => Err(ErrorCode::Unimplemented),
    };
    match result {
        Ok(response) => response,
        Err(code) => Response::Error(code),
    }
}

} // verus!
