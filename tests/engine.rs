use easydb::database::{handle_drop, handle_get, handle_insert, handle_query, handle_request, handle_update, Database};
use easydb::packet::{Command, ErrorCode, Request, Response, OP_AL, OP_EQ, OP_GE, OP_GT, OP_LE, OP_LT, OP_NE};
use easydb::schema::{Column, Table};
use easydb::session::{session_step, Admission, SessionStep};
use easydb::value::{ColumnType, Value};

fn col(name: &str, c_type: ColumnType, c_ref: i32) -> Column {
    Column { c_name: name.to_string(), c_type, c_ref }
}

fn table(name: &str, cols: Vec<Column>) -> Table {
    Table { t_name: name.to_string(), t_cols: cols }
}

fn int_db() -> Database {
    Database::new(vec![table("t", vec![col("n", ColumnType::Integer, 0)])])
}

/// Table 1: (name text, score float); table 2: (owner -> table 1, note text);
/// table 3: (parent -> table 2).
fn linked_db() -> Database {
    Database::new(vec![
        table("a", vec![col("name", ColumnType::Text, 0), col("score", ColumnType::Float, 0)]),
        table("b", vec![col("owner", ColumnType::Foreign, 1), col("note", ColumnType::Text, 0)]),
        table("c", vec![col("parent", ColumnType::Foreign, 2)]),
    ])
}

fn a_row(name: &str, score: f64) -> Vec<Value> {
    vec![Value::Text(name.to_string()), Value::Float(score.to_bits())]
}

#[test]
fn query_examples_on_integer_table() {
    let mut db = int_db();
    assert_eq!(handle_insert(&mut db, 1, vec![Value::Integer(10)]), Ok(1));
    assert_eq!(handle_insert(&mut db, 1, vec![Value::Integer(20)]), Ok(2));
    assert_eq!(handle_insert(&mut db, 1, vec![Value::Integer(10)]), Ok(3));
    assert_eq!(handle_query(&db, 1, 1, OP_EQ, Value::Integer(10)), Ok(vec![1, 3]));
    assert_eq!(handle_query(&db, 1, 1, OP_GT, Value::Integer(10)), Ok(vec![2]));
    assert_eq!(handle_query(&db, 1, 0, OP_AL, Value::Null), Ok(vec![1, 2, 3]));
    assert_eq!(handle_query(&db, 1, 1, OP_NE, Value::Integer(10)), Ok(vec![2]));
    assert_eq!(handle_query(&db, 1, 1, OP_LT, Value::Integer(20)), Ok(vec![1, 3]));
    assert_eq!(handle_query(&db, 1, 1, OP_LE, Value::Integer(20)), Ok(vec![1, 2, 3]));
    assert_eq!(handle_query(&db, 1, 1, OP_GE, Value::Integer(20)), Ok(vec![2]));
}

#[test]
fn query_by_row_id() {
    let mut db = int_db();
    for v in [10, 20, 30] {
        assert!(handle_insert(&mut db, 1, vec![Value::Integer(v)]).is_ok());
    }
    assert_eq!(handle_query(&db, 1, 0, OP_EQ, Value::Integer(2)), Ok(vec![2]));
    assert_eq!(handle_query(&db, 1, 0, OP_NE, Value::Integer(2)), Ok(vec![1, 3]));
    assert_eq!(handle_query(&db, 1, 0, OP_EQ, Value::Text("2".to_string())), Err(ErrorCode::BadQuery));
}

#[test]
fn query_row_id_with_ordering_is_bad_query() {
    let db = int_db();
    assert_eq!(handle_query(&db, 1, 0, OP_LT, Value::Integer(1)), Err(ErrorCode::BadQuery));
}

#[test]
fn query_foreign_column_with_ordering_is_bad_query() {
    let db = linked_db();
    assert_eq!(handle_query(&db, 2, 1, OP_GT, Value::Foreign(1)), Err(ErrorCode::BadQuery));
    assert_eq!(handle_query(&db, 2, 1, OP_EQ, Value::Foreign(1)), Ok(vec![]));
}

#[test]
fn query_errors() {
    let db = int_db();
    assert_eq!(handle_query(&db, 2, 0, OP_AL, Value::Null), Err(ErrorCode::BadTable));
    assert_eq!(handle_query(&db, 0, 0, OP_AL, Value::Null), Err(ErrorCode::BadTable));
    assert_eq!(handle_query(&db, 1, 1, OP_AL, Value::Null), Err(ErrorCode::BadQuery));
    assert_eq!(handle_query(&db, 1, 2, OP_EQ, Value::Integer(1)), Err(ErrorCode::BadQuery));
    assert_eq!(handle_query(&db, 1, -1, OP_EQ, Value::Integer(1)), Err(ErrorCode::BadQuery));
    assert_eq!(handle_query(&db, 1, 1, OP_EQ, Value::Text("x".to_string())), Err(ErrorCode::BadQuery));
    assert_eq!(handle_query(&db, 1, 1, 9, Value::Integer(1)), Err(ErrorCode::BadQuery));
    assert_eq!(handle_query(&db, 1, 1, 0, Value::Integer(1)), Err(ErrorCode::BadQuery));
}

#[test]
fn query_text_and_float_columns() {
    let mut db = linked_db();
    assert_eq!(handle_insert(&mut db, 1, a_row("bob", 2.5)), Ok(1));
    assert_eq!(handle_insert(&mut db, 1, a_row("alice", -1.0)), Ok(2));
    assert_eq!(handle_insert(&mut db, 1, a_row("bobby", 0.0)), Ok(3));
    assert_eq!(handle_insert(&mut db, 1, a_row("Zed", f64::NAN)), Ok(4));
    assert_eq!(handle_query(&db, 1, 1, OP_LT, Value::Text("bob".to_string())), Ok(vec![2, 4]));
    assert_eq!(handle_query(&db, 1, 1, OP_GT, Value::Text("bob".to_string())), Ok(vec![3]));
    assert_eq!(handle_query(&db, 1, 1, OP_GE, Value::Text("bob".to_string())), Ok(vec![1, 3]));
    assert_eq!(handle_query(&db, 1, 2, OP_LT, Value::Float(0.0f64.to_bits())), Ok(vec![2]));
    assert_eq!(handle_query(&db, 1, 2, OP_LE, Value::Float((-0.0f64).to_bits())), Ok(vec![2, 3]));
    assert_eq!(handle_query(&db, 1, 2, OP_EQ, Value::Float((-0.0f64).to_bits())), Ok(vec![3]));
    assert_eq!(handle_query(&db, 1, 2, OP_GT, Value::Float((-5.0f64).to_bits())), Ok(vec![1, 2, 3]));
    assert_eq!(handle_query(&db, 1, 2, OP_NE, Value::Float(f64::NAN.to_bits())), Ok(vec![1, 2, 3, 4]));
    assert_eq!(handle_query(&db, 1, 2, OP_EQ, Value::Float(f64::NAN.to_bits())), Ok(vec![]));
}

#[test]
fn insert_dangling_foreign_is_bad_foreign() {
    let mut db = linked_db();
    let r = handle_insert(&mut db, 2, vec![Value::Foreign(42), Value::Text("n".to_string())]);
    assert_eq!(r, Err(ErrorCode::BadForeign));
    assert_eq!(handle_query(&db, 2, 0, OP_AL, Value::Null), Ok(vec![]));
    assert_eq!(db.next, 1);
}

#[test]
fn insert_errors() {
    let mut db = linked_db();
    assert_eq!(handle_insert(&mut db, 4, a_row("x", 1.0)), Err(ErrorCode::BadTable));
    assert_eq!(handle_insert(&mut db, 1, vec![Value::Text("x".to_string())]), Err(ErrorCode::BadRow));
    assert_eq!(
        handle_insert(&mut db, 1, vec![Value::Text("x".to_string()), Value::Integer(1)]),
        Err(ErrorCode::BadValue)
    );
    assert_eq!(handle_insert(&mut db, 1, vec![Value::Null, Value::Float(0)]), Err(ErrorCode::BadValue));
    assert_eq!(handle_insert(&mut db, 2, vec![Value::Foreign(0), Value::Text("n".to_string())]), Ok(1));
    // a reference to a row of the wrong table does not resolve
    assert_eq!(handle_insert(&mut db, 3, vec![Value::Foreign(1)]), Ok(2));
    assert_eq!(handle_insert(&mut db, 2, vec![Value::Foreign(2), Value::Text("n".to_string())]), Err(ErrorCode::BadForeign));
}

#[test]
fn drop_cascades_to_referencing_rows() {
    let mut db = linked_db();
    assert_eq!(handle_insert(&mut db, 1, a_row("x", 1.0)), Ok(1));
    assert_eq!(handle_insert(&mut db, 2, vec![Value::Foreign(1), Value::Text("n".to_string())]), Ok(2));
    assert_eq!(handle_drop(&mut db, 1, 1), Ok(()));
    assert_eq!(handle_get(&db, 1, 1).unwrap_err(), ErrorCode::NotFound);
    assert_eq!(handle_get(&db, 2, 2).unwrap_err(), ErrorCode::NotFound);
    assert!(db.rows.is_empty());
}

#[test]
fn drop_cascades_transitively_and_keeps_others() {
    let mut db = linked_db();
    assert_eq!(handle_insert(&mut db, 1, a_row("x", 1.0)), Ok(1));
    assert_eq!(handle_insert(&mut db, 1, a_row("y", 1.0)), Ok(2));
    assert_eq!(handle_insert(&mut db, 2, vec![Value::Foreign(1), Value::Text("n".to_string())]), Ok(3));
    assert_eq!(handle_insert(&mut db, 2, vec![Value::Foreign(2), Value::Text("n".to_string())]), Ok(4));
    assert_eq!(handle_insert(&mut db, 3, vec![Value::Foreign(3)]), Ok(5));
    assert_eq!(handle_insert(&mut db, 3, vec![Value::Foreign(4)]), Ok(6));
    assert_eq!(handle_insert(&mut db, 3, vec![Value::Foreign(0)]), Ok(7));
    assert_eq!(handle_drop(&mut db, 1, 1), Ok(()));
    let ids: Vec<i64> = db.rows.iter().map(|r| r.id).collect();
    assert_eq!(ids, vec![2, 4, 6, 7]);
    assert!(db.foreign.iter().all(|e| e.target != 1 && e.target != 3));
}

#[test]
fn drop_errors() {
    let mut db = int_db();
    assert_eq!(handle_drop(&mut db, 2, 1), Err(ErrorCode::BadTable));
    assert_eq!(handle_drop(&mut db, 1, 1), Err(ErrorCode::NotFound));
    assert_eq!(handle_insert(&mut db, 1, vec![Value::Integer(1)]), Ok(1));
    assert_eq!(handle_drop(&mut db, 1, 1), Ok(()));
    assert_eq!(handle_drop(&mut db, 1, 1), Err(ErrorCode::NotFound));
    // ids are never reused
    assert_eq!(handle_insert(&mut db, 1, vec![Value::Integer(1)]), Ok(2));
}

#[test]
fn get_nonexistent_is_not_found() {
    let db = int_db();
    assert_eq!(handle_get(&db, 1, 7).unwrap_err(), ErrorCode::NotFound);
    assert_eq!(handle_get(&db, 3, 7).unwrap_err(), ErrorCode::BadTable);
}

#[test]
fn get_returns_version_and_values() {
    let mut db = linked_db();
    assert_eq!(handle_insert(&mut db, 1, a_row("x", 1.5)), Ok(1));
    let (version, values) = handle_get(&db, 1, 1).unwrap();
    assert_eq!(version, 1);
    assert!(matches!(&values[0], Value::Text(s) if s == "x"));
    assert!(matches!(values[1], Value::Float(b) if b == 1.5f64.to_bits()));
    // the row is held in table 1 only
    assert_eq!(handle_get(&db, 2, 1).unwrap_err(), ErrorCode::NotFound);
}

#[test]
fn ids_unique_across_tables() {
    let mut db = linked_db();
    let mut seen = Vec::new();
    for i in 0..5 {
        seen.push(handle_insert(&mut db, 1, a_row("x", i as f64)).unwrap());
        seen.push(handle_insert(&mut db, 2, vec![Value::Foreign(0), Value::Text("n".to_string())]).unwrap());
    }
    let mut sorted = seen.clone();
    sorted.sort();
    sorted.dedup();
    assert_eq!(sorted.len(), seen.len());
    assert_eq!(seen, vec![1, 2, 3, 4, 5, 6, 7, 8, 9, 10]);
}

#[test]
fn versions_count_updates() {
    let mut db = int_db();
    assert_eq!(handle_insert(&mut db, 1, vec![Value::Integer(1)]), Ok(1));
    for k in 1..5i64 {
        assert_eq!(handle_update(&mut db, 1, 1, 0, vec![Value::Integer(k)]), Ok(k + 1));
        assert_eq!(handle_get(&db, 1, 1).unwrap().0, k + 1);
    }
    assert_eq!(handle_update(&mut db, 1, 1, 5, vec![Value::Integer(9)]), Ok(6));
    let (version, values) = handle_get(&db, 1, 1).unwrap();
    assert_eq!(version, 6);
    assert!(matches!(values[0], Value::Integer(9)));
}

#[test]
fn stale_version_aborts_without_change() {
    let mut db = int_db();
    assert_eq!(handle_insert(&mut db, 1, vec![Value::Integer(1)]), Ok(1));
    assert_eq!(handle_update(&mut db, 1, 1, 1, vec![Value::Integer(2)]), Ok(2));
    assert_eq!(handle_update(&mut db, 1, 1, 1, vec![Value::Integer(3)]), Err(ErrorCode::TxnAbort));
    let (version, values) = handle_get(&db, 1, 1).unwrap();
    assert_eq!(version, 2);
    assert!(matches!(values[0], Value::Integer(2)));
}

#[test]
fn update_errors() {
    let mut db = linked_db();
    assert_eq!(handle_insert(&mut db, 1, a_row("x", 1.0)), Ok(1));
    assert_eq!(handle_update(&mut db, 0, 1, 0, a_row("y", 1.0)), Err(ErrorCode::BadTable));
    assert_eq!(handle_update(&mut db, 1, 1, 0, vec![Value::Null]), Err(ErrorCode::BadRow));
    assert_eq!(handle_update(&mut db, 1, 1, 0, vec![Value::Null, Value::Null]), Err(ErrorCode::BadValue));
    assert_eq!(handle_update(&mut db, 1, 9, 0, a_row("y", 1.0)), Err(ErrorCode::NotFound));
    assert_eq!(
        handle_update(&mut db, 2, 1, 0, vec![Value::Foreign(5), Value::Text("n".to_string())]),
        Err(ErrorCode::BadForeign)
    );
}

#[test]
fn update_moves_index_entries() {
    let mut db = linked_db();
    assert_eq!(handle_insert(&mut db, 1, a_row("x", 1.0)), Ok(1));
    assert_eq!(handle_insert(&mut db, 1, a_row("y", 1.0)), Ok(2));
    assert_eq!(handle_insert(&mut db, 2, vec![Value::Foreign(1), Value::Text("n".to_string())]), Ok(3));
    assert_eq!(handle_update(&mut db, 2, 3, 0, vec![Value::Foreign(2), Value::Text("n".to_string())]), Ok(2));
    // row 3 no longer depends on row 1
    assert_eq!(handle_drop(&mut db, 1, 1), Ok(()));
    assert_eq!(handle_get(&db, 2, 3).unwrap().0, 2);
    assert_eq!(handle_drop(&mut db, 1, 2), Ok(()));
    assert_eq!(handle_get(&db, 2, 3).unwrap_err(), ErrorCode::NotFound);
}

#[test]
fn request_dispatch() {
    let mut db = int_db();
    let r = handle_request(Request { table_id: 1, command: Command::Insert(vec![Value::Integer(4)]) }, &mut db);
    assert!(matches!(r, Response::Insert(1, 1)));
    let r = handle_request(Request { table_id: 1, command: Command::Update(1, 1, vec![Value::Integer(5)]) }, &mut db);
    assert!(matches!(r, Response::Update(2)));
    let r = handle_request(Request { table_id: 1, command: Command::Get(1) }, &mut db);
    assert!(matches!(r, Response::Get(2, ref v) if matches!(v[0], Value::Integer(5))));
    let r = handle_request(Request { table_id: 1, command: Command::Query(0, OP_AL, Value::Null) }, &mut db);
    assert!(matches!(r, Response::Query(ref ids) if ids == &vec![1]));
    let r = handle_request(Request { table_id: 1, command: Command::Drop(1) }, &mut db);
    assert!(matches!(r, Response::Drop));
    let r = handle_request(Request { table_id: 1, command: Command::Get(1) }, &mut db);
    assert!(matches!(r, Response::Error(ErrorCode::NotFound)));
    let r = handle_request(Request { table_id: 1, command: Command::Exit }, &mut db);
    assert!(matches!(r, Response::Error(ErrorCode::Unimplemented)));
}

#[test]
fn admission_rejects_beyond_bound() {
    let mut adm = Admission::new(4);
    for _ in 0..4 {
        assert!(matches!(adm.greet(), Response::Connected));
    }
    assert!(matches!(adm.greet(), Response::Error(ErrorCode::ServerBusy)));
    assert_eq!(adm.active, 4);
    adm.release();
    assert!(adm.try_admit());
    assert!(!adm.try_admit());
    let mut none = Admission::new(0);
    none.release();
    assert_eq!(none.active, 0);
    assert!(!none.try_admit());
}

#[test]
fn session_steps() {
    let mut db = int_db();
    assert!(matches!(session_step(&mut db, None), SessionStep::ReplyAndClose(Response::Error(ErrorCode::BadRequest))));
    assert!(matches!(
        session_step(&mut db, Some(Request { table_id: 1, command: Command::Exit })),
        SessionStep::Close
    ));
    let step = session_step(&mut db, Some(Request { table_id: 1, command: Command::Insert(vec![Value::Integer(1)]) }));
    assert!(matches!(step, SessionStep::Reply(Response::Insert(1, 1))));
    let step = session_step(&mut db, Some(Request { table_id: 5, command: Command::Get(1) }));
    assert!(matches!(step, SessionStep::Reply(Response::Error(ErrorCode::BadTable))));
}

fn step(db: &mut Database, table_id: i32, command: Command) -> Response {
    match session_step(db, Some(Request { table_id, command })) {
        SessionStep::Reply(r) => r,
        _ => panic!("expected a reply"),
    }
}

#[test]
fn session_runs_query_examples() {
    let mut db = int_db();
    for v in [10, 20, 10] {
        assert!(matches!(step(&mut db, 1, Command::Insert(vec![Value::Integer(v)])), Response::Insert(_, 1)));
    }
    assert!(matches!(step(&mut db, 1, Command::Query(1, OP_EQ, Value::Integer(10))), Response::Query(ref v) if v == &vec![1, 3]));
    assert!(matches!(step(&mut db, 1, Command::Query(1, OP_GT, Value::Integer(10))), Response::Query(ref v) if v == &vec![2]));
    assert!(matches!(step(&mut db, 1, Command::Query(0, OP_AL, Value::Null)), Response::Query(ref v) if v == &vec![1, 2, 3]));
    assert!(matches!(step(&mut db, 1, Command::Query(0, OP_LT, Value::Integer(2))), Response::Error(ErrorCode::BadQuery)));
}

#[test]
fn failed_insert_consumes_no_id() {
    let mut db = Database::new(vec![
        table("a", vec![col("n", ColumnType::Integer, 0)]),
        table("b", vec![col("r", ColumnType::Foreign, 1)]),
    ]);
    assert!(matches!(step(&mut db, 2, Command::Insert(vec![Value::Foreign(42)])), Response::Error(ErrorCode::BadForeign)));
    assert!(matches!(step(&mut db, 2, Command::Query(0, OP_AL, Value::Null)), Response::Query(ref v) if v.is_empty()));
    assert!(matches!(step(&mut db, 1, Command::Insert(vec![Value::Integer(5)])), Response::Insert(1, 1)));
}

#[test]
fn drop_breaks_reference_cycle() {
    let mut db = Database::new(vec![table("a", vec![col("r", ColumnType::Foreign, 1)])]);
    assert_eq!(handle_insert(&mut db, 1, vec![Value::Foreign(0)]), Ok(1));
    assert_eq!(handle_insert(&mut db, 1, vec![Value::Foreign(1)]), Ok(2));
    assert_eq!(handle_update(&mut db, 1, 1, 0, vec![Value::Foreign(2)]), Ok(2));
    assert_eq!(handle_insert(&mut db, 1, vec![Value::Foreign(0)]), Ok(3));
    assert_eq!(handle_drop(&mut db, 1, 2), Ok(()));
    let ids: Vec<i64> = db.rows.iter().map(|r| r.id).collect();
    assert_eq!(ids, vec![3]);
    assert!(db.foreign.is_empty());
}

#[test]
fn drop_self_referencing_row() {
    let mut db = Database::new(vec![table("a", vec![col("r", ColumnType::Foreign, 1)])]);
    assert_eq!(handle_insert(&mut db, 1, vec![Value::Foreign(0)]), Ok(1));
    assert_eq!(handle_update(&mut db, 1, 1, 1, vec![Value::Foreign(1)]), Ok(2));
    assert_eq!(handle_drop(&mut db, 1, 1), Ok(()));
    assert!(db.rows.is_empty());
    assert!(db.foreign.is_empty());
}

#[test]
fn update_checked_against_own_table() {
    let mut db = Database::new(vec![
        table("a", vec![col("n", ColumnType::Integer, 0)]),
        table("b", vec![col("s", ColumnType::Text, 0)]),
    ]);
    assert_eq!(handle_insert(&mut db, 2, vec![Value::Text("x".to_string())]), Ok(1));
    assert_eq!(handle_update(&mut db, 2, 1, 0, vec![Value::Integer(3)]), Err(ErrorCode::BadValue));
    assert_eq!(handle_update(&mut db, 2, 1, 0, vec![Value::Text("y".to_string())]), Ok(2));
}
