use snail_core::executor::{row_key, Engine, ExecError, QueryResult};
use snail_core::sql::lexer::Lexer;
use snail_core::sql::parser::Parser;
use snail_core::storage::Storage;
use std::sync::atomic::{AtomicU64, Ordering};
use std::time::{SystemTime, UNIX_EPOCH};

static COUNTER: AtomicU64 = AtomicU64::new(0);

fn temp_path(tag: &str) -> String {
    let n = COUNTER.fetch_add(1, Ordering::SeqCst);
    let nanos = SystemTime::now().duration_since(UNIX_EPOCH).unwrap().as_nanos();
    format!("/tmp/snaildb_exec_{}_{}_{}.redb", tag, nanos, n)
}

fn temp_engine(tag: &str) -> Engine {
    Engine::open(&temp_path(tag)).unwrap()
}

fn try_run(engine: &mut Engine, sql: &str) -> Result<QueryResult, ExecError> {
    let tokens = Lexer::new(sql).tokenize().unwrap();
    let stmt = Parser::new(tokens).parse().unwrap();
    engine.execute_checked(stmt).unwrap()
}

fn run(engine: &mut Engine, sql: &str) -> QueryResult {
    try_run(engine, sql).unwrap()
}

#[test]
fn create_table() {
    let mut engine = temp_engine("create");
    let result = run(&mut engine, "CREATE TABLE users (id INTEGER, name TEXT)");
    assert!(result.message.unwrap().contains("created"));
}

#[test]
fn insert_and_select_star() {
    let mut engine = temp_engine("star");
    run(&mut engine, "CREATE TABLE users (id INTEGER, name TEXT)");
    run(&mut engine, "INSERT INTO users (id, name) VALUES (1, 'Alice')");
    run(&mut engine, "INSERT INTO users (id, name) VALUES (2, 'Bob')");
    let result = run(&mut engine, "SELECT * FROM users");
    assert_eq!(result.rows.len(), 2);
}

#[test]
fn select_named_columns() {
    let mut engine = temp_engine("named");
    run(&mut engine, "CREATE TABLE users (id INTEGER, name TEXT)");
    run(&mut engine, "INSERT INTO users (id, name) VALUES (1, 'Alice')");
    let result = run(&mut engine, "SELECT name FROM users");
    assert_eq!(result.columns, vec!["name"]);
    assert_eq!(result.rows[0][0], Some("Alice".to_string()));
}

#[test]
fn where_integer_filter() {
    let mut engine = temp_engine("wint");
    run(&mut engine, "CREATE TABLE users (id INTEGER, name TEXT, age INTEGER)");
    run(&mut engine, "INSERT INTO users (id, name, age) VALUES (1, 'Alice', 30)");
    run(&mut engine, "INSERT INTO users (id, name, age) VALUES (2, 'Bob', 20)");
    let result = run(&mut engine, "SELECT * FROM users WHERE age > 25");
    assert_eq!(result.rows.len(), 1);
}

#[test]
fn where_text_filter() {
    let mut engine = temp_engine("wtext");
    run(&mut engine, "CREATE TABLE users (id INTEGER, name TEXT)");
    run(&mut engine, "INSERT INTO users (id, name) VALUES (1, 'Alice')");
    run(&mut engine, "INSERT INTO users (id, name) VALUES (2, 'Bob')");
    let result = run(&mut engine, "SELECT * FROM users WHERE name = 'Alice'");
    assert_eq!(result.rows.len(), 1);
}

#[test]
fn where_and_filter() {
    let mut engine = temp_engine("wand");
    run(&mut engine, "CREATE TABLE users (id INTEGER, name TEXT, age INTEGER)");
    run(&mut engine, "INSERT INTO users (id, name, age) VALUES (1, 'Alice', 30)");
    run(&mut engine, "INSERT INTO users (id, name, age) VALUES (2, 'Bob', 30)");
    run(&mut engine, "INSERT INTO users (id, name, age) VALUES (3, 'Alice', 20)");
    let result = run(&mut engine, "SELECT * FROM users WHERE name = 'Alice' AND age = 30");
    assert_eq!(result.rows.len(), 1);
}

#[test]
fn where_or_filter() {
    let mut engine = temp_engine("wor");
    run(&mut engine, "CREATE TABLE users (id INTEGER, name TEXT, age INTEGER)");
    run(&mut engine, "INSERT INTO users (id, name, age) VALUES (1, 'Alice', 30)");
    run(&mut engine, "INSERT INTO users (id, name, age) VALUES (2, 'Bob', 20)");
    run(&mut engine, "INSERT INTO users (id, name, age) VALUES (3, 'Carol', 25)");
    let result = run(&mut engine, "SELECT * FROM users WHERE age = 30 OR age = 20");
    assert_eq!(result.rows.len(), 2);
}

#[test]
fn multi_row_insert() {
    let mut engine = temp_engine("multi");
    run(&mut engine, "CREATE TABLE users (id INTEGER, name TEXT)");
    run(&mut engine, "INSERT INTO users (id, name) VALUES (1, 'Alice'), (2, 'Bob'), (3, 'Carol')");
    let result = run(&mut engine, "SELECT * FROM users");
    assert_eq!(result.rows.len(), 3);
}

#[test]
fn update_row() {
    let mut engine = temp_engine("update");
    run(&mut engine, "CREATE TABLE users (id INTEGER, name TEXT, age INTEGER)");
    run(&mut engine, "INSERT INTO users (id, name, age) VALUES (1, 'Alice', 30)");
    run(&mut engine, "UPDATE users SET age = 31 WHERE id = 1");
    let result = run(&mut engine, "SELECT * FROM users WHERE id = 1");
    assert_eq!(result.rows[0][2], Some("31".to_string()));
}

#[test]
fn delete_row() {
    let mut engine = temp_engine("delete");
    run(&mut engine, "CREATE TABLE users (id INTEGER, name TEXT)");
    run(&mut engine, "INSERT INTO users (id, name) VALUES (1, 'Alice')");
    run(&mut engine, "INSERT INTO users (id, name) VALUES (2, 'Bob')");
    run(&mut engine, "DELETE FROM users WHERE id = 1");
    let result = run(&mut engine, "SELECT * FROM users");
    assert_eq!(result.rows.len(), 1);
}

#[test]
fn delete_all_rows() {
    let mut engine = temp_engine("delall");
    run(&mut engine, "CREATE TABLE users (id INTEGER, name TEXT)");
    run(&mut engine, "INSERT INTO users (id, name) VALUES (1, 'Alice')");
    run(&mut engine, "INSERT INTO users (id, name) VALUES (2, 'Bob')");
    run(&mut engine, "DELETE FROM users");
    let result = run(&mut engine, "SELECT * FROM users");
    assert_eq!(result.rows.len(), 0);
}

#[test]
fn order_by_asc() {
    let mut engine = temp_engine("asc");
    run(&mut engine, "CREATE TABLE users (id INTEGER, name TEXT, age INTEGER)");
    run(&mut engine, "INSERT INTO users (id, name, age) VALUES (1, 'Alice', 30)");
    run(&mut engine, "INSERT INTO users (id, name, age) VALUES (2, 'Bob', 20)");
    run(&mut engine, "INSERT INTO users (id, name, age) VALUES (3, 'Carol', 25)");
    let result = run(&mut engine, "SELECT * FROM users ORDER BY age ASC");
    assert_eq!(result.rows[0][2], Some("20".to_string()));
    assert_eq!(result.rows[2][2], Some("30".to_string()));
}

#[test]
fn order_by_desc() {
    let mut engine = temp_engine("desc");
    run(&mut engine, "CREATE TABLE users (id INTEGER, name TEXT, age INTEGER)");
    run(&mut engine, "INSERT INTO users (id, name, age) VALUES (1, 'Alice', 30)");
    run(&mut engine, "INSERT INTO users (id, name, age) VALUES (2, 'Bob', 20)");
    run(&mut engine, "INSERT INTO users (id, name, age) VALUES (3, 'Carol', 25)");
    let result = run(&mut engine, "SELECT * FROM users ORDER BY age DESC");
    assert_eq!(result.rows[0][2], Some("30".to_string()));
    assert_eq!(result.rows[2][2], Some("20".to_string()));
}

#[test]
fn limit() {
    let mut engine = temp_engine("limit");
    run(&mut engine, "CREATE TABLE users (id INTEGER, name TEXT)");
    run(&mut engine, "INSERT INTO users (id, name) VALUES (1, 'Alice'), (2, 'Bob'), (3, 'Carol')");
    let result = run(&mut engine, "SELECT * FROM users LIMIT 2");
    assert_eq!(result.rows.len(), 2);
}

#[test]
fn order_by_and_limit() {
    let mut engine = temp_engine("oblimit");
    run(&mut engine, "CREATE TABLE users (id INTEGER, name TEXT, age INTEGER)");
    run(&mut engine, "INSERT INTO users (id, name, age) VALUES (1, 'Alice', 30)");
    run(&mut engine, "INSERT INTO users (id, name, age) VALUES (2, 'Bob', 20)");
    run(&mut engine, "INSERT INTO users (id, name, age) VALUES (3, 'Carol', 25)");
    let result = run(&mut engine, "SELECT * FROM users ORDER BY age DESC LIMIT 2");
    assert_eq!(result.rows.len(), 2);
    assert_eq!(result.rows[0][2], Some("30".to_string()));
}

#[test]
fn inner_join() {
    let mut engine = temp_engine("inner");
    run(&mut engine, "CREATE TABLE users (id INTEGER, name TEXT)");
    run(&mut engine, "CREATE TABLE orders (id INTEGER, user_id INTEGER, amount INTEGER)");
    run(&mut engine, "INSERT INTO users (id, name) VALUES (1, 'Alice'), (2, 'Bob')");
    run(
        &mut engine,
        "INSERT INTO orders (id, user_id, amount) VALUES (1, 1, 100), (2, 1, 200), (3, 2, 50)",
    );
    let result = run(
        &mut engine,
        "SELECT users.name, orders.amount FROM users INNER JOIN orders ON users.id = orders.user_id",
    );
    assert_eq!(result.rows.len(), 3);
}

#[test]
fn inner_join_filters_non_matching() {
    let mut engine = temp_engine("innerf");
    run(&mut engine, "CREATE TABLE users (id INTEGER, name TEXT)");
    run(&mut engine, "CREATE TABLE orders (id INTEGER, user_id INTEGER, amount INTEGER)");
    run(&mut engine, "INSERT INTO users (id, name) VALUES (1, 'Alice'), (2, 'Bob'), (3, 'Carol')");
    run(&mut engine, "INSERT INTO orders (id, user_id, amount) VALUES (1, 1, 100)");
    let result = run(
        &mut engine,
        "SELECT users.name, orders.amount FROM users INNER JOIN orders ON users.id = orders.user_id",
    );
    assert_eq!(result.rows.len(), 1);
}

#[test]
fn left_join_keeps_non_matching() {
    let mut engine = temp_engine("left");
    run(&mut engine, "CREATE TABLE users (id INTEGER, name TEXT)");
    run(&mut engine, "CREATE TABLE orders (id INTEGER, user_id INTEGER, amount INTEGER)");
    run(&mut engine, "INSERT INTO users (id, name) VALUES (1, 'Alice'), (2, 'Bob')");
    run(&mut engine, "INSERT INTO orders (id, user_id, amount) VALUES (1, 1, 100)");
    let result = run(
        &mut engine,
        "SELECT users.name, orders.amount FROM users LEFT JOIN orders ON users.id = orders.user_id",
    );
    assert_eq!(result.rows.len(), 2);
    let bob_row = result.rows.iter().find(|r| r[0] == Some("Bob".to_string())).unwrap();
    assert_eq!(bob_row[1], Some("NULL".to_string()));
}

// ── Further cases ────────────────────────────────────────────────────────────

#[test]
fn messages() {
    let mut engine = temp_engine("msg");
    let r = run(&mut engine, "CREATE TABLE t (a INTEGER)");
    assert_eq!(r.message, Some("Table 't' created.".to_string()));
    assert!(r.columns.is_empty() && r.rows.is_empty());
    let r = run(&mut engine, "INSERT INTO t (a) VALUES (1), (2)");
    assert_eq!(r.message, Some("2 row(s) inserted.".to_string()));
    let r = run(&mut engine, "UPDATE t SET a = 5 WHERE a = 1");
    assert_eq!(r.message, Some("1 row(s) updated.".to_string()));
    let r = run(&mut engine, "DELETE FROM t");
    assert_eq!(r.message, Some("2 row(s) deleted.".to_string()));
}

#[test]
fn select_star_columns_and_values() {
    let mut engine = temp_engine("cols");
    run(&mut engine, "CREATE TABLE users (id INTEGER, name TEXT, age INTEGER)");
    run(&mut engine, "INSERT INTO users (name, id) VALUES ('Ann', 7)");
    let r = run(&mut engine, "SELECT * FROM users");
    assert_eq!(r.columns, vec!["id", "name", "age"]);
    assert_eq!(r.rows, vec![vec![Some("7".to_string()), Some("Ann".to_string()), None]]);
    assert_eq!(r.message, None);
}

#[test]
fn duplicate_create_is_error() {
    let mut engine = temp_engine("dupcreate");
    run(&mut engine, "CREATE TABLE t (a INTEGER)");
    let e = try_run(&mut engine, "CREATE TABLE t (a INTEGER)").unwrap_err();
    assert!(matches!(e, ExecError::Catalog(_)));
}

#[test]
fn insert_into_missing_table_is_error() {
    let mut engine = temp_engine("missing");
    let e = try_run(&mut engine, "INSERT INTO nope (a) VALUES (1)").unwrap_err();
    assert!(matches!(e, ExecError::TableNotFound(t) if t == "nope"));
}

#[test]
fn select_missing_table_is_error() {
    let mut engine = temp_engine("selmissing");
    let e = try_run(&mut engine, "SELECT * FROM nope").unwrap_err();
    assert!(matches!(e, ExecError::TableNotFound(t) if t == "nope"));
}

#[test]
fn wrong_value_count_is_error() {
    let mut engine = temp_engine("count");
    run(&mut engine, "CREATE TABLE t (a INTEGER, b TEXT)");
    let e = try_run(&mut engine, "INSERT INTO t (a, b) VALUES (1, 'x'), (2)").unwrap_err();
    assert!(matches!(e, ExecError::ColumnCountMismatch { expected: 2, got: 1 }));
    let r = run(&mut engine, "SELECT * FROM t");
    assert_eq!(r.rows.len(), 0);
}

#[test]
fn unknown_column_is_error() {
    let mut engine = temp_engine("unknown");
    run(&mut engine, "CREATE TABLE t (a INTEGER)");
    let e = try_run(&mut engine, "INSERT INTO t (z) VALUES (1)").unwrap_err();
    assert!(matches!(e, ExecError::ColumnNotFound(c, t) if c == "z" && t == "t"));
    let e = try_run(&mut engine, "UPDATE t SET z = 1").unwrap_err();
    assert!(matches!(e, ExecError::ColumnNotFound(c, t) if c == "z" && t == "t"));
}

#[test]
fn text_that_is_not_an_integer_is_error() {
    let mut engine = temp_engine("mismatch");
    run(&mut engine, "CREATE TABLE t (a INTEGER)");
    let e = try_run(&mut engine, "INSERT INTO t (a) VALUES (5), ('x1')").unwrap_err();
    match e {
        ExecError::TypeMismatch { col, expected, got } => {
            assert_eq!(col, "a");
            assert_eq!(expected, "INTEGER");
            assert_eq!(got, "'x1'");
        }
        _ => panic!("wrong error"),
    }
    // the row before the failing one stays inserted
    let r = run(&mut engine, "SELECT * FROM t");
    assert_eq!(r.rows, vec![vec![Some("5".to_string())]]);
}

#[test]
fn values_are_coerced_to_column_types() {
    let mut engine = temp_engine("coerce");
    run(&mut engine, "CREATE TABLE t (n INTEGER, s TEXT)");
    run(&mut engine, "INSERT INTO t (n, s) VALUES ('-42', 17), (NULL, NULL), ('+8', 'x')");
    let r = run(&mut engine, "SELECT n, s FROM t");
    assert_eq!(
        r.rows,
        vec![
            vec![Some("-42".to_string()), Some("17".to_string())],
            vec![Some("NULL".to_string()), Some("NULL".to_string())],
            vec![Some("8".to_string()), Some("x".to_string())],
        ]
    );
}

#[test]
fn text_comparisons_use_string_order() {
    let mut engine = temp_engine("textcmp");
    run(&mut engine, "CREATE TABLE t (s TEXT)");
    run(&mut engine, "INSERT INTO t (s) VALUES ('apple'), ('Banana'), ('cherry')");
    let r = run(&mut engine, "SELECT s FROM t WHERE s < 'b' ORDER BY s ASC");
    assert_eq!(r.rows, vec![vec![Some("Banana".to_string())], vec![Some("apple".to_string())]]);
}

#[test]
fn order_by_keeps_ties_in_insertion_order() {
    let mut engine = temp_engine("stable");
    run(&mut engine, "CREATE TABLE t (k INTEGER, v TEXT)");
    run(&mut engine, "INSERT INTO t (k, v) VALUES (2, 'a'), (1, 'b'), (2, 'c'), (1, 'd')");
    let r = run(&mut engine, "SELECT v FROM t ORDER BY k ASC");
    let vs: Vec<String> = r.rows.iter().map(|row| row[0].clone().unwrap()).collect();
    assert_eq!(vs, vec!["b", "d", "a", "c"]);
    let r = run(&mut engine, "SELECT v FROM t ORDER BY k DESC, v DESC");
    let vs: Vec<String> = r.rows.iter().map(|row| row[0].clone().unwrap()).collect();
    assert_eq!(vs, vec!["c", "a", "d", "b"]);
}

#[test]
fn missing_column_in_where_is_false() {
    let mut engine = temp_engine("wmissing");
    run(&mut engine, "CREATE TABLE t (a INTEGER)");
    run(&mut engine, "INSERT INTO t (a) VALUES (1)");
    let r = run(&mut engine, "SELECT * FROM t WHERE zzz = 1");
    assert_eq!(r.rows.len(), 0);
    let r = run(&mut engine, "SELECT * FROM t WHERE a = 'x'");
    assert_eq!(r.rows.len(), 0);
}

#[test]
fn limit_larger_than_rows() {
    let mut engine = temp_engine("biglimit");
    run(&mut engine, "CREATE TABLE t (a INTEGER)");
    run(&mut engine, "INSERT INTO t (a) VALUES (1), (2)");
    assert_eq!(run(&mut engine, "SELECT * FROM t LIMIT 10").rows.len(), 2);
    assert_eq!(run(&mut engine, "SELECT * FROM t LIMIT 0").rows.len(), 0);
}

#[test]
fn star_with_join_shows_qualified_columns() {
    let mut engine = temp_engine("starjoin");
    run(&mut engine, "CREATE TABLE u (id INTEGER)");
    run(&mut engine, "CREATE TABLE o (uid INTEGER, amt INTEGER)");
    run(&mut engine, "INSERT INTO u (id) VALUES (1)");
    run(&mut engine, "INSERT INTO o (uid, amt) VALUES (1, 9)");
    let r = run(&mut engine, "SELECT * FROM u INNER JOIN o ON u.id = o.uid");
    assert_eq!(r.columns, vec!["o.amt", "o.uid", "u.id"]);
    assert_eq!(
        r.rows,
        vec![vec![Some("9".to_string()), Some("1".to_string()), Some("1".to_string())]]
    );
}

#[test]
fn left_join_with_missing_right_table_is_error() {
    let mut engine = temp_engine("leftmissing");
    run(&mut engine, "CREATE TABLE u (id INTEGER)");
    run(&mut engine, "INSERT INTO u (id) VALUES (1)");
    let e = try_run(&mut engine, "SELECT * FROM u LEFT JOIN ghost ON u.id = ghost.id").unwrap_err();
    assert!(matches!(e, ExecError::TableNotFound(t) if t == "ghost"));
    // an inner join with a table that has no rows gives no rows
    let r = run(&mut engine, "SELECT * FROM u INNER JOIN ghost ON u.id = ghost.id");
    assert_eq!(r.rows.len(), 0);
}

#[test]
fn ids_continue_across_statements() {
    let path = temp_path("ids");
    let mut engine = Engine::open(&path).unwrap();
    run(&mut engine, "CREATE TABLE t (a INTEGER)");
    run(&mut engine, "INSERT INTO t (a) VALUES (10), (20)");
    run(&mut engine, "INSERT INTO t (a) VALUES (30)");
    drop(engine);
    let s = Storage::open(&path).unwrap();
    assert_eq!(s.get(b"meta:t:next_id").unwrap(), Some(b"4".to_vec()));
    assert!(s.get(&row_key("t", 3)).unwrap().is_some());
    assert_eq!(s.get(&row_key("t", 1)).unwrap(), Some(b"{\"a\":10}".to_vec()));
}

#[test]
fn row_keys_are_zero_padded() {
    assert_eq!(row_key("users", 7), b"row:users:00000000000000000007".to_vec());
    assert_eq!(row_key("t", u64::MAX), b"row:t:18446744073709551615".to_vec());
}

#[test]
fn corrupt_row_is_refused_by_checked_execution() {
    let path = temp_path("corrupt");
    let mut engine = Engine::open(&path).unwrap();
    run(&mut engine, "CREATE TABLE t (a INTEGER)");
    drop(engine);
    {
        let mut s = Storage::open(&path).unwrap();
        s.put(b"row:t:00000000000000000001", b"not json").unwrap();
    }
    let mut engine = Engine::open(&path).unwrap();
    let tokens = Lexer::new("SELECT * FROM t").tokenize().unwrap();
    let stmt = Parser::new(tokens).parse().unwrap();
    assert!(engine.execute_checked(stmt).is_none());
    let e = try_run(&mut engine, "DELETE FROM t").unwrap_err();
    assert!(matches!(e, ExecError::Json(_)));
}

#[test]
fn query_result_message() {
    let q = QueryResult::message("hello");
    assert_eq!(q.message, Some("hello".to_string()));
    assert!(q.columns.is_empty());
    assert!(q.rows.is_empty());
}

#[test]
fn rows_written_by_other_programs_are_shown_as_json() {
    let path = temp_path("foreign");
    let mut engine = Engine::open(&path).unwrap();
    run(&mut engine, "CREATE TABLE t (a INTEGER)");
    drop(engine);
    {
        let mut s = Storage::open(&path).unwrap();
        s.put(
            b"row:t:00000000000000000001",
            b"{\"c\":true,\"a\":[1, 2],\"b\":1.5,\"d\":{\"x\":null},\"e\":18446744073709551615}",
        )
        .unwrap();
    }
    let mut engine = Engine::open(&path).unwrap();
    let r = run(&mut engine, "SELECT a, b, c, d, e FROM t");
    assert_eq!(
        r.rows,
        vec![vec![
            Some("[1,2]".to_string()),
            Some("1.5".to_string()),
            Some("true".to_string()),
            Some("{\"x\":null}".to_string()),
            Some("18446744073709551615".to_string()),
        ]]
    );
    // numbers that are not i64 values compare as 0
    let r = run(&mut engine, "SELECT * FROM t WHERE b = 0");
    assert_eq!(r.rows.len(), 1);
    let r = run(&mut engine, "SELECT * FROM t WHERE e = 0");
    assert_eq!(r.rows.len(), 1);
}

#[test]
fn order_by_numbers_as_floats() {
    let path = temp_path("floats");
    let mut engine = Engine::open(&path).unwrap();
    run(&mut engine, "CREATE TABLE t (a INTEGER)");
    drop(engine);
    {
        let mut s = Storage::open(&path).unwrap();
        s.put(b"row:t:00000000000000000001", b"{\"a\":2}").unwrap();
        s.put(b"row:t:00000000000000000002", b"{\"a\":1.5}").unwrap();
        s.put(b"row:t:00000000000000000003", b"{\"a\":-1}").unwrap();
    }
    let mut engine = Engine::open(&path).unwrap();
    let r = run(&mut engine, "SELECT a FROM t ORDER BY a ASC");
    let vs: Vec<String> = r.rows.iter().map(|row| row[0].clone().unwrap()).collect();
    assert_eq!(vs, vec!["-1", "1.5", "2"]);
}

#[test]
fn update_sets_only_matching_rows_last_assignment_wins() {
    let mut engine = temp_engine("updlaw");
    run(&mut engine, "CREATE TABLE users (id INTEGER, name TEXT, age INTEGER)");
    run(&mut engine, "INSERT INTO users (id, name, age) VALUES (1, 'Alice', 30), (2, 'Bob', 20)");
    let r = run(&mut engine, "UPDATE users SET age = 1, age = 2, name = 'Al' WHERE id = 1");
    assert_eq!(r.message, Some("1 row(s) updated.".to_string()));
    let result = run(&mut engine, "SELECT * FROM users ORDER BY id");
    assert_eq!(result.rows[0], vec![Some("1".to_string()), Some("Al".to_string()), Some("2".to_string())]);
    assert_eq!(result.rows[1], vec![Some("2".to_string()), Some("Bob".to_string()), Some("20".to_string())]);
}

#[test]
fn unreadable_rows_of_a_missing_table_give_table_not_found() {
    let path = temp_path("ghostrows");
    {
        let mut s = Storage::open(&path).unwrap();
        s.put(b"row:ghost:00000000000000000001", b"not json").unwrap();
    }
    let mut engine = Engine::open(&path).unwrap();
    let tokens = Lexer::new("SELECT * FROM ghost").tokenize().unwrap();
    let stmt = Parser::new(tokens).parse().unwrap();
    let r = engine.execute_checked(stmt).unwrap();
    assert!(matches!(r, Err(ExecError::TableNotFound(ref n)) if n == "ghost"));
}

#[test]
fn update_stops_at_an_unreadable_row() {
    let path = temp_path("updjson");
    let mut engine = Engine::open(&path).unwrap();
    run(&mut engine, "CREATE TABLE t (a INTEGER)");
    drop(engine);
    {
        let mut s = Storage::open(&path).unwrap();
        s.put(b"row:t:00000000000000000001", b"{\"a\":1}").unwrap();
        s.put(b"row:t:00000000000000000002", b"oops").unwrap();
    }
    let mut engine = Engine::open(&path).unwrap();
    let e = try_run(&mut engine, "UPDATE t SET a = 5").unwrap_err();
    assert!(matches!(e, ExecError::Json(_)));
    drop(engine);
    let s = Storage::open(&path).unwrap();
    assert_eq!(s.get(b"row:t:00000000000000000001").unwrap(), Some(b"{\"a\":5}".to_vec()));
}

#[test]
fn row_keys_increase_with_the_id() {
    assert_eq!(row_key("users", 7), b"row:users:00000000000000000007".to_vec());
    assert!(row_key("users", 7) < row_key("users", 10));
    assert!(row_key("users", 9) < row_key("users", 100));
    assert!(row_key("t", u64::MAX - 1) < row_key("t", u64::MAX));
}

#[test]
fn join_matches_floats_by_value() {
    let path = temp_path("joinfloat");
    let mut engine = Engine::open(&path).unwrap();
    run(&mut engine, "CREATE TABLE a (k INTEGER)");
    run(&mut engine, "CREATE TABLE b (k INTEGER, v TEXT)");
    drop(engine);
    {
        let mut s = Storage::open(&path).unwrap();
        s.put(b"row:a:00000000000000000001", b"{\"k\":-0.0}").unwrap();
        s.put(b"row:b:00000000000000000001", b"{\"k\":0.0,\"v\":\"zero\"}").unwrap();
        s.put(b"row:b:00000000000000000002", b"{\"k\":1.5,\"v\":\"other\"}").unwrap();
    }
    let mut engine = Engine::open(&path).unwrap();
    let r = run(&mut engine, "SELECT b.v FROM a INNER JOIN b ON a.k = b.k");
    assert_eq!(r.rows, vec![vec![Some("zero".to_string())]]);
}
