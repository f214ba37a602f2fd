use snail_core::sql::ast::{Expr, JoinType, OrderDirection, SelectColumns, Stmt, Value};
use snail_core::sql::lexer::Lexer;
use snail_core::sql::parser::{ParseError, Parser};
use snail_core::sql::token::Token;

fn parse(sql: &str) -> Stmt {
    let tokens = Lexer::new(sql).tokenize().unwrap();
    Parser::new(tokens).parse().unwrap()
}

fn parse_err(sql: &str) -> ParseError {
    let tokens = Lexer::new(sql).tokenize().unwrap();
    match Parser::new(tokens).parse() {
        Ok(_) => panic!("parsed"),
        Err(e) => e,
    }
}

#[test]
fn parse_create_table() {
    let stmt = parse("CREATE TABLE users (id INTEGER, name TEXT)");
    match stmt {
        Stmt::CreateTable(s) => assert_eq!(s.columns.len(), 2),
        _ => panic!("wrong stmt"),
    }
}

#[test]
fn parse_insert_single_row() {
    let stmt = parse("INSERT INTO users (id, name) VALUES (1, 'Alice')");
    match stmt {
        Stmt::Insert(s) => {
            assert_eq!(s.rows[0][0], Value::Integer(1));
            assert_eq!(s.rows[0][1], Value::Text("Alice".to_string()));
        }
        _ => panic!("wrong stmt"),
    }
}

#[test]
fn parse_insert_multi_row() {
    let stmt = parse("INSERT INTO users (id, name) VALUES (1, 'Alice'), (2, 'Bob')");
    match stmt {
        Stmt::Insert(s) => assert_eq!(s.rows.len(), 2),
        _ => panic!("wrong stmt"),
    }
}

#[test]
fn parse_select_star() {
    let stmt = parse("SELECT * FROM users");
    match stmt {
        Stmt::Select(s) => {
            assert!(matches!(s.columns, SelectColumns::Star));
            assert!(s.joins.is_empty());
            assert!(s.where_clause.is_none());
            assert!(s.order_by.is_empty());
            assert!(s.limit.is_none());
        }
        _ => panic!("wrong stmt"),
    }
}

#[test]
fn parse_select_columns() {
    let stmt = parse("SELECT id, name FROM users");
    match stmt {
        Stmt::Select(s) => assert!(matches!(s.columns, SelectColumns::Named(_))),
        _ => panic!("wrong stmt"),
    }
}

#[test]
fn parse_select_where() {
    let stmt = parse("SELECT * FROM users WHERE age > 25");
    match stmt {
        Stmt::Select(s) => assert!(s.where_clause.is_some()),
        _ => panic!("wrong stmt"),
    }
}

#[test]
fn parse_where_and() {
    let stmt = parse("SELECT * FROM users WHERE age > 18 AND name = 'Alice'");
    match stmt {
        Stmt::Select(s) => assert!(matches!(s.where_clause, Some(Expr::And(_, _)))),
        _ => panic!("wrong stmt"),
    }
}

#[test]
fn parse_where_or() {
    let stmt = parse("SELECT * FROM users WHERE age < 10 OR age > 90");
    match stmt {
        Stmt::Select(s) => assert!(matches!(s.where_clause, Some(Expr::Or(_, _)))),
        _ => panic!("wrong stmt"),
    }
}

#[test]
fn parse_order_by() {
    let stmt = parse("SELECT * FROM users ORDER BY age DESC");
    match stmt {
        Stmt::Select(s) => {
            assert_eq!(s.order_by.len(), 1);
            assert_eq!(s.order_by[0].direction, OrderDirection::Desc);
        }
        _ => panic!("wrong stmt"),
    }
}

#[test]
fn parse_order_by_multi() {
    let stmt = parse("SELECT * FROM users ORDER BY age ASC, name DESC");
    match stmt {
        Stmt::Select(s) => assert_eq!(s.order_by.len(), 2),
        _ => panic!("wrong stmt"),
    }
}

#[test]
fn parse_limit() {
    let stmt = parse("SELECT * FROM users LIMIT 5");
    match stmt {
        Stmt::Select(s) => assert_eq!(s.limit, Some(5)),
        _ => panic!("wrong stmt"),
    }
}

#[test]
fn parse_order_by_and_limit() {
    let stmt = parse("SELECT * FROM users ORDER BY age DESC LIMIT 3");
    match stmt {
        Stmt::Select(s) => {
            assert_eq!(s.order_by[0].direction, OrderDirection::Desc);
            assert_eq!(s.limit, Some(3));
        }
        _ => panic!("wrong stmt"),
    }
}

#[test]
fn parse_update() {
    let stmt = parse("UPDATE users SET age = 31 WHERE id = 1");
    match stmt {
        Stmt::Update(s) => {
            assert_eq!(s.assignments.len(), 1);
            assert!(s.where_clause.is_some());
        }
        _ => panic!("wrong stmt"),
    }
}

#[test]
fn parse_update_multi_set() {
    let stmt = parse("UPDATE users SET age = 31, name = 'Bob' WHERE id = 1");
    match stmt {
        Stmt::Update(s) => assert_eq!(s.assignments.len(), 2),
        _ => panic!("wrong stmt"),
    }
}

#[test]
fn parse_delete() {
    let stmt = parse("DELETE FROM users WHERE id = 1");
    match stmt {
        Stmt::Delete(s) => assert!(s.where_clause.is_some()),
        _ => panic!("wrong stmt"),
    }
}

#[test]
fn parse_delete_no_where() {
    let stmt = parse("DELETE FROM users");
    match stmt {
        Stmt::Delete(s) => assert!(s.where_clause.is_none()),
        _ => panic!("wrong stmt"),
    }
}

#[test]
fn parse_inner_join() {
    let stmt = parse(
        "SELECT users.name, orders.amount FROM users INNER JOIN orders ON users.id = orders.user_id",
    );
    match stmt {
        Stmt::Select(s) => {
            assert_eq!(s.joins.len(), 1);
            assert_eq!(s.joins[0].join_type, JoinType::Inner);
            assert_eq!(s.joins[0].table_name, "orders");
            assert_eq!(s.joins[0].on.left_col, "id");
            assert_eq!(s.joins[0].on.right_col, "user_id");
        }
        _ => panic!("wrong stmt"),
    }
}

#[test]
fn parse_left_join() {
    let stmt = parse(
        "SELECT users.name, orders.amount FROM users LEFT JOIN orders ON users.id = orders.user_id",
    );
    match stmt {
        Stmt::Select(s) => {
            assert_eq!(s.joins[0].join_type, JoinType::Left);
        }
        _ => panic!("wrong stmt"),
    }
}

#[test]
fn parse_qualified_columns() {
    let stmt = parse("SELECT users.name, orders.amount FROM users");
    match stmt {
        Stmt::Select(s) => {
            if let SelectColumns::Named(cols) = s.columns {
                assert_eq!(cols[0].table, Some("users".to_string()));
                assert_eq!(cols[0].column, "name");
                assert_eq!(cols[1].table, Some("orders".to_string()));
            }
        }
        _ => panic!("wrong stmt"),
    }
}

// ── Further cases ────────────────────────────────────────────────────────────

#[test]
fn parse_empty_is_error() {
    let e = parse_err("");
    assert!(matches!(e, ParseError::UnexpectedEof));
}

#[test]
fn parse_unknown_statement_is_error() {
    let e = parse_err("FROM users");
    assert!(matches!(e, ParseError::UnknownStatement(Token::From)));
}

#[test]
fn parse_trailing_tokens_are_ignored() {
    let stmt = parse("DELETE FROM users users");
    assert!(matches!(stmt, Stmt::Delete(_)));
}

#[test]
fn parse_missing_identifier_is_error() {
    let e = parse_err("DELETE FROM 5");
    match e {
        ParseError::Expected { expected, got } => {
            assert_eq!(expected, "identifier");
            assert_eq!(got, Token::IntLiteral(5));
        }
        _ => panic!("wrong error"),
    }
}

#[test]
fn parse_semicolon_is_allowed() {
    let stmt = parse("DELETE FROM users;");
    assert!(matches!(stmt, Stmt::Delete(_)));
}

#[test]
fn parse_or_groups_before_and() {
    // the grammar reads AND over OR-groups: (a OR b) AND c
    let stmt = parse("SELECT * FROM t WHERE a = 1 OR b = 2 AND c = 3");
    match stmt {
        Stmt::Select(s) => match s.where_clause {
            Some(Expr::And(l, _)) => assert!(matches!(*l, Expr::Or(_, _))),
            _ => panic!("wrong condition"),
        },
        _ => panic!("wrong stmt"),
    }
}

#[test]
fn parse_null_value() {
    let stmt = parse("INSERT INTO t (a) VALUES (NULL)");
    match stmt {
        Stmt::Insert(s) => assert_eq!(s.rows[0][0], Value::Null),
        _ => panic!("wrong stmt"),
    }
}

#[test]
fn parse_unknown_type_is_error() {
    let e = parse_err("CREATE TABLE t (a BLOB)");
    match e {
        ParseError::UnknownColType(t) => assert_eq!(t, "BLOB"),
        _ => panic!("wrong error"),
    }
}

#[test]
fn parse_tokens_directly() {
    let tokens = vec![Token::Delete, Token::From, Token::Ident("t".to_string())];
    assert!(matches!(Parser::new(tokens).parse(), Ok(Stmt::Delete(_))));
}

#[test]
fn a_trailing_semicolon_changes_nothing() {
    for sql in [
        "SELECT a, b FROM t WHERE a = 1 ORDER BY b DESC LIMIT 3",
        "INSERT INTO t (a) VALUES (1), (2)",
        "UPDATE t SET a = 2 WHERE b = 'x'",
        "DELETE FROM t",
        "CREATE TABLE t (a INTEGER)",
    ] {
        let tokens = Lexer::new(sql).tokenize().unwrap();
        let plain = Parser::new(tokens.clone()).parse().unwrap();
        let mut more = tokens;
        more.push(Token::Semicolon);
        let with_semi = Parser::new(more).parse().unwrap();
        assert_eq!(format!("{:?}", plain), format!("{:?}", with_semi));
    }
}
