use snail_core::catalog::ColType;
use snail_core::executor::rows::{display_value, qualify_row, row_insert};
use snail_core::executor::values::{coerce_value, compare, compare_json_values};
use snail_core::executor::ExecError;
use snail_core::json::{text_lt, Json, JsonNumber};
use snail_core::sql::ast::{CmpOp, Value};
use snail_core::text::{decimal_string, parse_i64_str, parse_u64_bytes};

#[test]
fn parse_i64_accepts_what_std_accepts() {
    assert_eq!(parse_i64_str("123"), Some(123));
    assert_eq!(parse_i64_str("+5"), Some(5));
    assert_eq!(parse_i64_str("-0"), Some(0));
    assert_eq!(parse_i64_str("-9223372036854775808"), Some(i64::MIN));
    assert_eq!(parse_i64_str("9223372036854775807"), Some(i64::MAX));
    assert_eq!(parse_i64_str("9223372036854775808"), None);
    assert_eq!(parse_i64_str(""), None);
    assert_eq!(parse_i64_str("-"), None);
    assert_eq!(parse_i64_str("1a"), None);
    assert_eq!(parse_i64_str(" 1"), None);
    for s in ["0", "42", "-17", "+3", "x", "--1", "99999999999999999999"] {
        assert_eq!(parse_i64_str(s), s.parse::<i64>().ok(), "{}", s);
    }
}

#[test]
fn parse_u64_accepts_what_std_accepts() {
    assert_eq!(parse_u64_bytes(b"18446744073709551615"), Some(u64::MAX));
    assert_eq!(parse_u64_bytes(b"18446744073709551616"), None);
    assert_eq!(parse_u64_bytes(b"+7"), Some(7));
    assert_eq!(parse_u64_bytes(b"-7"), None);
    assert_eq!(parse_u64_bytes(b""), None);
    assert_eq!(parse_u64_bytes(b"1\xff"), None);
}

#[test]
fn decimal_text() {
    assert_eq!(decimal_string(0), "0");
    assert_eq!(decimal_string(-120), "-120");
    assert_eq!(decimal_string(i64::MIN as i128), i64::MIN.to_string());
    assert_eq!(decimal_string(u64::MAX as i128), u64::MAX.to_string());
}

#[test]
fn coerce_each_pair() {
    let c = |v: Value, t: ColType| coerce_value(&v, &t, "c");
    assert!(matches!(c(Value::Integer(3), ColType::Integer), Ok(Json::Number(JsonNumber::Int(3)))));
    assert!(matches!(c(Value::Text("a".into()), ColType::Text), Ok(Json::Str(s)) if s == "a"));
    assert!(matches!(c(Value::Null, ColType::Integer), Ok(Json::Null)));
    assert!(matches!(c(Value::Null, ColType::Text), Ok(Json::Null)));
    assert!(matches!(c(Value::Integer(-3), ColType::Text), Ok(Json::Str(s)) if s == "-3"));
    assert!(matches!(c(Value::Text("12".into()), ColType::Integer), Ok(Json::Number(JsonNumber::Int(12)))));
    match c(Value::Text("1.5".into()), ColType::Integer) {
        Err(ExecError::TypeMismatch { col, expected, got }) => {
            assert_eq!(col, "c");
            assert_eq!(expected, "INTEGER");
            assert_eq!(got, "'1.5'");
        }
        _ => panic!("expected a type mismatch"),
    }
}

#[test]
fn compare_by_kind() {
    let n = Json::Number(JsonNumber::Int(5));
    assert!(compare(&n, &CmpOp::Eq, &Value::Integer(5)));
    assert!(compare(&n, &CmpOp::Gte, &Value::Integer(5)));
    assert!(!compare(&n, &CmpOp::Lt, &Value::Integer(5)));
    assert!(compare(&n, &CmpOp::NotEq, &Value::Integer(4)));
    assert!(!compare(&n, &CmpOp::Eq, &Value::Text("5".into())));
    let big = Json::Number(JsonNumber::Big(u64::MAX));
    assert!(compare(&big, &CmpOp::Eq, &Value::Integer(0)));
    let s = Json::Str("b".into());
    assert!(compare(&s, &CmpOp::Gt, &Value::Text("a".into())));
    assert!(compare(&s, &CmpOp::Lte, &Value::Text("b".into())));
    assert!(!compare(&Json::Null, &CmpOp::Eq, &Value::Null));
}

#[test]
fn order_of_looked_up_values() {
    let one = Json::Number(JsonNumber::Int(1));
    let two = Json::Number(JsonNumber::Int(2));
    assert_eq!(compare_json_values(Some(&one), Some(&two)), -1);
    assert_eq!(compare_json_values(Some(&two), Some(&one)), 1);
    assert_eq!(compare_json_values(Some(&one), Some(&one)), 0);
    assert_eq!(compare_json_values(None, Some(&one)), -1);
    assert_eq!(compare_json_values(Some(&one), None), 1);
    assert_eq!(compare_json_values(None, None), 0);
    let a = Json::Str("a".into());
    assert_eq!(compare_json_values(Some(&a), Some(&one)), 0);
    let f = Json::Number(JsonNumber::Float("1.5".into()));
    assert_eq!(compare_json_values(Some(&f), Some(&two)), -1);
}

#[test]
fn string_order() {
    assert!(text_lt("a", "b"));
    assert!(text_lt("a", "ab"));
    assert!(!text_lt("ab", "a"));
    assert!(!text_lt("a", "a"));
    assert!(text_lt("Z", "a"));
    assert!(text_lt("z", "é"));
}

#[test]
fn shown_values() {
    assert_eq!(display_value(&Json::Null), "NULL");
    assert_eq!(display_value(&Json::Bool(true)), "true");
    assert_eq!(display_value(&Json::Bool(false)), "false");
    assert_eq!(display_value(&Json::Number(JsonNumber::Int(-7))), "-7");
    assert_eq!(display_value(&Json::Number(JsonNumber::Big(u64::MAX))), "18446744073709551615");
    assert_eq!(display_value(&Json::Str("hi".into())), "hi");
    assert_eq!(display_value(&Json::Compound("[1,2]".into())), "[1,2]");
}

#[test]
fn map_insert_keeps_keys_sorted() {
    let mut row: Vec<(String, Json)> = Vec::new();
    row_insert(&mut row, "b".into(), Json::Null);
    row_insert(&mut row, "a".into(), Json::Bool(true));
    row_insert(&mut row, "c".into(), Json::Null);
    row_insert(&mut row, "b".into(), Json::Bool(false));
    let keys: Vec<&str> = row.iter().map(|(k, _)| k.as_str()).collect();
    assert_eq!(keys, vec!["a", "b", "c"]);
    assert!(matches!(row[1].1, Json::Bool(false)));
}

#[test]
fn qualified_rows() {
    let row = vec![("a".to_string(), Json::Null), ("b".to_string(), Json::Bool(true))];
    let q = qualify_row("t", row);
    let keys: Vec<&str> = q.iter().map(|(k, _)| k.as_str()).collect();
    assert_eq!(keys, vec!["t.a", "t.b"]);
}

#[test]
fn same_values() {
    assert!(Json::Number(JsonNumber::Int(1)).same(&Json::Number(JsonNumber::Int(1))));
    assert!(!Json::Number(JsonNumber::Int(1)).same(&Json::Str("1".into())));
    assert!(Json::Null.same(&Json::Null));
}
