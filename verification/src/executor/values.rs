//! Values in rows: how a literal becomes a stored value, how a WHERE clause
//! is evaluated on a row, and how rows are ordered.
use super::rows::{resolve, resolve_column, table_view, RowV};
use super::ExecError;
use crate::catalog::ColType;
use crate::json::{
    chars_lt, compare_numbers, entries_view, number_order, text_lt, Json, JsonNumber, JsonNumberV,
    JsonV,
};
use crate::sql::ast::{
    CmpOp, Expr, ExprV, OrderByClause, OrderByClauseV, OrderDirection, Value, ValueV,
};
use crate::text::{append_str, decimal_string, int_decimal, parse_i64, parse_i64_str};
use vstd::prelude::*;

verus! {

// ── Coercion ─────────────────────────────────────────────────────────────────

/// The stored value of a literal in a column of type `t`; `None` where a text
/// is not an integer that an INTEGER column needs.
pub open spec fn coerce(v: ValueV, t: ColType) -> Option<JsonV> {
    match (v, t) {
        (ValueV::Integer(n), ColType::Integer) => Some(JsonV::Number(JsonNumberV::Int(n))),
        (ValueV::Text(s), ColType::Text) => Some(JsonV::Str(s)),
        (ValueV::Null, _) => Some(JsonV::Null),
        (ValueV::Integer(n), ColType::Text) => Some(JsonV::Str(int_decimal(n as int))),
        (ValueV::Text(s), ColType::Integer) => match parse_i64(s) {
            Some(n) => Some(JsonV::Number(JsonNumberV::Int(n))),
            None => None,
        },
    }
}

/// `INTEGER`
pub open spec fn integer_text() -> Seq<char> {
    seq!['I', 'N', 'T', 'E', 'G', 'E', 'R']
}

/// The stored value of a literal in the column `col_name` of type `col_type`.
pub fn coerce_value(val: &Value, col_type: &ColType, col_name: &str) -> (r: Result<Json, ExecError>)
    ensures
        match coerce(val@, *col_type) {
            Some(j) => r matches Ok(x) && x@ == j,
            None => match (r, val@) {
                (Err(ExecError::TypeMismatch { col, expected, got }), ValueV::Text(s)) => col@
                    == col_name@ && expected@ == integer_text() && got@ == seq!['\''] + s
                    + seq!['\''],
                _ => false,
            },
        },
{
    match (val, col_type) {
        (Value::Integer(n), ColType::Integer) => Ok(Json::Number(JsonNumber::Int(*n))),
        (Value::Text(s), ColType::Text) => Ok(Json::Str(s.clone())),
        (Value::Null, _) => Ok(Json::Null),
        (Value::Integer(n), ColType::Text) => Ok(Json::Str(decimal_string(*n as i128))),
        (Value::Text(s), ColType::Integer) => match parse_i64_str(s.as_str()) {
            Some(n) => Ok(Json::Number(JsonNumber::Int(n))),
            None => {
                let mut got = String::new();
                append_str(&mut got, "'");
                append_str(&mut got, s.as_str());
                append_str(&mut got, "'");
                let mut expected = String::new();
                append_str(&mut expected, "INTEGER");
                proof {
                    reveal_strlit("'");
                    reveal_strlit("INTEGER");
                    assert(got@ =~= seq!['\''] + s@ + seq!['\'']);
                    assert(expected@ =~= integer_text());
                }
                Err(ExecError::TypeMismatch { col: col_name.to_owned(), expected, got })
            },
        },
    }
}

// ── WHERE ────────────────────────────────────────────────────────────────────

/// The integer a stored number is compared as: its value where it is an
/// `i64`, else 0 (`Number::as_i64` gives none).
pub open spec fn as_i64_or_zero(n: JsonNumberV) -> i64 {
    match n {
        JsonNumberV::Int(x) => x,
        _ => 0,
    }
}

/// Whether a stored value stands in relation `op` to a literal: integers with
/// integers, texts with texts (in the order of `String`); anything else is
/// false.
pub open spec fn compare_spec(v: JsonV, op: CmpOp, f: ValueV) -> bool {
    match (v, f) {
        (JsonV::Number(n), ValueV::Integer(i)) => {
            let x = as_i64_or_zero(n);
            match op {
                CmpOp::Eq => x == i,
                CmpOp::NotEq => x != i,
                CmpOp::Lt => x < i,
                CmpOp::Lte => x <= i,
                CmpOp::Gt => x > i,
                CmpOp::Gte => x >= i,
            }
        },
        (JsonV::Str(s), ValueV::Text(t)) => match op {
            CmpOp::Eq => s == t,
            CmpOp::NotEq => s != t,
            CmpOp::Lt => chars_lt(s, t),
            CmpOp::Lte => s == t || chars_lt(s, t),
            CmpOp::Gt => chars_lt(t, s),
            CmpOp::Gte => s == t || chars_lt(t, s),
        },
        _ => false,
    }
}

/// Whether a row satisfies a condition; a column the row lacks makes its
/// comparison false.
pub open spec fn eval_spec(e: ExprV, row: RowV) -> bool
    decreases e,
{
    match e {
        ExprV::And(l, r) => eval_spec(*l, row) && eval_spec(*r, row),
        ExprV::Or(l, r) => eval_spec(*l, row) || eval_spec(*r, row),
        ExprV::Comparison { column, op, value } => match resolve(row, column) {
            Some(v) => compare_spec(v, op, value),
            None => false,
        },
    }
}

/// Whether a stored value stands in relation `op` to a literal.
pub fn compare(row_val: &Json, op: &CmpOp, filter_val: &Value) -> (r: bool)
    ensures
        r == compare_spec(row_val@, *op, filter_val@),
{
    match (row_val, filter_val) {
        (Json::Number(n), Value::Integer(i)) => {
            let x: i64 = match n {
                JsonNumber::Int(x) => *x,
                _ => 0,
            };
            match op {
                CmpOp::Eq => x == *i,
                CmpOp::NotEq => x != *i,
                CmpOp::Lt => x < *i,
                CmpOp::Lte => x <= *i,
                CmpOp::Gt => x > *i,
                CmpOp::Gte => x >= *i,
            }
        },
        (Json::Str(s), Value::Text(t)) => match op {
            CmpOp::Eq => *s == *t,
            CmpOp::NotEq => !(*s == *t),
            CmpOp::Lt => text_lt(s.as_str(), t.as_str()),
            CmpOp::Lte => *s == *t || text_lt(s.as_str(), t.as_str()),
            CmpOp::Gt => text_lt(t.as_str(), s.as_str()),
            CmpOp::Gte => *s == *t || text_lt(t.as_str(), s.as_str()),
        },
        _ => false,
    }
}

/// Whether a row satisfies a condition.
pub fn eval_expr(expr: &Expr, row: &Vec<(String, Json)>) -> (r: bool)
    ensures
        r == eval_spec(expr@, entries_view(row@)),
    decreases expr,
{
    match expr {
        Expr::And(l, r) => eval_expr(l, row) && eval_expr(r, row),
        Expr::Or(l, r) => eval_expr(l, row) || eval_expr(r, row),
        Expr::Comparison { column, op, value } => match resolve_column(row, column.as_str()) {
            Some(v) => compare(v, op, value),
            None => false,
        },
    }
}

// ── ORDER BY ─────────────────────────────────────────────────────────────────

/// -1, 0 or 1 as one looked-up value sorts before, with or after another:
/// numbers as `f64` values, texts in the order of `String`, a missing value
/// first; any other pair ties.
pub open spec fn json_order(a: Option<JsonV>, b: Option<JsonV>) -> i8 {
    match (a, b) {
        (Some(JsonV::Number(x)), Some(JsonV::Number(y))) => number_order(x, y),
        (Some(JsonV::Str(s)), Some(JsonV::Str(t))) => if chars_lt(s, t) {
            -1i8
        } else if s == t {
            0i8
        } else {
            1i8
        },
        (None, None) => 0i8,
        (None, _) => -1i8,
        (_, None) => 1i8,
        _ => 0i8,
    }
}

/// How two rows compare under the ORDER BY clauses: the first clause that
/// does not tie decides, reversed where it is descending.
pub open spec fn rows_order(a: RowV, b: RowV, ob: Seq<OrderByClauseV>) -> i8
    decreases ob.len(),
{
    if ob.len() == 0 {
        0i8
    } else {
        let o = json_order(resolve(a, ob[0].column), resolve(b, ob[0].column));
        let o2 = if ob[0].direction == OrderDirection::Desc {
            -o
        } else {
            o as int
        };
        if o2 != 0 {
            o2 as i8
        } else {
            rows_order(a, b, ob.drop_first())
        }
    }
}

/// The views of ORDER BY clauses.
pub open spec fn order_view(ob: Seq<OrderByClause>) -> Seq<OrderByClauseV> {
    ob.map_values(|o: OrderByClause| o@)
}

/// The view of a looked-up value.
pub open spec fn found_view(o: Option<&Json>) -> Option<JsonV> {
    match o {
        Some(j) => Some(j@),
        None => None,
    }
}

/// How one looked-up value sorts against another: -1, 0 or 1.
pub fn compare_json_values(a: Option<&Json>, b: Option<&Json>) -> (r: i8)
    ensures
        r == json_order(found_view(a), found_view(b)),
        -1 <= r <= 1,
{
    match (a, b) {
        (Some(Json::Number(x)), Some(Json::Number(y))) => compare_numbers(x, y),
        (Some(Json::Str(s)), Some(Json::Str(t))) => {
            if text_lt(s.as_str(), t.as_str()) {
                -1
            } else if *s == *t {
                0
            } else {
                1
            }
        },
        (None, None) => 0,
        (None, _) => -1,
        (_, None) => 1,
        _ => 0,
    }
}

/// How two rows compare under the ORDER BY clauses.
pub fn row_order(a: &Vec<(String, Json)>, b: &Vec<(String, Json)>, ob: &Vec<OrderByClause>) -> (r: i8)
    ensures
        r == rows_order(entries_view(a@), entries_view(b@), order_view(ob@)),
{
    let ghost av = entries_view(a@);
    let ghost bv = entries_view(b@);
    let ghost obv = order_view(ob@);
    let mut i: usize = 0;
    assert(obv.skip(0) =~= obv);
    while i < ob.len()
        invariant
            i <= ob.len(),
            obv == order_view(ob@),
            av == entries_view(a@),
            bv == entries_view(b@),
            rows_order(av, bv, obv) == rows_order(av, bv, obv.skip(i as int)),
        decreases ob.len() - i,
    {
        let clause = &ob[i];
        assert(obv.skip(i as int)[0] == clause@);
        let o = compare_json_values(
            resolve_column(a, clause.column.as_str()),
            resolve_column(b, clause.column.as_str()),
        );
        let o2: i8 = match clause.direction {
            OrderDirection::Desc => -o,
            OrderDirection::Asc => o,
        };
        if o2 != 0 {
            return o2;
        }
        assert(obv.skip(i as int).drop_first() =~= obv.skip(i + 1));
        i = i + 1;
    }
    assert(obv.skip(i as int) =~= Seq::<OrderByClauseV>::empty());
    0
}

/// `x` placed into sorted rows after every row that does not sort after it.
pub open spec fn insert_by(sorted: Seq<RowV>, x: RowV, ob: Seq<OrderByClauseV>) -> Seq<RowV>
    decreases sorted.len(),
{
    if sorted.len() == 0 {
        seq![x]
    } else if rows_order(sorted.last(), x, ob) > 0 {
        insert_by(sorted.drop_last(), x, ob).push(sorted.last())
    } else {
        sorted.push(x)
    }
}

/// The rows sorted under the ORDER BY clauses, stably: rows that tie keep
/// their order.
pub open spec fn sort_by_order(rows: Seq<RowV>, ob: Seq<OrderByClauseV>) -> Seq<RowV>
    decreases rows.len(),
{
    if rows.len() == 0 {
        Seq::empty()
    } else {
        insert_by(sort_by_order(rows.drop_last(), ob), rows.last(), ob)
    }
}

/// Sorts rows under the ORDER BY clauses, stably.
pub fn sort_rows(rows: &Vec<Vec<(String, Json)>>, ob: &Vec<OrderByClause>) -> (r: Vec<
    Vec<(String, Json)>,
>)
    ensures
        table_view(r@) == sort_by_order(table_view(rows@), order_view(ob@)),
{
    let ghost obv = order_view(ob@);
    let ghost input = table_view(rows@);
    let mut result: Vec<Vec<(String, Json)>> = Vec::new();
    let mut i: usize = 0;
    assert(input.take(0) =~= Seq::<RowV>::empty());
    while i < rows.len()
        invariant
            i <= rows.len(),
            obv == order_view(ob@),
            input == table_view(rows@),
            table_view(result@) == sort_by_order(input.take(i as int), obv),
        decreases rows.len() - i,
    {
        let x = super::rows::copy_row(&rows[i]);
        let ghost xv = entries_view(x@);
        let ghost sorted = table_view(result@);
        assert(xv == input[i as int]);
        let mut j = result.len();
        assert(sorted.take(j as int) =~= sorted);
        assert(sorted.skip(j as int) =~= Seq::<RowV>::empty());
        while j > 0 && row_order(&result[j - 1], &x, ob) > 0
            invariant
                j <= result.len(),
                sorted == table_view(result@),
                xv == entries_view(x@),
                obv == order_view(ob@),
                insert_by(sorted, xv, obv) == insert_by(sorted.take(j as int), xv, obv)
                    + sorted.skip(j as int),
            decreases j,
        {
            proof {
                let t = sorted.take(j as int);
                assert(t.last() == sorted[j - 1]);
                assert(t.drop_last() =~= sorted.take(j - 1));
                assert(insert_by(t, xv, obv) == insert_by(sorted.take(j - 1), xv, obv).push(
                    sorted[j - 1],
                ));
                assert(insert_by(sorted.take(j - 1), xv, obv).push(sorted[j - 1]) + sorted.skip(
                    j as int,
                ) =~= insert_by(sorted.take(j - 1), xv, obv) + sorted.skip(j - 1));
            }
            j = j - 1;
        }
        proof {
            let t = sorted.take(j as int);
            if j == 0 {
                assert(t =~= Seq::<RowV>::empty());
                assert(insert_by(t, xv, obv) =~= t.push(xv));
            } else {
                assert(t.last() == sorted[j - 1]);
                assert(insert_by(t, xv, obv) == t.push(xv));
            }
        }
        result.insert(j, x);
        proof {
            assert(table_view(result@) =~= sorted.take(j as int).push(xv) + sorted.skip(j as int));
            assert(input.take(i + 1).drop_last() =~= input.take(i as int));
            assert(input.take(i + 1).last() == xv);
        }
        i = i + 1;
    }
    assert(input.take(rows.len() as int) =~= input);
    result
}

} // verus!
