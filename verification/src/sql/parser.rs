//! The parser: from tokens to a statement, by recursive descent.
//!
//! The grammar is given by the `spec_*` functions on token sequences; each
//! returns what it parsed and the index after it, or the error.
use super::ast::{
    Assignment, AssignmentV, ColumnDef, ColumnDefV, ColumnRef, ColumnRefV, CmpOp, CreateTableStmt,
    DeleteStmt, Expr, ExprV, InsertStmt, JoinClause, JoinClauseV, JoinCondition, JoinConditionV,
    JoinType, OrderByClause, OrderByClauseV, OrderDirection, SelectColumns, SelectColumnsV,
    SelectStmt, SelectStmtV, Stmt, StmtV, UpdateStmt, Value, ValueV, opt_expr_view, rows_view,
    strings_view,
};
use super::token::{Token, TokenV, tokens_view};
use crate::catalog::{ColType, coltype_of};
use vstd::prelude::*;

verus! {

/// A parse error.
#[derive(Debug)]
pub enum ParseError {
    UnexpectedEof,
    Expected { expected: String, got: Token },
    UnknownColType(String),
    UnknownStatement(Token),
    InvalidOnCondition,
}

/// The mathematical value of a parse error.
pub enum ParseErrorV {
    UnexpectedEof,
    Expected { expected: Seq<char>, got: TokenV },
    UnknownColType(Seq<char>),
    UnknownStatement(TokenV),
    InvalidOnCondition,
}

impl View for ParseError {
    type V = ParseErrorV;

    open spec fn view(&self) -> ParseErrorV {
        match self {
            ParseError::UnexpectedEof => ParseErrorV::UnexpectedEof,
            ParseError::Expected { expected, got } => ParseErrorV::Expected {
                expected: expected@,
                got: got@,
            },
            ParseError::UnknownColType(s) => ParseErrorV::UnknownColType(s@),
            ParseError::UnknownStatement(t) => ParseErrorV::UnknownStatement(t@),
            ParseError::InvalidOnCondition => ParseErrorV::InvalidOnCondition,
        }
    }
}

// ── The grammar ──────────────────────────────────────────────────────────────

/// The token at index `p`, if there is one.
pub open spec fn tok(t: Seq<TokenV>, p: int) -> Option<TokenV> {
    if 0 <= p < t.len() {
        Some(t[p])
    } else {
        None
    }
}

/// The name under which a token without contents is shown (its `Debug` form).
pub open spec fn token_name(k: TokenV) -> Seq<char> {
    match k {
        TokenV::Create => "Create"@,
        TokenV::Table => "Table"@,
        TokenV::Insert => "Insert"@,
        TokenV::Into => "Into"@,
        TokenV::Values => "Values"@,
        TokenV::Select => "Select"@,
        TokenV::From => "From"@,
        TokenV::Where => "Where"@,
        TokenV::And => "And"@,
        TokenV::Or => "Or"@,
        TokenV::Not => "Not"@,
        TokenV::Null => "Null"@,
        TokenV::Update => "Update"@,
        TokenV::SetKw => "Set"@,
        TokenV::Delete => "Delete"@,
        TokenV::Order => "Order"@,
        TokenV::By => "By"@,
        TokenV::Asc => "Asc"@,
        TokenV::Desc => "Desc"@,
        TokenV::Limit => "Limit"@,
        TokenV::Join => "Join"@,
        TokenV::Inner => "Inner"@,
        TokenV::Left => "Left"@,
        TokenV::Right => "Right"@,
        TokenV::On => "On"@,
        TokenV::LParen => "LParen"@,
        TokenV::RParen => "RParen"@,
        TokenV::Comma => "Comma"@,
        TokenV::Semicolon => "Semicolon"@,
        TokenV::Star => "Star"@,
        TokenV::Dot => "Dot"@,
        TokenV::Eq => "Eq"@,
        TokenV::NotEq => "NotEq"@,
        TokenV::Lt => "Lt"@,
        TokenV::Lte => "Lte"@,
        TokenV::Gt => "Gt"@,
        TokenV::Gte => "Gte"@,
        _ => Seq::empty(),
    }
}

/// Whether a token has no contents.
pub open spec fn is_unit(k: TokenV) -> bool {
    !(k is Ident || k is IntLiteral || k is TextLiteral)
}

/// The error for finding `got` where `what` was expected.
pub open spec fn expected_err(what: Seq<char>, got: TokenV) -> ParseErrorV {
    ParseErrorV::Expected { expected: what, got }
}

/// The token `k`.
pub open spec fn spec_expect(t: Seq<TokenV>, p: int, k: TokenV) -> Result<int, ParseErrorV> {
    match tok(t, p) {
        Some(x) => if x == k {
            Ok(p + 1)
        } else {
            Err(expected_err(token_name(k), x))
        },
        None => Err(ParseErrorV::UnexpectedEof),
    }
}

/// An identifier.
pub open spec fn spec_ident(t: Seq<TokenV>, p: int) -> Result<(Seq<char>, int), ParseErrorV> {
    match tok(t, p) {
        Some(TokenV::Ident(s)) => Ok((s, p + 1)),
        Some(x) => Err(expected_err("identifier"@, x)),
        None => Err(ParseErrorV::UnexpectedEof),
    }
}

/// A literal value: an integer, a text or `NULL`.
pub open spec fn spec_value(t: Seq<TokenV>, p: int) -> Result<(ValueV, int), ParseErrorV> {
    match tok(t, p) {
        Some(TokenV::IntLiteral(n)) => Ok((ValueV::Integer(n), p + 1)),
        Some(TokenV::TextLiteral(s)) => Ok((ValueV::Text(s), p + 1)),
        Some(TokenV::Null) => Ok((ValueV::Null, p + 1)),
        Some(x) => Err(expected_err("value"@, x)),
        None => Err(ParseErrorV::UnexpectedEof),
    }
}

/// A comparison operator.
pub open spec fn spec_cmp_op(t: Seq<TokenV>, p: int) -> Result<(CmpOp, int), ParseErrorV> {
    match tok(t, p) {
        Some(TokenV::Eq) => Ok((CmpOp::Eq, p + 1)),
        Some(TokenV::NotEq) => Ok((CmpOp::NotEq, p + 1)),
        Some(TokenV::Lt) => Ok((CmpOp::Lt, p + 1)),
        Some(TokenV::Lte) => Ok((CmpOp::Lte, p + 1)),
        Some(TokenV::Gt) => Ok((CmpOp::Gt, p + 1)),
        Some(TokenV::Gte) => Ok((CmpOp::Gte, p + 1)),
        Some(x) => Err(expected_err("comparison operator"@, x)),
        None => Err(ParseErrorV::UnexpectedEof),
    }
}

/// `column op value`
pub open spec fn spec_comparison(t: Seq<TokenV>, p: int) -> Result<(ExprV, int), ParseErrorV> {
    match spec_ident(t, p) {
        Err(e) => Err(e),
        Ok((column, p1)) => match spec_cmp_op(t, p1) {
            Err(e) => Err(e),
            Ok((op, p2)) => match spec_value(t, p2) {
                Err(e) => Err(e),
                Ok((value, p3)) => Ok((ExprV::Comparison { column, op, value }, p3)),
            },
        },
    }
}

/// `(OR comparison)*`, folded to the left onto `left`.
pub open spec fn spec_or_rest(t: Seq<TokenV>, p: int, left: ExprV) -> Result<
    (ExprV, int),
    ParseErrorV,
>
    decreases t.len() - p,
{
    if tok(t, p) == Some(TokenV::Or) {
        match spec_comparison(t, p + 1) {
            Err(e) => Err(e),
            Ok((right, q)) => spec_or_rest(t, q, ExprV::Or(Box::new(left), Box::new(right))),
        }
    } else {
        Ok((left, p))
    }
}

/// `comparison (OR comparison)*`
pub open spec fn spec_or(t: Seq<TokenV>, p: int) -> Result<(ExprV, int), ParseErrorV> {
    match spec_comparison(t, p) {
        Err(e) => Err(e),
        Ok((left, q)) => spec_or_rest(t, q, left),
    }
}

/// `(AND or_expr)*`, folded to the left onto `left`.
pub open spec fn spec_and_rest(t: Seq<TokenV>, p: int, left: ExprV) -> Result<
    (ExprV, int),
    ParseErrorV,
>
    decreases t.len() - p,
{
    if tok(t, p) == Some(TokenV::And) {
        proof {
            lemma_or_progress(t, p + 1);
        }
        match spec_or(t, p + 1) {
            Err(e) => Err(e),
            Ok((right, q)) => spec_and_rest(t, q, ExprV::And(Box::new(left), Box::new(right))),
        }
    } else {
        Ok((left, p))
    }
}

/// An expression: `or_expr (AND or_expr)*`. `AND` binds looser than `OR`.
pub open spec fn spec_expr(t: Seq<TokenV>, p: int) -> Result<(ExprV, int), ParseErrorV> {
    match spec_or(t, p) {
        Err(e) => Err(e),
        Ok((left, q)) => spec_and_rest(t, q, left),
    }
}

/// An optional `WHERE expr`.
pub open spec fn spec_where(t: Seq<TokenV>, p: int) -> Result<
    (Option<ExprV>, int),
    ParseErrorV,
> {
    if tok(t, p) == Some(TokenV::Where) {
        match spec_expr(t, p + 1) {
            Err(e) => Err(e),
            Ok((e, q)) => Ok((Some(e), q)),
        }
    } else {
        Ok((None, p))
    }
}

/// Column definitions `name type (, name type)*`, after those in `acc`.
pub open spec fn spec_column_defs(t: Seq<TokenV>, p: int, acc: Seq<ColumnDefV>) -> Result<
    (Seq<ColumnDefV>, int),
    ParseErrorV,
>
    decreases t.len() - p,
{
    match spec_ident(t, p) {
        Err(e) => Err(e),
        Ok((name, p1)) => match spec_ident(t, p1) {
            Err(e) => Err(e),
            Ok((type_word, p2)) => match coltype_of(type_word) {
                None => Err(ParseErrorV::UnknownColType(type_word)),
                Some(col_type) => {
                    let acc2 = acc.push(ColumnDefV { name, col_type });
                    if tok(t, p2) == Some(TokenV::Comma) {
                        spec_column_defs(t, p2 + 1, acc2)
                    } else {
                        Ok((acc2, p2))
                    }
                },
            },
        },
    }
}

/// `CREATE TABLE name ( column_defs )`
pub open spec fn spec_create(t: Seq<TokenV>, p: int) -> Result<(StmtV, int), ParseErrorV> {
    match spec_expect(t, p, TokenV::Create) {
        Err(e) => Err(e),
        Ok(p1) => match spec_expect(t, p1, TokenV::Table) {
            Err(e) => Err(e),
            Ok(p2) => match spec_ident(t, p2) {
                Err(e) => Err(e),
                Ok((table_name, p3)) => match spec_expect(t, p3, TokenV::LParen) {
                    Err(e) => Err(e),
                    Ok(p4) => match spec_column_defs(t, p4, seq![]) {
                        Err(e) => Err(e),
                        Ok((columns, p5)) => match spec_expect(t, p5, TokenV::RParen) {
                            Err(e) => Err(e),
                            Ok(p6) => Ok((StmtV::CreateTable { table_name, columns }, p6)),
                        },
                    },
                },
            },
        },
    }
}

/// Identifiers `name (, name)*`, after those in `acc`.
pub open spec fn spec_ident_list(t: Seq<TokenV>, p: int, acc: Seq<Seq<char>>) -> Result<
    (Seq<Seq<char>>, int),
    ParseErrorV,
>
    decreases t.len() - p,
{
    match spec_ident(t, p) {
        Err(e) => Err(e),
        Ok((name, p1)) => if tok(t, p1) == Some(TokenV::Comma) {
            spec_ident_list(t, p1 + 1, acc.push(name))
        } else {
            Ok((acc.push(name), p1))
        },
    }
}

/// Values `value (, value)*`, after those in `acc`.
pub open spec fn spec_value_list(t: Seq<TokenV>, p: int, acc: Seq<ValueV>) -> Result<
    (Seq<ValueV>, int),
    ParseErrorV,
>
    decreases t.len() - p,
{
    match spec_value(t, p) {
        Err(e) => Err(e),
        Ok((v, p1)) => if tok(t, p1) == Some(TokenV::Comma) {
            spec_value_list(t, p1 + 1, acc.push(v))
        } else {
            Ok((acc.push(v), p1))
        },
    }
}

/// Rows `( values ) (, ( values ))*`, after those in `acc`.
pub open spec fn spec_row_list(t: Seq<TokenV>, p: int, acc: Seq<Seq<ValueV>>) -> Result<
    (Seq<Seq<ValueV>>, int),
    ParseErrorV,
>
    decreases t.len() - p,
{
    match spec_expect(t, p, TokenV::LParen) {
        Err(e) => Err(e),
        Ok(p1) => {
            proof {
                lemma_value_list_progress(t, p1, seq![]);
            }
            match spec_value_list(t, p1, seq![]) {
                Err(e) => Err(e),
                Ok((row, p2)) => match spec_expect(t, p2, TokenV::RParen) {
                    Err(e) => Err(e),
                    Ok(p3) => if tok(t, p3) == Some(TokenV::Comma) {
                        spec_row_list(t, p3 + 1, acc.push(row))
                    } else {
                        Ok((acc.push(row), p3))
                    },
                },
            }
        },
    }
}

/// `INSERT INTO name ( columns ) VALUES rows`
pub open spec fn spec_insert(t: Seq<TokenV>, p: int) -> Result<(StmtV, int), ParseErrorV> {
    match spec_expect(t, p, TokenV::Insert) {
        Err(e) => Err(e),
        Ok(p1) => match spec_expect(t, p1, TokenV::Into) {
            Err(e) => Err(e),
            Ok(p2) => match spec_ident(t, p2) {
                Err(e) => Err(e),
                Ok((table_name, p3)) => match spec_expect(t, p3, TokenV::LParen) {
                    Err(e) => Err(e),
                    Ok(p4) => match spec_ident_list(t, p4, seq![]) {
                        Err(e) => Err(e),
                        Ok((columns, p5)) => match spec_expect(t, p5, TokenV::RParen) {
                            Err(e) => Err(e),
                            Ok(p6) => match spec_expect(t, p6, TokenV::Values) {
                                Err(e) => Err(e),
                                Ok(p7) => match spec_row_list(t, p7, seq![]) {
                                    Err(e) => Err(e),
                                    Ok((rows, p8)) => Ok(
                                        (StmtV::Insert { table_name, columns, rows }, p8),
                                    ),
                                },
                            },
                        },
                    },
                },
            },
        },
    }
}

/// A column reference: `column` or `table.column`.
pub open spec fn spec_column_ref(t: Seq<TokenV>, p: int) -> Result<(ColumnRefV, int), ParseErrorV> {
    match spec_ident(t, p) {
        Err(e) => Err(e),
        Ok((first, p1)) => if tok(t, p1) == Some(TokenV::Dot) {
            match spec_ident(t, p1 + 1) {
                Err(e) => Err(e),
                Ok((column, p2)) => Ok((ColumnRefV { table: Some(first), column }, p2)),
            }
        } else {
            Ok((ColumnRefV { table: None, column: first }, p1))
        },
    }
}

/// Column references `ref (, ref)*`, after those in `acc`.
pub open spec fn spec_column_refs(t: Seq<TokenV>, p: int, acc: Seq<ColumnRefV>) -> Result<
    (Seq<ColumnRefV>, int),
    ParseErrorV,
>
    decreases t.len() - p,
{
    match spec_column_ref(t, p) {
        Err(e) => Err(e),
        Ok((r, p1)) => if tok(t, p1) == Some(TokenV::Comma) {
            spec_column_refs(t, p1 + 1, acc.push(r))
        } else {
            Ok((acc.push(r), p1))
        },
    }
}

/// The select list: `*` or column references.
pub open spec fn spec_select_columns(t: Seq<TokenV>, p: int) -> Result<
    (SelectColumnsV, int),
    ParseErrorV,
> {
    if tok(t, p) == Some(TokenV::Star) {
        Ok((SelectColumnsV::Star, p + 1))
    } else {
        match spec_column_refs(t, p, seq![]) {
            Err(e) => Err(e),
            Ok((refs, q)) => Ok((SelectColumnsV::Named(refs), q)),
        }
    }
}

/// `left_table . left_col = right_table . right_col`
pub open spec fn spec_join_condition(t: Seq<TokenV>, p: int) -> Result<
    (JoinConditionV, int),
    ParseErrorV,
> {
    match spec_ident(t, p) {
        Err(e) => Err(e),
        Ok((left_table, p1)) => match spec_expect(t, p1, TokenV::Dot) {
            Err(e) => Err(e),
            Ok(p2) => match spec_ident(t, p2) {
                Err(e) => Err(e),
                Ok((left_col, p3)) => match spec_expect(t, p3, TokenV::Eq) {
                    Err(e) => Err(e),
                    Ok(p4) => match spec_ident(t, p4) {
                        Err(e) => Err(e),
                        Ok((right_table, p5)) => match spec_expect(t, p5, TokenV::Dot) {
                            Err(e) => Err(e),
                            Ok(p6) => match spec_ident(t, p6) {
                                Err(e) => Err(e),
                                Ok((right_col, p7)) => Ok(
                                    (
                                        JoinConditionV {
                                            left_table,
                                            left_col,
                                            right_table,
                                            right_col,
                                        },
                                        p7,
                                    ),
                                ),
                            },
                        },
                    },
                },
            },
        },
    }
}

/// The join keyword at `p`: `INNER JOIN`, `LEFT JOIN` or `JOIN`, if one starts
/// there; `Ok(None)` where none does.
pub open spec fn spec_join_kind(t: Seq<TokenV>, p: int) -> Result<
    Option<(JoinType, int)>,
    ParseErrorV,
> {
    match tok(t, p) {
        Some(TokenV::Inner) => match spec_expect(t, p + 1, TokenV::Join) {
            Err(e) => Err(e),
            Ok(q) => Ok(Some((JoinType::Inner, q))),
        },
        Some(TokenV::Left) => match spec_expect(t, p + 1, TokenV::Join) {
            Err(e) => Err(e),
            Ok(q) => Ok(Some((JoinType::Left, q))),
        },
        Some(TokenV::Join) => Ok(Some((JoinType::Inner, p + 1))),
        _ => Ok(None),
    }
}

/// Join clauses `kind table ON condition`, after those in `acc`.
pub open spec fn spec_joins(t: Seq<TokenV>, p: int, acc: Seq<JoinClauseV>) -> Result<
    (Seq<JoinClauseV>, int),
    ParseErrorV,
>
    decreases t.len() - p,
{
    match spec_join_kind(t, p) {
        Err(e) => Err(e),
        Ok(None) => Ok((acc, p)),
        Ok(Some((join_type, p1))) => match spec_ident(t, p1) {
            Err(e) => Err(e),
            Ok((table_name, p2)) => match spec_expect(t, p2, TokenV::On) {
                Err(e) => Err(e),
                Ok(p3) => match spec_join_condition(t, p3) {
                    Err(e) => Err(e),
                    Ok((on, p4)) => spec_joins(
                        t,
                        p4,
                        acc.push(JoinClauseV { join_type, table_name, on }),
                    ),
                },
            },
        },
    }
}

/// Ordering terms `column [ASC|DESC] (, column [ASC|DESC])*`, after those in
/// `acc`.
pub open spec fn spec_order_list(t: Seq<TokenV>, p: int, acc: Seq<OrderByClauseV>) -> Result<
    (Seq<OrderByClauseV>, int),
    ParseErrorV,
>
    decreases t.len() - p,
{
    match spec_ident(t, p) {
        Err(e) => Err(e),
        Ok((column, p1)) => {
            let (direction, p2) = if tok(t, p1) == Some(TokenV::Asc) {
                (OrderDirection::Asc, p1 + 1)
            } else if tok(t, p1) == Some(TokenV::Desc) {
                (OrderDirection::Desc, p1 + 1)
            } else {
                (OrderDirection::Asc, p1)
            };
            let acc2 = acc.push(OrderByClauseV { column, direction });
            if tok(t, p2) == Some(TokenV::Comma) {
                spec_order_list(t, p2 + 1, acc2)
            } else {
                Ok((acc2, p2))
            }
        },
    }
}

/// An optional `ORDER BY order_list`.
pub open spec fn spec_order_by(t: Seq<TokenV>, p: int) -> Result<
    (Seq<OrderByClauseV>, int),
    ParseErrorV,
> {
    if tok(t, p) == Some(TokenV::Order) {
        match spec_expect(t, p + 1, TokenV::By) {
            Err(e) => Err(e),
            Ok(q) => spec_order_list(t, q, seq![]),
        }
    } else {
        Ok((seq![], p))
    }
}

/// An optional `LIMIT n`; the integer is converted to `usize` as `as` does.
pub open spec fn spec_limit(t: Seq<TokenV>, p: int) -> Result<(Option<usize>, int), ParseErrorV> {
    if tok(t, p) == Some(TokenV::Limit) {
        match tok(t, p + 1) {
            Some(TokenV::IntLiteral(n)) => Ok((Some(n as usize), p + 2)),
            Some(x) => Err(expected_err("integer"@, x)),
            None => Err(ParseErrorV::UnexpectedEof),
        }
    } else {
        Ok((None, p))
    }
}

/// `SELECT columns FROM table joins [WHERE expr] [ORDER BY ..] [LIMIT n]`
pub open spec fn spec_select(t: Seq<TokenV>, p: int) -> Result<(StmtV, int), ParseErrorV> {
    match spec_expect(t, p, TokenV::Select) {
        Err(e) => Err(e),
        Ok(p1) => match spec_select_columns(t, p1) {
            Err(e) => Err(e),
            Ok((columns, p2)) => match spec_expect(t, p2, TokenV::From) {
                Err(e) => Err(e),
                Ok(p3) => match spec_ident(t, p3) {
                    Err(e) => Err(e),
                    Ok((table_name, p4)) => match spec_joins(t, p4, seq![]) {
                        Err(e) => Err(e),
                        Ok((joins, p5)) => match spec_where(t, p5) {
                            Err(e) => Err(e),
                            Ok((where_clause, p6)) => match spec_order_by(t, p6) {
                                Err(e) => Err(e),
                                Ok((order_by, p7)) => match spec_limit(t, p7) {
                                    Err(e) => Err(e),
                                    Ok((limit, p8)) => Ok(
                                        (
                                            StmtV::Select(
                                                SelectStmtV {
                                                    table_name,
                                                    columns,
                                                    joins,
                                                    where_clause,
                                                    order_by,
                                                    limit,
                                                },
                                            ),
                                            p8,
                                        ),
                                    ),
                                },
                            },
                        },
                    },
                },
            },
        },
    }
}

/// Assignments `column = value (, column = value)*`, after those in `acc`.
pub open spec fn spec_assignments(t: Seq<TokenV>, p: int, acc: Seq<AssignmentV>) -> Result<
    (Seq<AssignmentV>, int),
    ParseErrorV,
>
    decreases t.len() - p,
{
    match spec_ident(t, p) {
        Err(e) => Err(e),
        Ok((column, p1)) => match spec_expect(t, p1, TokenV::Eq) {
            Err(e) => Err(e),
            Ok(p2) => match spec_value(t, p2) {
                Err(e) => Err(e),
                Ok((value, p3)) => {
                    let acc2 = acc.push(AssignmentV { column, value });
                    if tok(t, p3) == Some(TokenV::Comma) {
                        spec_assignments(t, p3 + 1, acc2)
                    } else {
                        Ok((acc2, p3))
                    }
                },
            },
        },
    }
}

/// `UPDATE table SET assignments [WHERE expr]`
pub open spec fn spec_update(t: Seq<TokenV>, p: int) -> Result<(StmtV, int), ParseErrorV> {
    match spec_expect(t, p, TokenV::Update) {
        Err(e) => Err(e),
        Ok(p1) => match spec_ident(t, p1) {
            Err(e) => Err(e),
            Ok((table_name, p2)) => match spec_expect(t, p2, TokenV::SetKw) {
                Err(e) => Err(e),
                Ok(p3) => match spec_assignments(t, p3, seq![]) {
                    Err(e) => Err(e),
                    Ok((assignments, p4)) => match spec_where(t, p4) {
                        Err(e) => Err(e),
                        Ok((where_clause, p5)) => Ok(
                            (StmtV::Update { table_name, assignments, where_clause }, p5),
                        ),
                    },
                },
            },
        },
    }
}

/// `DELETE FROM table [WHERE expr]`
pub open spec fn spec_delete(t: Seq<TokenV>, p: int) -> Result<(StmtV, int), ParseErrorV> {
    match spec_expect(t, p, TokenV::Delete) {
        Err(e) => Err(e),
        Ok(p1) => match spec_expect(t, p1, TokenV::From) {
            Err(e) => Err(e),
            Ok(p2) => match spec_ident(t, p2) {
                Err(e) => Err(e),
                Ok((table_name, p3)) => match spec_where(t, p3) {
                    Err(e) => Err(e),
                    Ok((where_clause, p4)) => Ok(
                        (StmtV::Delete { table_name, where_clause }, p4),
                    ),
                },
            },
        },
    }
}

/// A statement, chosen by its first token.
pub open spec fn spec_stmt(t: Seq<TokenV>, p: int) -> Result<(StmtV, int), ParseErrorV> {
    match tok(t, p) {
        None => Err(ParseErrorV::UnexpectedEof),
        Some(TokenV::Create) => spec_create(t, p),
        Some(TokenV::Insert) => spec_insert(t, p),
        Some(TokenV::Select) => spec_select(t, p),
        Some(TokenV::Update) => spec_update(t, p),
        Some(TokenV::Delete) => spec_delete(t, p),
        Some(other) => Err(ParseErrorV::UnknownStatement(other)),
    }
}

/// Parsing from index `p`: a statement, optionally followed by a semicolon.
/// Tokens after the statement are not looked at.
pub open spec fn spec_parse(t: Seq<TokenV>, p: int) -> Result<StmtV, ParseErrorV> {
    match spec_stmt(t, p) {
        Err(e) => Err(e),
        Ok((s, _)) => Ok(s),
    }
}

// ── Lemmas on positions ──────────────────────────────────────────────────────

pub proof fn lemma_or_rest_progress(t: Seq<TokenV>, p: int, left: ExprV)
    requires
        0 <= p <= t.len(),
    ensures
        spec_or_rest(t, p, left) matches Ok((_, q)) ==> p <= q <= t.len(),
    decreases t.len() - p,
{
    if tok(t, p) == Some(TokenV::Or) {
        match spec_comparison(t, p + 1) {
            Err(e) => {},
            Ok((right, q)) => {
                lemma_or_rest_progress(t, q, ExprV::Or(Box::new(left), Box::new(right)));
            },
        }
    }
}

pub proof fn lemma_or_progress(t: Seq<TokenV>, p: int)
    requires
        0 <= p,
    ensures
        spec_or(t, p) matches Ok((_, q)) ==> p < q <= t.len(),
{
    match spec_comparison(t, p) {
        Err(e) => {},
        Ok((left, q)) => {
            lemma_or_rest_progress(t, q, left);
        },
    }
}

pub proof fn lemma_value_list_progress(t: Seq<TokenV>, p: int, acc: Seq<ValueV>)
    requires
        0 <= p,
    ensures
        spec_value_list(t, p, acc) matches Ok((_, q)) ==> p < q <= t.len(),
    decreases t.len() - p,
{
    match spec_value(t, p) {
        Err(e) => {},
        Ok((v, p1)) => if tok(t, p1) == Some(TokenV::Comma) {
            lemma_value_list_progress(t, p1 + 1, acc.push(v));
        },
    }
}

// ── The parser ───────────────────────────────────────────────────────────────

/// What a parsing function owes: where the grammar parses a `V` up to index
/// `q`, the function returns a `T` of that value and stands at `q`; where the
/// grammar fails, the function returns the same error.
pub open spec fn outcome<T, V>(
    r: Result<T, ParseError>,
    g: Result<(V, int), ParseErrorV>,
    view: spec_fn(T) -> V,
    pos: int,
) -> bool {
    match g {
        Ok((v, q)) => r matches Ok(x) && view(x) == v && pos == q,
        Err(e) => r matches Err(x) && x@ == e,
    }
}

/// A number for each kind of token.
pub open spec fn token_code(t: TokenV) -> u8 {
    match t {
        TokenV::Create => 0,
        TokenV::Table => 1,
        TokenV::Insert => 2,
        TokenV::Into => 3,
        TokenV::Values => 4,
        TokenV::Select => 5,
        TokenV::From => 6,
        TokenV::Where => 7,
        TokenV::And => 8,
        TokenV::Or => 9,
        TokenV::Not => 10,
        TokenV::Null => 11,
        TokenV::Update => 12,
        TokenV::SetKw => 13,
        TokenV::Delete => 14,
        TokenV::Order => 15,
        TokenV::By => 16,
        TokenV::Asc => 17,
        TokenV::Desc => 18,
        TokenV::Limit => 19,
        TokenV::Join => 20,
        TokenV::Inner => 21,
        TokenV::Left => 22,
        TokenV::Right => 23,
        TokenV::On => 24,
        TokenV::Ident(_) => 25,
        TokenV::IntLiteral(_) => 26,
        TokenV::TextLiteral(_) => 27,
        TokenV::LParen => 28,
        TokenV::RParen => 29,
        TokenV::Comma => 30,
        TokenV::Semicolon => 31,
        TokenV::Star => 32,
        TokenV::Dot => 33,
        TokenV::Eq => 34,
        TokenV::NotEq => 35,
        TokenV::Lt => 36,
        TokenV::Lte => 37,
        TokenV::Gt => 38,
        TokenV::Gte => 39,
    }
}

fn code_of(t: &Token) -> (c: u8)
    ensures
        c == token_code(t@),
{
    match t {
        Token::Create => 0,
        Token::Table => 1,
        Token::Insert => 2,
        Token::Into => 3,
        Token::Values => 4,
        Token::Select => 5,
        Token::From => 6,
        Token::Where => 7,
        Token::And => 8,
        Token::Or => 9,
        Token::Not => 10,
        Token::Null => 11,
        Token::Update => 12,
        Token::SetKw => 13,
        Token::Delete => 14,
        Token::Order => 15,
        Token::By => 16,
        Token::Asc => 17,
        Token::Desc => 18,
        Token::Limit => 19,
        Token::Join => 20,
        Token::Inner => 21,
        Token::Left => 22,
        Token::Right => 23,
        Token::On => 24,
        Token::Ident(_) => 25,
        Token::IntLiteral(_) => 26,
        Token::TextLiteral(_) => 27,
        Token::LParen => 28,
        Token::RParen => 29,
        Token::Comma => 30,
        Token::Semicolon => 31,
        Token::Star => 32,
        Token::Dot => 33,
        Token::Eq => 34,
        Token::NotEq => 35,
        Token::Lt => 36,
        Token::Lte => 37,
        Token::Gt => 38,
        Token::Gte => 39,
    }
}

/// Whether `t` is the token `k`, which has no contents.
fn is_token(t: &Token, k: &Token) -> (r: bool)
    requires
        is_unit(k@),
    ensures
        r == (t@ == k@),
{
    code_of(t) == code_of(k)
}

/// The `Debug` name of a token without contents.
fn unit_token_name(k: &Token) -> (s: String)
    ensures
        s@ == token_name(k@),
{
    let name = match k {
        Token::Create => "Create",
        Token::Table => "Table",
        Token::Insert => "Insert",
        Token::Into => "Into",
        Token::Values => "Values",
        Token::Select => "Select",
        Token::From => "From",
        Token::Where => "Where",
        Token::And => "And",
        Token::Or => "Or",
        Token::Not => "Not",
        Token::Null => "Null",
        Token::Update => "Update",
        Token::SetKw => "Set",
        Token::Delete => "Delete",
        Token::Order => "Order",
        Token::By => "By",
        Token::Asc => "Asc",
        Token::Desc => "Desc",
        Token::Limit => "Limit",
        Token::Join => "Join",
        Token::Inner => "Inner",
        Token::Left => "Left",
        Token::Right => "Right",
        Token::On => "On",
        Token::LParen => "LParen",
        Token::RParen => "RParen",
        Token::Comma => "Comma",
        Token::Semicolon => "Semicolon",
        Token::Star => "Star",
        Token::Dot => "Dot",
        Token::Eq => "Eq",
        Token::NotEq => "NotEq",
        Token::Lt => "Lt",
        Token::Lte => "Lte",
        Token::Gt => "Gt",
        Token::Gte => "Gte",
        _ => "",
    };
    proof {
        reveal_strlit("");
    }
    String::from_str(name)
}

/// A recursive-descent parser over a sequence of tokens.
pub struct Parser {
    tokens: Vec<Token>,
    pos: usize,
}

impl Parser {
    /// The values of the tokens.
    pub closed spec fn tokens(&self) -> Seq<TokenV> {
        tokens_view(self.tokens@)
    }

    /// The index of the next token.
    pub closed spec fn position(&self) -> int {
        self.pos as int
    }

    pub closed spec fn wf(&self) -> bool {
        self.pos <= self.tokens.len()
    }

    /// A parser at the first of `tokens`.
    pub fn new(tokens: Vec<Token>) -> (p: Self)
        ensures
            p.wf(),
            p.tokens() == tokens_view(tokens@),
            p.position() == 0,
    {
        Parser { tokens, pos: 0 }
    }

    /// Parses one statement, and the semicolon after it if there is one.
    pub fn parse(self) -> (r: Result<Stmt, ParseError>)
        requires
            self.wf(),
        ensures
            match spec_parse(self.tokens(), self.position()) {
                Ok(s) => r matches Ok(x) && x@ == s,
                Err(e) => r matches Err(x) && x@ == e,
            },
    {
        let mut parser = self;
        let stmt = parser.parse_stmt()?;
        if parser.at(&Token::Semicolon) {
            parser.advance();
        }
        Ok(stmt)
    }

    fn peek(&self) -> (r: Option<&Token>)
        requires
            self.wf(),
        ensures
            match tok(self.tokens(), self.position()) {
                Some(x) => r matches Some(y) && y@ == x,
                None => r is None,
            },
    {
        if self.pos < self.tokens.len() {
            Some(&self.tokens[self.pos])
        } else {
            None
        }
    }

    /// Whether the next token is `k`, a token without contents.
    fn at(&self, k: &Token) -> (r: bool)
        requires
            self.wf(),
            is_unit(k@),
        ensures
            r == (tok(self.tokens(), self.position()) == Some(k@)),
    {
        match self.peek() {
            Some(t) => is_token(t, k),
            None => false,
        }
    }

    fn advance(&mut self) -> (r: Option<Token>)
        requires
            old(self).wf(),
        ensures
            final(self).wf(),
            final(self).tokens() == old(self).tokens(),
            match tok(old(self).tokens(), old(self).position()) {
                Some(x) => r matches Some(y) && y@ == x && final(self).position() == old(
                    self,
                ).position() + 1,
                None => r is None,
            },
    {
        if self.pos < self.tokens.len() {
            let t = self.tokens[self.pos].duplicate();
            self.pos = self.pos + 1;
            Some(t)
        } else {
            None
        }
    }

    fn expect(&mut self, expected: &Token) -> (r: Result<(), ParseError>)
        requires
            old(self).wf(),
            is_unit(expected@),
        ensures
            final(self).wf(),
            final(self).tokens() == old(self).tokens(),
            match spec_expect(old(self).tokens(), old(self).position(), expected@) {
                Ok(q) => r is Ok && final(self).position() == q,
                Err(e) => r matches Err(x) && x@ == e,
            },
    {
        match self.advance() {
            Some(t) => if is_token(&t, expected) {
                Ok(())
            } else {
                Err(ParseError::Expected { expected: unit_token_name(expected), got: t })
            },
            None => Err(ParseError::UnexpectedEof),
        }
    }

    fn expect_ident(&mut self) -> (r: Result<String, ParseError>)
        requires
            old(self).wf(),
        ensures
            final(self).wf(),
            final(self).tokens() == old(self).tokens(),
            outcome(
                r,
                spec_ident(old(self).tokens(), old(self).position()),
                |s: String| s@,
                final(self).position(),
            ),
    {
        match self.advance() {
            Some(Token::Ident(s)) => Ok(s),
            Some(t) => Err(
                ParseError::Expected { expected: String::from_str("identifier"), got: t },
            ),
            None => Err(ParseError::UnexpectedEof),
        }
    }

    fn parse_stmt(&mut self) -> (r: Result<Stmt, ParseError>)
        requires
            old(self).wf(),
        ensures
            final(self).wf(),
            final(self).tokens() == old(self).tokens(),
            outcome(
                r,
                spec_stmt(old(self).tokens(), old(self).position()),
                |s: Stmt| s@,
                final(self).position(),
            ),
    {
        match self.peek() {
            None => Err(ParseError::UnexpectedEof),
            Some(Token::Create) => self.parse_create(),
            Some(Token::Insert) => self.parse_insert(),
            Some(Token::Select) => self.parse_select(),
            Some(Token::Update) => self.parse_update(),
            Some(Token::Delete) => self.parse_delete(),
            Some(other) => Err(ParseError::UnknownStatement(other.duplicate())),
        }
    }
    fn parse_create(&mut self) -> (r: Result<Stmt, ParseError>)
        requires
            old(self).wf(),
        ensures
            final(self).wf(),
            final(self).tokens() == old(self).tokens(),
            outcome(
                r,
                spec_create(old(self).tokens(), old(self).position()),
                |s: Stmt| s@,
                final(self).position(),
            ),
    {
        self.expect(&Token::Create)?;
        self.expect(&Token::Table)?;
        let table_name = self.expect_ident()?;
        self.expect(&Token::LParen)?;
        let columns = self.parse_column_defs()?;
        self.expect(&Token::RParen)?;
        Ok(Stmt::CreateTable(CreateTableStmt { table_name, columns }))
    }

    fn parse_column_defs(&mut self) -> (r: Result<Vec<ColumnDef>, ParseError>)
        requires
            old(self).wf(),
        ensures
            final(self).wf(),
            final(self).tokens() == old(self).tokens(),
            outcome(
                r,
                spec_column_defs(old(self).tokens(), old(self).position(), seq![]),
                |v: Vec<ColumnDef>| v@.map_values(|c: ColumnDef| c@),
                final(self).position(),
            ),
    {
        let ghost t = self.tokens();
        let ghost p0 = self.position();
        let mut columns: Vec<ColumnDef> = Vec::new();
        assert(columns@.map_values(|c: ColumnDef| c@) =~= Seq::<ColumnDefV>::empty());
        loop
            invariant_except_break
                self.wf(),
                self.tokens() == t,
                old(self).tokens() == t,
                old(self).position() == p0,
                spec_column_defs(t, p0, seq![]) == spec_column_defs(
                    t,
                    self.position(),
                    columns@.map_values(|c: ColumnDef| c@),
                ),
            ensures
                self.wf(),
                self.tokens() == t,
                spec_column_defs(t, p0, seq![]) == Ok::<(Seq<ColumnDefV>, int), ParseErrorV>(
                    (columns@.map_values(|c: ColumnDef| c@), self.position()),
                ),
            decreases t.len() - self.position(),
        {
            let ghost acc = columns@.map_values(|c: ColumnDef| c@);
            let name = self.expect_ident()?;
            let type_word = self.expect_ident()?;
            let col_type = match ColType::from_str(type_word.as_str()) {
                Some(c) => c,
                None => {
                    return Err(ParseError::UnknownColType(type_word));
                },
            };
            columns.push(ColumnDef { name, col_type });
            assert(columns@.map_values(|c: ColumnDef| c@) =~= acc.push(
                columns@.last()@,
            ));
            if self.at(&Token::Comma) {
                self.advance();
            } else {
                break;
            }
        }
        Ok(columns)
    }

    fn parse_insert(&mut self) -> (r: Result<Stmt, ParseError>)
        requires
            old(self).wf(),
        ensures
            final(self).wf(),
            final(self).tokens() == old(self).tokens(),
            outcome(
                r,
                spec_insert(old(self).tokens(), old(self).position()),
                |s: Stmt| s@,
                final(self).position(),
            ),
    {
        self.expect(&Token::Insert)?;
        self.expect(&Token::Into)?;
        let table_name = self.expect_ident()?;
        self.expect(&Token::LParen)?;
        let columns = self.parse_ident_list()?;
        self.expect(&Token::RParen)?;
        self.expect(&Token::Values)?;
        let rows = self.parse_row_list()?;
        Ok(Stmt::Insert(InsertStmt { table_name, columns, rows }))
    }

    fn parse_ident_list(&mut self) -> (r: Result<Vec<String>, ParseError>)
        requires
            old(self).wf(),
        ensures
            final(self).wf(),
            final(self).tokens() == old(self).tokens(),
            outcome(
                r,
                spec_ident_list(old(self).tokens(), old(self).position(), seq![]),
                |v: Vec<String>| strings_view(v@),
                final(self).position(),
            ),
    {
        let ghost t = self.tokens();
        let ghost p0 = self.position();
        let mut names: Vec<String> = Vec::new();
        assert(strings_view(names@) =~= Seq::<Seq<char>>::empty());
        loop
            invariant_except_break
                self.wf(),
                self.tokens() == t,
                old(self).tokens() == t,
                old(self).position() == p0,
                spec_ident_list(t, p0, seq![]) == spec_ident_list(
                    t,
                    self.position(),
                    strings_view(names@),
                ),
            ensures
                self.wf(),
                self.tokens() == t,
                spec_ident_list(t, p0, seq![]) == Ok::<(Seq<Seq<char>>, int), ParseErrorV>(
                    (strings_view(names@), self.position()),
                ),
            decreases t.len() - self.position(),
        {
            let ghost acc = strings_view(names@);
            let name = self.expect_ident()?;
            names.push(name);
            assert(strings_view(names@) =~= acc.push(names@.last()@));
            if self.at(&Token::Comma) {
                self.advance();
            } else {
                break;
            }
        }
        Ok(names)
    }

    fn parse_value_list(&mut self) -> (r: Result<Vec<Value>, ParseError>)
        requires
            old(self).wf(),
        ensures
            final(self).wf(),
            final(self).tokens() == old(self).tokens(),
            outcome(
                r,
                spec_value_list(old(self).tokens(), old(self).position(), seq![]),
                |v: Vec<Value>| v@.map_values(|x: Value| x@),
                final(self).position(),
            ),
    {
        let ghost t = self.tokens();
        let ghost p0 = self.position();
        let mut values: Vec<Value> = Vec::new();
        assert(values@.map_values(|x: Value| x@) =~= Seq::<ValueV>::empty());
        loop
            invariant_except_break
                self.wf(),
                self.tokens() == t,
                old(self).tokens() == t,
                old(self).position() == p0,
                spec_value_list(t, p0, seq![]) == spec_value_list(
                    t,
                    self.position(),
                    values@.map_values(|x: Value| x@),
                ),
            ensures
                self.wf(),
                self.tokens() == t,
                spec_value_list(t, p0, seq![]) == Ok::<(Seq<ValueV>, int), ParseErrorV>(
                    (values@.map_values(|x: Value| x@), self.position()),
                ),
            decreases t.len() - self.position(),
        {
            let ghost acc = values@.map_values(|x: Value| x@);
            let v = self.parse_value()?;
            values.push(v);
            assert(values@.map_values(|x: Value| x@) =~= acc.push(values@.last()@));
            if self.at(&Token::Comma) {
                self.advance();
            } else {
                break;
            }
        }
        Ok(values)
    }

    fn parse_row_list(&mut self) -> (r: Result<Vec<Vec<Value>>, ParseError>)
        requires
            old(self).wf(),
        ensures
            final(self).wf(),
            final(self).tokens() == old(self).tokens(),
            outcome(
                r,
                spec_row_list(old(self).tokens(), old(self).position(), seq![]),
                |v: Vec<Vec<Value>>| rows_view(v@),
                final(self).position(),
            ),
    {
        let ghost t = self.tokens();
        let ghost p0 = self.position();
        let mut rows: Vec<Vec<Value>> = Vec::new();
        assert(rows_view(rows@) =~= Seq::<Seq<ValueV>>::empty());
        loop
            invariant_except_break
                self.wf(),
                self.tokens() == t,
                old(self).tokens() == t,
                old(self).position() == p0,
                spec_row_list(t, p0, seq![]) == spec_row_list(
                    t,
                    self.position(),
                    rows_view(rows@),
                ),
            ensures
                self.wf(),
                self.tokens() == t,
                spec_row_list(t, p0, seq![]) == Ok::<(Seq<Seq<ValueV>>, int), ParseErrorV>(
                    (rows_view(rows@), self.position()),
                ),
            decreases t.len() - self.position(),
        {
            let ghost acc = rows_view(rows@);
            let ghost p = self.position();
            self.expect(&Token::LParen)?;
            proof {
                lemma_value_list_progress(t, p + 1, seq![]);
            }
            let row = self.parse_value_list()?;
            self.expect(&Token::RParen)?;
            rows.push(row);
            assert(rows_view(rows@) =~= acc.push(rows@.last()@.map_values(|x: Value| x@)));
            if self.at(&Token::Comma) {
                self.advance();
            } else {
                break;
            }
        }
        Ok(rows)
    }

    fn parse_select(&mut self) -> (r: Result<Stmt, ParseError>)
        requires
            old(self).wf(),
        ensures
            final(self).wf(),
            final(self).tokens() == old(self).tokens(),
            outcome(
                r,
                spec_select(old(self).tokens(), old(self).position()),
                |s: Stmt| s@,
                final(self).position(),
            ),
    {
        self.expect(&Token::Select)?;
        let columns = self.parse_select_columns()?;
        self.expect(&Token::From)?;
        let table_name = self.expect_ident()?;
        let joins = self.parse_joins()?;
        let where_clause = self.parse_where()?;
        let order_by = self.parse_order_by()?;
        let limit = self.parse_limit()?;
        Ok(
            Stmt::Select(
                SelectStmt { table_name, columns, joins, where_clause, order_by, limit },
            ),
        )
    }

    /// The select list: `*` or column references.
    fn parse_select_columns(&mut self) -> (r: Result<SelectColumns, ParseError>)
        requires
            old(self).wf(),
        ensures
            final(self).wf(),
            final(self).tokens() == old(self).tokens(),
            outcome(
                r,
                spec_select_columns(old(self).tokens(), old(self).position()),
                |c: SelectColumns| c@,
                final(self).position(),
            ),
    {
        if self.at(&Token::Star) {
            self.advance();
            Ok(SelectColumns::Star)
        } else {
            Ok(SelectColumns::Named(self.parse_column_refs()?))
        }
    }

    /// An optional `ORDER BY` clause.
    fn parse_order_by(&mut self) -> (r: Result<Vec<OrderByClause>, ParseError>)
        requires
            old(self).wf(),
        ensures
            final(self).wf(),
            final(self).tokens() == old(self).tokens(),
            outcome(
                r,
                spec_order_by(old(self).tokens(), old(self).position()),
                |v: Vec<OrderByClause>| v@.map_values(|o: OrderByClause| o@),
                final(self).position(),
            ),
    {
        if self.at(&Token::Order) {
            self.advance();
            self.expect(&Token::By)?;
            self.parse_order_list()
        } else {
            let v: Vec<OrderByClause> = Vec::new();
            assert(v@.map_values(|o: OrderByClause| o@) =~= Seq::<OrderByClauseV>::empty());
            Ok(v)
        }
    }

    /// An optional `LIMIT n`.
    fn parse_limit(&mut self) -> (r: Result<Option<usize>, ParseError>)
        requires
            old(self).wf(),
        ensures
            final(self).wf(),
            final(self).tokens() == old(self).tokens(),
            outcome(
                r,
                spec_limit(old(self).tokens(), old(self).position()),
                |l: Option<usize>| l,
                final(self).position(),
            ),
    {
        if self.at(&Token::Limit) {
            self.advance();
            match self.advance() {
                Some(Token::IntLiteral(n)) => Ok(Some(n as usize)),
                Some(t) => Err(
                    ParseError::Expected { expected: String::from_str("integer"), got: t },
                ),
                None => Err(ParseError::UnexpectedEof),
            }
        } else {
            Ok(None)
        }
    }

    fn parse_column_refs(&mut self) -> (r: Result<Vec<ColumnRef>, ParseError>)
        requires
            old(self).wf(),
        ensures
            final(self).wf(),
            final(self).tokens() == old(self).tokens(),
            outcome(
                r,
                spec_column_refs(old(self).tokens(), old(self).position(), seq![]),
                |v: Vec<ColumnRef>| v@.map_values(|c: ColumnRef| c@),
                final(self).position(),
            ),
    {
        let ghost t = self.tokens();
        let ghost p0 = self.position();
        let mut refs: Vec<ColumnRef> = Vec::new();
        assert(refs@.map_values(|c: ColumnRef| c@) =~= Seq::<ColumnRefV>::empty());
        loop
            invariant_except_break
                self.wf(),
                self.tokens() == t,
                old(self).tokens() == t,
                old(self).position() == p0,
                spec_column_refs(t, p0, seq![]) == spec_column_refs(
                    t,
                    self.position(),
                    refs@.map_values(|c: ColumnRef| c@),
                ),
            ensures
                self.wf(),
                self.tokens() == t,
                spec_column_refs(t, p0, seq![]) == Ok::<(Seq<ColumnRefV>, int), ParseErrorV>(
                    (refs@.map_values(|c: ColumnRef| c@), self.position()),
                ),
            decreases t.len() - self.position(),
        {
            let ghost acc = refs@.map_values(|c: ColumnRef| c@);
            let c = self.parse_column_ref()?;
            refs.push(c);
            assert(refs@.map_values(|c: ColumnRef| c@) =~= acc.push(refs@.last()@));
            if self.at(&Token::Comma) {
                self.advance();
            } else {
                break;
            }
        }
        Ok(refs)
    }

    /// A column reference: `col` or `table.col`.
    fn parse_column_ref(&mut self) -> (r: Result<ColumnRef, ParseError>)
        requires
            old(self).wf(),
        ensures
            final(self).wf(),
            final(self).tokens() == old(self).tokens(),
            outcome(
                r,
                spec_column_ref(old(self).tokens(), old(self).position()),
                |c: ColumnRef| c@,
                final(self).position(),
            ),
    {
        let first = self.expect_ident()?;
        if self.at(&Token::Dot) {
            self.advance();
            let col = self.expect_ident()?;
            Ok(ColumnRef::qualified(first.as_str(), col.as_str()))
        } else {
            Ok(ColumnRef::unqualified(first.as_str()))
        }
    }

    fn parse_joins(&mut self) -> (r: Result<Vec<JoinClause>, ParseError>)
        requires
            old(self).wf(),
        ensures
            final(self).wf(),
            final(self).tokens() == old(self).tokens(),
            outcome(
                r,
                spec_joins(old(self).tokens(), old(self).position(), seq![]),
                |v: Vec<JoinClause>| v@.map_values(|j: JoinClause| j@),
                final(self).position(),
            ),
    {
        let ghost t = self.tokens();
        let ghost p0 = self.position();
        let mut joins: Vec<JoinClause> = Vec::new();
        assert(joins@.map_values(|j: JoinClause| j@) =~= Seq::<JoinClauseV>::empty());
        loop
            invariant_except_break
                self.wf(),
                self.tokens() == t,
                old(self).tokens() == t,
                old(self).position() == p0,
                spec_joins(t, p0, seq![]) == spec_joins(
                    t,
                    self.position(),
                    joins@.map_values(|j: JoinClause| j@),
                ),
            ensures
                self.wf(),
                self.tokens() == t,
                spec_joins(t, p0, seq![]) == Ok::<(Seq<JoinClauseV>, int), ParseErrorV>(
                    (joins@.map_values(|j: JoinClause| j@), self.position()),
                ),
            decreases t.len() - self.position(),
        {
            let ghost acc = joins@.map_values(|j: JoinClause| j@);
            let join_type = if self.at(&Token::Inner) {
                self.advance();
                self.expect(&Token::Join)?;
                JoinType::Inner
            } else if self.at(&Token::Left) {
                self.advance();
                self.expect(&Token::Join)?;
                JoinType::Left
            } else if self.at(&Token::Join) {
                self.advance();
                JoinType::Inner
            } else {
                break;
            };
            let join_table = self.expect_ident()?;
            self.expect(&Token::On)?;
            let on = self.parse_join_condition()?;
            joins.push(JoinClause { join_type, table_name: join_table, on });
            assert(joins@.map_values(|j: JoinClause| j@) =~= acc.push(joins@.last()@));
        }
        Ok(joins)
    }

    /// `left_table.left_col = right_table.right_col`
    fn parse_join_condition(&mut self) -> (r: Result<JoinCondition, ParseError>)
        requires
            old(self).wf(),
        ensures
            final(self).wf(),
            final(self).tokens() == old(self).tokens(),
            outcome(
                r,
                spec_join_condition(old(self).tokens(), old(self).position()),
                |c: JoinCondition| c@,
                final(self).position(),
            ),
    {
        let left_table = self.expect_ident()?;
        self.expect(&Token::Dot)?;
        let left_col = self.expect_ident()?;
        self.expect(&Token::Eq)?;
        let right_table = self.expect_ident()?;
        self.expect(&Token::Dot)?;
        let right_col = self.expect_ident()?;
        Ok(JoinCondition { left_table, left_col, right_table, right_col })
    }

    fn parse_order_list(&mut self) -> (r: Result<Vec<OrderByClause>, ParseError>)
        requires
            old(self).wf(),
        ensures
            final(self).wf(),
            final(self).tokens() == old(self).tokens(),
            outcome(
                r,
                spec_order_list(old(self).tokens(), old(self).position(), seq![]),
                |v: Vec<OrderByClause>| v@.map_values(|o: OrderByClause| o@),
                final(self).position(),
            ),
    {
        let ghost t = self.tokens();
        let ghost p0 = self.position();
        let mut terms: Vec<OrderByClause> = Vec::new();
        assert(terms@.map_values(|o: OrderByClause| o@) =~= Seq::<OrderByClauseV>::empty());
        loop
            invariant_except_break
                self.wf(),
                self.tokens() == t,
                old(self).tokens() == t,
                old(self).position() == p0,
                spec_order_list(t, p0, seq![]) == spec_order_list(
                    t,
                    self.position(),
                    terms@.map_values(|o: OrderByClause| o@),
                ),
            ensures
                self.wf(),
                self.tokens() == t,
                spec_order_list(t, p0, seq![]) == Ok::<
                    (Seq<OrderByClauseV>, int),
                    ParseErrorV,
                >((terms@.map_values(|o: OrderByClause| o@), self.position())),
            decreases t.len() - self.position(),
        {
            let ghost acc = terms@.map_values(|o: OrderByClause| o@);
            let column = self.expect_ident()?;
            let direction = if self.at(&Token::Asc) {
                self.advance();
                OrderDirection::Asc
            } else if self.at(&Token::Desc) {
                self.advance();
                OrderDirection::Desc
            } else {
                OrderDirection::Asc
            };
            terms.push(OrderByClause { column, direction });
            assert(terms@.map_values(|o: OrderByClause| o@) =~= acc.push(terms@.last()@));
            if self.at(&Token::Comma) {
                self.advance();
            } else {
                break;
            }
        }
        Ok(terms)
    }

    fn parse_update(&mut self) -> (r: Result<Stmt, ParseError>)
        requires
            old(self).wf(),
        ensures
            final(self).wf(),
            final(self).tokens() == old(self).tokens(),
            outcome(
                r,
                spec_update(old(self).tokens(), old(self).position()),
                |s: Stmt| s@,
                final(self).position(),
            ),
    {
        self.expect(&Token::Update)?;
        let table_name = self.expect_ident()?;
        self.expect(&Token::SetKw)?;
        let assignments = self.parse_assignments()?;
        let where_clause = self.parse_where()?;
        Ok(Stmt::Update(UpdateStmt { table_name, assignments, where_clause }))
    }

    fn parse_assignments(&mut self) -> (r: Result<Vec<Assignment>, ParseError>)
        requires
            old(self).wf(),
        ensures
            final(self).wf(),
            final(self).tokens() == old(self).tokens(),
            outcome(
                r,
                spec_assignments(old(self).tokens(), old(self).position(), seq![]),
                |v: Vec<Assignment>| v@.map_values(|a: Assignment| a@),
                final(self).position(),
            ),
    {
        let ghost t = self.tokens();
        let ghost p0 = self.position();
        let mut assignments: Vec<Assignment> = Vec::new();
        assert(assignments@.map_values(|a: Assignment| a@) =~= Seq::<AssignmentV>::empty());
        loop
            invariant_except_break
                self.wf(),
                self.tokens() == t,
                old(self).tokens() == t,
                old(self).position() == p0,
                spec_assignments(t, p0, seq![]) == spec_assignments(
                    t,
                    self.position(),
                    assignments@.map_values(|a: Assignment| a@),
                ),
            ensures
                self.wf(),
                self.tokens() == t,
                spec_assignments(t, p0, seq![]) == Ok::<(Seq<AssignmentV>, int), ParseErrorV>(
                    (assignments@.map_values(|a: Assignment| a@), self.position()),
                ),
            decreases t.len() - self.position(),
        {
            let ghost acc = assignments@.map_values(|a: Assignment| a@);
            let column = self.expect_ident()?;
            self.expect(&Token::Eq)?;
            let value = self.parse_value()?;
            assignments.push(Assignment { column, value });
            assert(assignments@.map_values(|a: Assignment| a@) =~= acc.push(
                assignments@.last()@,
            ));
            if self.at(&Token::Comma) {
                self.advance();
            } else {
                break;
            }
        }
        Ok(assignments)
    }

    fn parse_delete(&mut self) -> (r: Result<Stmt, ParseError>)
        requires
            old(self).wf(),
        ensures
            final(self).wf(),
            final(self).tokens() == old(self).tokens(),
            outcome(
                r,
                spec_delete(old(self).tokens(), old(self).position()),
                |s: Stmt| s@,
                final(self).position(),
            ),
    {
        self.expect(&Token::Delete)?;
        self.expect(&Token::From)?;
        let table_name = self.expect_ident()?;
        let where_clause = self.parse_where()?;
        Ok(Stmt::Delete(DeleteStmt { table_name, where_clause }))
    }

    /// An optional `WHERE` clause.
    fn parse_where(&mut self) -> (r: Result<Option<Expr>, ParseError>)
        requires
            old(self).wf(),
        ensures
            final(self).wf(),
            final(self).tokens() == old(self).tokens(),
            outcome(
                r,
                spec_where(old(self).tokens(), old(self).position()),
                |e: Option<Expr>| opt_expr_view(e),
                final(self).position(),
            ),
    {
        if self.at(&Token::Where) {
            self.advance();
            Ok(Some(self.parse_expr()?))
        } else {
            Ok(None)
        }
    }

    fn parse_expr(&mut self) -> (r: Result<Expr, ParseError>)
        requires
            old(self).wf(),
        ensures
            final(self).wf(),
            final(self).tokens() == old(self).tokens(),
            outcome(
                r,
                spec_expr(old(self).tokens(), old(self).position()),
                |e: Expr| e@,
                final(self).position(),
            ),
    {
        self.parse_and()
    }

    fn parse_and(&mut self) -> (r: Result<Expr, ParseError>)
        requires
            old(self).wf(),
        ensures
            final(self).wf(),
            final(self).tokens() == old(self).tokens(),
            outcome(
                r,
                spec_expr(old(self).tokens(), old(self).position()),
                |e: Expr| e@,
                final(self).position(),
            ),
    {
        let ghost t = self.tokens();
        let ghost p0 = self.position();
        let mut left = self.parse_or()?;
        let ghost p1 = self.position();
        let ghost left0 = left@;
        loop
            invariant_except_break
                self.wf(),
                self.tokens() == t,
                old(self).tokens() == t,
                old(self).position() == p0,
                spec_and_rest(t, p1, left0) == spec_and_rest(t, self.position(), left@),
                spec_expr(t, p0) == spec_and_rest(t, p1, left0),
            ensures
                self.wf(),
                self.tokens() == t,
                spec_and_rest(t, p1, left0) == Ok::<(ExprV, int), ParseErrorV>(
                    (left@, self.position()),
                ),
            decreases t.len() - self.position(),
        {
            if !self.at(&Token::And) {
                break;
            }
            let ghost p = self.position();
            proof {
                lemma_or_progress(t, p + 1);
            }
            self.advance();
            let right = self.parse_or()?;
            left = Expr::And(Box::new(left), Box::new(right));
        }
        Ok(left)
    }

    fn parse_or(&mut self) -> (r: Result<Expr, ParseError>)
        requires
            old(self).wf(),
        ensures
            final(self).wf(),
            final(self).tokens() == old(self).tokens(),
            outcome(
                r,
                spec_or(old(self).tokens(), old(self).position()),
                |e: Expr| e@,
                final(self).position(),
            ),
    {
        let ghost t = self.tokens();
        let ghost p0 = self.position();
        let mut left = self.parse_comparison()?;
        let ghost p1 = self.position();
        let ghost left0 = left@;
        loop
            invariant_except_break
                self.wf(),
                self.tokens() == t,
                old(self).tokens() == t,
                old(self).position() == p0,
                spec_or_rest(t, p1, left0) == spec_or_rest(t, self.position(), left@),
                spec_or(t, p0) == spec_or_rest(t, p1, left0),
            ensures
                self.wf(),
                self.tokens() == t,
                spec_or_rest(t, p1, left0) == Ok::<(ExprV, int), ParseErrorV>(
                    (left@, self.position()),
                ),
            decreases t.len() - self.position(),
        {
            if !self.at(&Token::Or) {
                break;
            }
            self.advance();
            let right = self.parse_comparison()?;
            left = Expr::Or(Box::new(left), Box::new(right));
        }
        Ok(left)
    }

    fn parse_comparison(&mut self) -> (r: Result<Expr, ParseError>)
        requires
            old(self).wf(),
        ensures
            final(self).wf(),
            final(self).tokens() == old(self).tokens(),
            outcome(
                r,
                spec_comparison(old(self).tokens(), old(self).position()),
                |e: Expr| e@,
                final(self).position(),
            ),
    {
        let column = self.expect_ident()?;
        let op = self.parse_cmp_op()?;
        let value = self.parse_value()?;
        Ok(Expr::Comparison { column, op, value })
    }

    fn parse_cmp_op(&mut self) -> (r: Result<CmpOp, ParseError>)
        requires
            old(self).wf(),
        ensures
            final(self).wf(),
            final(self).tokens() == old(self).tokens(),
            outcome(
                r,
                spec_cmp_op(old(self).tokens(), old(self).position()),
                |o: CmpOp| o,
                final(self).position(),
            ),
    {
        match self.advance() {
            Some(Token::Eq) => Ok(CmpOp::Eq),
            Some(Token::NotEq) => Ok(CmpOp::NotEq),
            Some(Token::Lt) => Ok(CmpOp::Lt),
            Some(Token::Lte) => Ok(CmpOp::Lte),
            Some(Token::Gt) => Ok(CmpOp::Gt),
            Some(Token::Gte) => Ok(CmpOp::Gte),
            Some(t) => Err(
                ParseError::Expected {
                    expected: String::from_str("comparison operator"),
                    got: t,
                },
            ),
            None => Err(ParseError::UnexpectedEof),
        }
    }

    fn parse_value(&mut self) -> (r: Result<Value, ParseError>)
        requires
            old(self).wf(),
        ensures
            final(self).wf(),
            final(self).tokens() == old(self).tokens(),
            outcome(
                r,
                spec_value(old(self).tokens(), old(self).position()),
                |v: Value| v@,
                final(self).position(),
            ),
    {
        match self.advance() {
            Some(Token::IntLiteral(n)) => Ok(Value::Integer(n)),
            Some(Token::TextLiteral(s)) => Ok(Value::Text(s)),
            Some(Token::Null) => Ok(Value::Null),
            Some(t) => Err(ParseError::Expected { expected: String::from_str("value"), got: t }),
            None => Err(ParseError::UnexpectedEof),
        }
    }
}

} // verus!
