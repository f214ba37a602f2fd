//! Laws of the lexer and the parser: an integer literal lexes to the value
//! `str::parse::<i64>` gives its text, a minus sign negates it; and a
//! statement parses the same with one more semicolon after its tokens (the
//! grammar looks at a token past the statement only to see whether an
//! optional part starts there, and a semicolon starts none).
use super::ast::{AssignmentV, ColumnDefV, ColumnRefV, ExprV, JoinClauseV, OrderByClauseV, ValueV};
use super::parser::{
    lemma_or_progress, lemma_value_list_progress, spec_and_rest, spec_assignments, spec_cmp_op,
    spec_column_defs, spec_column_ref, spec_column_refs, spec_comparison, spec_create,
    spec_delete, spec_expect, spec_expr, spec_ident, spec_ident_list, spec_insert,
    spec_join_condition, spec_join_kind, spec_joins, spec_limit, spec_or, spec_or_rest,
    spec_order_by, spec_order_list, spec_parse, spec_row_list, spec_select, spec_select_columns,
    spec_stmt, spec_update, spec_value, spec_value_list, spec_where, tok,
};
use super::lexer::{digits_value, lex_from, scan_digits, scan_whitespace, LexOutcome};
use super::token::TokenV;
use crate::text::{all_digits, decimal_value, parse_i64};
use vstd::prelude::*;

verus! {

/// With a semicolon appended, every index but the old end reads as before.
proof fn lemma_tok_semi(t: Seq<TokenV>, u: Seq<TokenV>)
    requires
        u == t.push(TokenV::Semicolon),
    ensures
        forall|q: int| #[trigger] tok(u, q) == if q == t.len() {
            Some(TokenV::Semicolon)
        } else {
            tok(t, q)
        },
        tok(t, t.len() as int) is None,
{
}

/// The single-token parts read the same where they succeed.
proof fn lemma_semi_leaves(t: Seq<TokenV>, u: Seq<TokenV>)
    requires
        u == t.push(TokenV::Semicolon),
    ensures
        forall|p: int, k: TokenV|
            spec_expect(t, p, k) is Ok ==> #[trigger] spec_expect(u, p, k) == spec_expect(t, p, k),
        forall|p: int| spec_ident(t, p) is Ok ==> #[trigger] spec_ident(u, p) == spec_ident(t, p),
        forall|p: int| spec_value(t, p) is Ok ==> #[trigger] spec_value(u, p) == spec_value(t, p),
        forall|p: int| spec_cmp_op(t, p) is Ok ==> #[trigger] spec_cmp_op(u, p) == spec_cmp_op(t, p),
        forall|p: int|
            spec_comparison(t, p) is Ok ==> #[trigger] spec_comparison(u, p) == spec_comparison(t, p),
        forall|p: int|
            spec_column_ref(t, p) is Ok ==> #[trigger] spec_column_ref(u, p) == spec_column_ref(t, p),
        forall|p: int|
            spec_join_condition(t, p) is Ok ==> #[trigger] spec_join_condition(u, p)
                == spec_join_condition(t, p),
        forall|p: int|
            spec_join_kind(t, p) is Ok ==> #[trigger] spec_join_kind(u, p) == spec_join_kind(t, p),
        forall|p: int| spec_limit(t, p) is Ok ==> #[trigger] spec_limit(u, p) == spec_limit(t, p),
{
    lemma_tok_semi(t, u);
    assert forall|p: int| spec_comparison(t, p) is Ok implies #[trigger] spec_comparison(u, p)
        == spec_comparison(t, p) by {
        let (c, p1) = spec_ident(t, p)->Ok_0;
        let (o, p2) = spec_cmp_op(t, p1)->Ok_0;
        assert(spec_ident(u, p) == spec_ident(t, p));
        assert(spec_cmp_op(u, p1) == spec_cmp_op(t, p1));
        assert(spec_value(u, p2) == spec_value(t, p2));
    }
    assert forall|p: int| spec_column_ref(t, p) is Ok implies #[trigger] spec_column_ref(u, p)
        == spec_column_ref(t, p) by {
        let (c, p1) = spec_ident(t, p)->Ok_0;
        assert(spec_ident(u, p) == spec_ident(t, p));
        if tok(t, p1) == Some(TokenV::Dot) {
            assert(spec_ident(u, p1 + 1) == spec_ident(t, p1 + 1));
        }
    }
    assert forall|p: int| spec_join_condition(t, p) is Ok implies #[trigger] spec_join_condition(
        u,
        p,
    ) == spec_join_condition(t, p) by {
        let (a, p1) = spec_ident(t, p)->Ok_0;
        let p2 = spec_expect(t, p1, TokenV::Dot)->Ok_0;
        let (b, p3) = spec_ident(t, p2)->Ok_0;
        let p4 = spec_expect(t, p3, TokenV::Eq)->Ok_0;
        let (c, p5) = spec_ident(t, p4)->Ok_0;
        let p6 = spec_expect(t, p5, TokenV::Dot)->Ok_0;
        assert(spec_ident(u, p) == spec_ident(t, p));
        assert(spec_expect(u, p1, TokenV::Dot) == spec_expect(t, p1, TokenV::Dot));
        assert(spec_ident(u, p2) == spec_ident(t, p2));
        assert(spec_expect(u, p3, TokenV::Eq) == spec_expect(t, p3, TokenV::Eq));
        assert(spec_ident(u, p4) == spec_ident(t, p4));
        assert(spec_expect(u, p5, TokenV::Dot) == spec_expect(t, p5, TokenV::Dot));
        assert(spec_ident(u, p6) == spec_ident(t, p6));
    }
}

proof fn lemma_semi_or_rest(t: Seq<TokenV>, u: Seq<TokenV>, p: int, left: ExprV)
    requires
        u == t.push(TokenV::Semicolon),
    ensures
        spec_or_rest(t, p, left) is Ok ==> spec_or_rest(u, p, left) == spec_or_rest(t, p, left),
    decreases t.len() - p,
{
    lemma_tok_semi(t, u);
    lemma_semi_leaves(t, u);
    if tok(t, p) == Some(TokenV::Or) {
        if let Ok((right, q)) = spec_comparison(t, p + 1) {
            assert(spec_comparison(u, p + 1) == spec_comparison(t, p + 1));
            lemma_semi_or_rest(t, u, q, ExprV::Or(Box::new(left), Box::new(right)));
        }
    }
}

proof fn lemma_semi_or(t: Seq<TokenV>, u: Seq<TokenV>, p: int)
    requires
        u == t.push(TokenV::Semicolon),
    ensures
        spec_or(t, p) is Ok ==> spec_or(u, p) == spec_or(t, p),
{
    lemma_semi_leaves(t, u);
    if let Ok((left, q)) = spec_comparison(t, p) {
        assert(spec_comparison(u, p) == spec_comparison(t, p));
        lemma_semi_or_rest(t, u, q, left);
    }
}

proof fn lemma_semi_and_rest(t: Seq<TokenV>, u: Seq<TokenV>, p: int, left: ExprV)
    requires
        u == t.push(TokenV::Semicolon),
    ensures
        spec_and_rest(t, p, left) is Ok ==> spec_and_rest(u, p, left) == spec_and_rest(t, p, left),
    decreases t.len() - p,
{
    lemma_tok_semi(t, u);
    if tok(t, p) == Some(TokenV::And) {
        lemma_or_progress(t, p + 1);
        lemma_semi_or(t, u, p + 1);
        if let Ok((right, q)) = spec_or(t, p + 1) {
            lemma_semi_and_rest(t, u, q, ExprV::And(Box::new(left), Box::new(right)));
        }
    }
}

proof fn lemma_semi_expr(t: Seq<TokenV>, u: Seq<TokenV>, p: int)
    requires
        u == t.push(TokenV::Semicolon),
    ensures
        spec_expr(t, p) is Ok ==> spec_expr(u, p) == spec_expr(t, p),
{
    lemma_semi_or(t, u, p);
    if 0 <= p {
        lemma_or_progress(t, p);
    }
    if let Ok((left, q)) = spec_or(t, p) {
        lemma_semi_and_rest(t, u, q, left);
    }
}

proof fn lemma_semi_where(t: Seq<TokenV>, u: Seq<TokenV>, p: int)
    requires
        u == t.push(TokenV::Semicolon),
    ensures
        spec_where(t, p) is Ok ==> spec_where(u, p) == spec_where(t, p),
{
    lemma_tok_semi(t, u);
    lemma_semi_expr(t, u, p + 1);
}

proof fn lemma_semi_column_defs(t: Seq<TokenV>, u: Seq<TokenV>, p: int, acc: Seq<ColumnDefV>)
    requires
        u == t.push(TokenV::Semicolon),
    ensures
        spec_column_defs(t, p, acc) is Ok ==> spec_column_defs(u, p, acc) == spec_column_defs(
            t,
            p,
            acc,
        ),
    decreases t.len() - p,
{
    lemma_tok_semi(t, u);
    lemma_semi_leaves(t, u);
    if let Ok((name, p1)) = spec_ident(t, p) {
        assert(spec_ident(u, p) == spec_ident(t, p));
        if let Ok((w, p2)) = spec_ident(t, p1) {
            assert(spec_ident(u, p1) == spec_ident(t, p1));
            if let Some(ct) = crate::catalog::coltype_of(w) {
                if tok(t, p2) == Some(TokenV::Comma) {
                    lemma_semi_column_defs(t, u, p2 + 1, acc.push(ColumnDefV { name, col_type: ct }));
                }
            }
        }
    }
}

proof fn lemma_semi_ident_list(t: Seq<TokenV>, u: Seq<TokenV>, p: int, acc: Seq<Seq<char>>)
    requires
        u == t.push(TokenV::Semicolon),
    ensures
        spec_ident_list(t, p, acc) is Ok ==> spec_ident_list(u, p, acc) == spec_ident_list(
            t,
            p,
            acc,
        ),
    decreases t.len() - p,
{
    lemma_tok_semi(t, u);
    lemma_semi_leaves(t, u);
    if let Ok((name, p1)) = spec_ident(t, p) {
        assert(spec_ident(u, p) == spec_ident(t, p));
        if tok(t, p1) == Some(TokenV::Comma) {
            lemma_semi_ident_list(t, u, p1 + 1, acc.push(name));
        }
    }
}

proof fn lemma_semi_value_list(t: Seq<TokenV>, u: Seq<TokenV>, p: int, acc: Seq<ValueV>)
    requires
        u == t.push(TokenV::Semicolon),
    ensures
        spec_value_list(t, p, acc) is Ok ==> spec_value_list(u, p, acc) == spec_value_list(
            t,
            p,
            acc,
        ),
    decreases t.len() - p,
{
    lemma_tok_semi(t, u);
    lemma_semi_leaves(t, u);
    if let Ok((v, p1)) = spec_value(t, p) {
        assert(spec_value(u, p) == spec_value(t, p));
        if tok(t, p1) == Some(TokenV::Comma) {
            lemma_semi_value_list(t, u, p1 + 1, acc.push(v));
        }
    }
}

proof fn lemma_semi_row_list(t: Seq<TokenV>, u: Seq<TokenV>, p: int, acc: Seq<Seq<ValueV>>)
    requires
        u == t.push(TokenV::Semicolon),
    ensures
        spec_row_list(t, p, acc) is Ok ==> spec_row_list(u, p, acc) == spec_row_list(t, p, acc),
    decreases t.len() - p,
{
    lemma_tok_semi(t, u);
    lemma_semi_leaves(t, u);
    if let Ok(p1) = spec_expect(t, p, TokenV::LParen) {
        assert(spec_expect(u, p, TokenV::LParen) == spec_expect(t, p, TokenV::LParen));
        lemma_value_list_progress(t, p1, seq![]);
        lemma_semi_value_list(t, u, p1, seq![]);
        if let Ok((row, p2)) = spec_value_list(t, p1, seq![]) {
            if let Ok(p3) = spec_expect(t, p2, TokenV::RParen) {
                assert(spec_expect(u, p2, TokenV::RParen) == spec_expect(t, p2, TokenV::RParen));
                if tok(t, p3) == Some(TokenV::Comma) {
                    lemma_semi_row_list(t, u, p3 + 1, acc.push(row));
                }
            }
        }
    }
}

proof fn lemma_semi_column_refs(t: Seq<TokenV>, u: Seq<TokenV>, p: int, acc: Seq<ColumnRefV>)
    requires
        u == t.push(TokenV::Semicolon),
    ensures
        spec_column_refs(t, p, acc) is Ok ==> spec_column_refs(u, p, acc) == spec_column_refs(
            t,
            p,
            acc,
        ),
    decreases t.len() - p,
{
    lemma_tok_semi(t, u);
    lemma_semi_leaves(t, u);
    if let Ok((r, p1)) = spec_column_ref(t, p) {
        assert(spec_column_ref(u, p) == spec_column_ref(t, p));
        if tok(t, p1) == Some(TokenV::Comma) {
            lemma_semi_column_refs(t, u, p1 + 1, acc.push(r));
        }
    }
}

proof fn lemma_semi_joins(t: Seq<TokenV>, u: Seq<TokenV>, p: int, acc: Seq<JoinClauseV>)
    requires
        u == t.push(TokenV::Semicolon),
    ensures
        spec_joins(t, p, acc) is Ok ==> spec_joins(u, p, acc) == spec_joins(t, p, acc),
    decreases t.len() - p,
{
    lemma_tok_semi(t, u);
    lemma_semi_leaves(t, u);
    if let Ok(Some((jt, p1))) = spec_join_kind(t, p) {
        assert(spec_join_kind(u, p) == spec_join_kind(t, p));
        if let Ok((name, p2)) = spec_ident(t, p1) {
            assert(spec_ident(u, p1) == spec_ident(t, p1));
            if let Ok(p3) = spec_expect(t, p2, TokenV::On) {
                assert(spec_expect(u, p2, TokenV::On) == spec_expect(t, p2, TokenV::On));
                if let Ok((on, p4)) = spec_join_condition(t, p3) {
                    assert(spec_join_condition(u, p3) == spec_join_condition(t, p3));
                    lemma_semi_joins(
                        t,
                        u,
                        p4,
                        acc.push(JoinClauseV { join_type: jt, table_name: name, on }),
                    );
                }
            }
        }
    } else if let Ok(None) = spec_join_kind(t, p) {
        assert(spec_join_kind(u, p) == spec_join_kind(t, p));
    }
}

proof fn lemma_semi_order_list(t: Seq<TokenV>, u: Seq<TokenV>, p: int, acc: Seq<OrderByClauseV>)
    requires
        u == t.push(TokenV::Semicolon),
    ensures
        spec_order_list(t, p, acc) is Ok ==> spec_order_list(u, p, acc) == spec_order_list(
            t,
            p,
            acc,
        ),
    decreases t.len() - p,
{
    lemma_tok_semi(t, u);
    lemma_semi_leaves(t, u);
    if let Ok((column, p1)) = spec_ident(t, p) {
        assert(spec_ident(u, p) == spec_ident(t, p));
        let (direction, p2) = if tok(t, p1) == Some(TokenV::Asc) {
            (super::ast::OrderDirection::Asc, p1 + 1)
        } else if tok(t, p1) == Some(TokenV::Desc) {
            (super::ast::OrderDirection::Desc, p1 + 1)
        } else {
            (super::ast::OrderDirection::Asc, p1)
        };
        if tok(t, p2) == Some(TokenV::Comma) {
            lemma_semi_order_list(t, u, p2 + 1, acc.push(OrderByClauseV { column, direction }));
        }
    }
}

proof fn lemma_semi_create(t: Seq<TokenV>, u: Seq<TokenV>, p: int)
    requires
        u == t.push(TokenV::Semicolon),
    ensures
        spec_create(t, p) is Ok ==> spec_create(u, p) == spec_create(t, p),
{
    lemma_tok_semi(t, u);
    lemma_semi_leaves(t, u);
    if spec_create(t, p) is Ok {
        let p1 = spec_expect(t, p, TokenV::Create)->Ok_0;
        let p2 = spec_expect(t, p1, TokenV::Table)->Ok_0;
        let (n, p3) = spec_ident(t, p2)->Ok_0;
        let p4 = spec_expect(t, p3, TokenV::LParen)->Ok_0;
        let (cs, p5) = spec_column_defs(t, p4, seq![])->Ok_0;
        assert(spec_expect(u, p, TokenV::Create) == spec_expect(t, p, TokenV::Create));
        assert(spec_expect(u, p1, TokenV::Table) == spec_expect(t, p1, TokenV::Table));
        assert(spec_ident(u, p2) == spec_ident(t, p2));
        assert(spec_expect(u, p3, TokenV::LParen) == spec_expect(t, p3, TokenV::LParen));
        lemma_semi_column_defs(t, u, p4, seq![]);
        assert(spec_expect(u, p5, TokenV::RParen) == spec_expect(t, p5, TokenV::RParen));
    }
}

proof fn lemma_semi_insert(t: Seq<TokenV>, u: Seq<TokenV>, p: int)
    requires
        u == t.push(TokenV::Semicolon),
    ensures
        spec_insert(t, p) is Ok ==> spec_insert(u, p) == spec_insert(t, p),
{
    lemma_tok_semi(t, u);
    lemma_semi_leaves(t, u);
    if spec_insert(t, p) is Ok {
        let p1 = spec_expect(t, p, TokenV::Insert)->Ok_0;
        let p2 = spec_expect(t, p1, TokenV::Into)->Ok_0;
        let (n, p3) = spec_ident(t, p2)->Ok_0;
        let p4 = spec_expect(t, p3, TokenV::LParen)->Ok_0;
        let (cs, p5) = spec_ident_list(t, p4, seq![])->Ok_0;
        let p6 = spec_expect(t, p5, TokenV::RParen)->Ok_0;
        let p7 = spec_expect(t, p6, TokenV::Values)->Ok_0;
        assert(spec_expect(u, p, TokenV::Insert) == spec_expect(t, p, TokenV::Insert));
        assert(spec_expect(u, p1, TokenV::Into) == spec_expect(t, p1, TokenV::Into));
        assert(spec_ident(u, p2) == spec_ident(t, p2));
        assert(spec_expect(u, p3, TokenV::LParen) == spec_expect(t, p3, TokenV::LParen));
        lemma_semi_ident_list(t, u, p4, seq![]);
        assert(spec_expect(u, p5, TokenV::RParen) == spec_expect(t, p5, TokenV::RParen));
        assert(spec_expect(u, p6, TokenV::Values) == spec_expect(t, p6, TokenV::Values));
        lemma_semi_row_list(t, u, p7, seq![]);
    }
}

proof fn lemma_semi_select(t: Seq<TokenV>, u: Seq<TokenV>, p: int)
    requires
        u == t.push(TokenV::Semicolon),
    ensures
        spec_select(t, p) is Ok ==> spec_select(u, p) == spec_select(t, p),
{
    lemma_tok_semi(t, u);
    lemma_semi_leaves(t, u);
    if spec_select(t, p) is Ok {
        let p1 = spec_expect(t, p, TokenV::Select)->Ok_0;
        let (cols, p2) = spec_select_columns(t, p1)->Ok_0;
        let p3 = spec_expect(t, p2, TokenV::From)->Ok_0;
        let (n, p4) = spec_ident(t, p3)->Ok_0;
        let (js, p5) = spec_joins(t, p4, seq![])->Ok_0;
        let (w, p6) = spec_where(t, p5)->Ok_0;
        let (ob, p7) = spec_order_by(t, p6)->Ok_0;
        assert(spec_expect(u, p, TokenV::Select) == spec_expect(t, p, TokenV::Select));
        if tok(t, p1) != Some(TokenV::Star) {
            lemma_semi_column_refs(t, u, p1, seq![]);
        }
        assert(spec_select_columns(u, p1) == spec_select_columns(t, p1));
        assert(spec_expect(u, p2, TokenV::From) == spec_expect(t, p2, TokenV::From));
        assert(spec_ident(u, p3) == spec_ident(t, p3));
        lemma_semi_joins(t, u, p4, seq![]);
        lemma_semi_where(t, u, p5);
        if tok(t, p6) == Some(TokenV::Order) {
            let q6 = spec_expect(t, p6 + 1, TokenV::By)->Ok_0;
            assert(spec_expect(u, p6 + 1, TokenV::By) == spec_expect(t, p6 + 1, TokenV::By));
            lemma_semi_order_list(t, u, q6, seq![]);
        }
        assert(spec_order_by(u, p6) == spec_order_by(t, p6));
        assert(spec_limit(u, p7) == spec_limit(t, p7));
    }
}

proof fn lemma_semi_update(t: Seq<TokenV>, u: Seq<TokenV>, p: int)
    requires
        u == t.push(TokenV::Semicolon),
    ensures
        spec_update(t, p) is Ok ==> spec_update(u, p) == spec_update(t, p),
{
    lemma_tok_semi(t, u);
    lemma_semi_leaves(t, u);
    if spec_update(t, p) is Ok {
        let p1 = spec_expect(t, p, TokenV::Update)->Ok_0;
        let (n, p2) = spec_ident(t, p1)->Ok_0;
        let p3 = spec_expect(t, p2, TokenV::SetKw)->Ok_0;
        let (asg, p4) = spec_assignments(t, p3, seq![])->Ok_0;
        assert(spec_expect(u, p, TokenV::Update) == spec_expect(t, p, TokenV::Update));
        assert(spec_ident(u, p1) == spec_ident(t, p1));
        assert(spec_expect(u, p2, TokenV::SetKw) == spec_expect(t, p2, TokenV::SetKw));
        lemma_semi_assignments(t, u, p3, seq![]);
        lemma_semi_where(t, u, p4);
    }
}

proof fn lemma_semi_delete(t: Seq<TokenV>, u: Seq<TokenV>, p: int)
    requires
        u == t.push(TokenV::Semicolon),
    ensures
        spec_delete(t, p) is Ok ==> spec_delete(u, p) == spec_delete(t, p),
{
    lemma_tok_semi(t, u);
    lemma_semi_leaves(t, u);
    if spec_delete(t, p) is Ok {
        let p1 = spec_expect(t, p, TokenV::Delete)->Ok_0;
        let p2 = spec_expect(t, p1, TokenV::From)->Ok_0;
        let (n, p3) = spec_ident(t, p2)->Ok_0;
        assert(spec_expect(u, p, TokenV::Delete) == spec_expect(t, p, TokenV::Delete));
        assert(spec_expect(u, p1, TokenV::From) == spec_expect(t, p1, TokenV::From));
        assert(spec_ident(u, p2) == spec_ident(t, p2));
        lemma_semi_where(t, u, p3);
    }
}

proof fn lemma_semi_stmt(t: Seq<TokenV>, u: Seq<TokenV>, p: int)
    requires
        u == t.push(TokenV::Semicolon),
    ensures
        spec_stmt(t, p) is Ok ==> spec_stmt(u, p) == spec_stmt(t, p),
{
    lemma_tok_semi(t, u);
    lemma_semi_create(t, u, p);
    lemma_semi_insert(t, u, p);
    lemma_semi_select(t, u, p);
    lemma_semi_update(t, u, p);
    lemma_semi_delete(t, u, p);
}

proof fn lemma_semi_assignments(t: Seq<TokenV>, u: Seq<TokenV>, p: int, acc: Seq<AssignmentV>)
    requires
        u == t.push(TokenV::Semicolon),
    ensures
        spec_assignments(t, p, acc) is Ok ==> spec_assignments(u, p, acc) == spec_assignments(
            t,
            p,
            acc,
        ),
    decreases t.len() - p,
{
    lemma_tok_semi(t, u);
    lemma_semi_leaves(t, u);
    if let Ok((column, p1)) = spec_ident(t, p) {
        assert(spec_ident(u, p) == spec_ident(t, p));
        if let Ok(p2) = spec_expect(t, p1, TokenV::Eq) {
            assert(spec_expect(u, p1, TokenV::Eq) == spec_expect(t, p1, TokenV::Eq));
            if let Ok((value, p3)) = spec_value(t, p2) {
                assert(spec_value(u, p2) == spec_value(t, p2));
                if tok(t, p3) == Some(TokenV::Comma) {
                    lemma_semi_assignments(t, u, p3 + 1, acc.push(AssignmentV { column, value }));
                }
            }
        }
    }
}

/// From `a` on, the text is digits to its end.
proof fn lemma_scan_all_digits(s: Seq<char>, a: int)
    requires
        0 <= a <= s.len(),
        forall|k: int| a <= k < s.len() ==> crate::text::is_ascii_digit(#[trigger] s[k]),
    ensures
        scan_digits(s, a) == s.len(),
    decreases s.len() - a,
{
    if a < s.len() {
        lemma_scan_all_digits(s, a + 1);
    }
}

/// The value of the digits `s[a..b]` is the decimal value of that text.
proof fn lemma_digits_value(s: Seq<char>, a: int, b: int)
    requires
        0 <= a <= b <= s.len(),
    ensures
        digits_value(s, a, b) == decimal_value(s.subrange(a, b)),
    decreases b - a,
{
    if b > a {
        lemma_digits_value(s, a, b - 1);
        assert(s.subrange(a, b).drop_last() =~= s.subrange(a, b - 1));
        assert(s.subrange(a, b).last() == s[b - 1]);
    } else {
        assert(s.subrange(a, b) =~= Seq::<char>::empty());
    }
}

/// An integer literal, an optional minus sign and then digits, lexes to the
/// one token holding the value `str::parse::<i64>` gives its text, or
/// overflows where that value does not fit in an `i64`.
pub proof fn law_integer_literal(s: Seq<char>)
    requires
        all_digits(s) || (s.len() > 1 && s[0] == '-' && all_digits(s.drop_first())),
    ensures
        match parse_i64(s) {
            Some(n) => lex_from(s, 0) == LexOutcome::Tokens(seq![TokenV::IntLiteral(n)]),
            None => lex_from(s, 0) == LexOutcome::Overflow,
        },
{
    let neg = s[0] == '-';
    let a: int = if neg { 1 } else { 0 };
    let d = s.subrange(a, s.len() as int);
    if neg {
        assert(d =~= s.drop_first());
        assert(d =~= s.skip(1));
        assert forall|k: int| a <= k < s.len() implies crate::text::is_ascii_digit(#[trigger] s[k]) by {
            assert(s[k] == s.drop_first()[k - 1]);
        }
    } else {
        assert(d =~= s);
    }
    lemma_scan_all_digits(s, a);
    lemma_digits_value(s, a, s.len() as int);
    assert(scan_whitespace(s, 0) == 0);
    assert(scan_whitespace(s, s.len() as int) == s.len());
    assert(lex_from(s, s.len() as int) == LexOutcome::Tokens(seq![]));
    assert(seq![TokenV::IntLiteral(0)].len() == 1);
    if let Some(n) = parse_i64(s) {
        assert(seq![TokenV::IntLiteral(n)] + Seq::<TokenV>::empty() =~= seq![TokenV::IntLiteral(n)]);
    }
}

/// A minus sign in front of the digits of a literal negates its value.
pub proof fn law_minus_negates(d: Seq<char>, v: i64)
    requires
        all_digits(d),
        lex_from(d, 0) == LexOutcome::Tokens(seq![TokenV::IntLiteral(v)]),
    ensures
        v >= 0,
        lex_from(seq!['-'] + d, 0) == LexOutcome::Tokens(seq![TokenV::IntLiteral((-v) as i64)]),
{
    let s = seq!['-'] + d;
    assert(s.drop_first() =~= d);
    assert(s.skip(1) =~= d);
    law_integer_literal(d);
    law_integer_literal(s);
    crate::text::lemma_decimal_nonneg(d);
    assert(crate::text::is_ascii_digit(d[0]));
    assert(d[0] != '-' && d[0] != '+');
    assert(parse_i64(d) is Some);
    let n = parse_i64(d)->Some_0;
    let a = seq![TokenV::IntLiteral(n)];
    let b = seq![TokenV::IntLiteral(v)];
    assert(a == b);
    assert(a[0] == b[0]);
    assert(parse_i64(d) == Some(v));
    assert(v == decimal_value(d));
    assert(s[0] == '-');
    assert(parse_i64(s) == Some((-v) as i64));
}

/// One semicolon after a statement's tokens changes nothing: where the tokens
/// parse, the tokens with a semicolon appended parse to the same statement.
pub proof fn law_trailing_semicolon(t: Seq<TokenV>)
    ensures
        spec_parse(t, 0) is Ok ==> spec_parse(t.push(TokenV::Semicolon), 0) == spec_parse(t, 0),
{
    lemma_semi_stmt(t, t.push(TokenV::Semicolon), 0);
}

} // verus!
