//! What the parts of a query mean, stated against arithmetic and the order of
//! texts: a comparison parsed from its tokens holds exactly when the integer
//! relation its operator names holds; the comparison operators relate to
//! each other as the integer and text orders do; ORDER BY orders texts as
//! `String` does; and joins compose, each consuming the rows the earlier ones
//! made.
use super::rows::RowV;
use super::select::apply_joins;
use super::values::{compare_spec, eval_spec, json_order};
use crate::json::{chars_lt, lookup, JsonNumberV, JsonV};
use crate::sql::ast::{CmpOp, ExprV, JoinClauseV, ValueV};
use crate::sql::parser::{spec_where, tok};
use crate::sql::token::TokenV;
use vstd::prelude::*;

verus! {

/// Whether the integer relation that a comparison token names holds of `x`
/// and `i`: `=` equal, `!=` unequal, `<` less, `<=` less or equal, `>`
/// greater, `>=` greater or equal.
pub open spec fn token_relation(k: TokenV, x: int, i: int) -> bool {
    match k {
        TokenV::Eq => x == i,
        TokenV::NotEq => x != i,
        TokenV::Lt => x < i,
        TokenV::Lte => x <= i,
        TokenV::Gt => x > i,
        TokenV::Gte => x >= i,
        _ => false,
    }
}

/// A comparison operator token.
pub open spec fn is_comparison_token(k: TokenV) -> bool {
    k is Eq || k is NotEq || k is Lt || k is Lte || k is Gt || k is Gte
}

/// `WHERE c <op> i` parses, and on a row whose column `c` holds the integer
/// `x` it holds exactly when `x` stands to `i` in the relation the operator
/// token names (so `age >= 30` keeps a row aged 30, `age > 30` drops it).
pub proof fn law_where_comparison_meaning(c: Seq<char>, k: TokenV, i: i64, x: i64)
    requires
        is_comparison_token(k),
    ensures
        ({
            let t = seq![TokenV::Where, TokenV::Ident(c), k, TokenV::IntLiteral(i)];
            let row = seq![(c, JsonV::Number(JsonNumberV::Int(x)))];
            spec_where(t, 0) matches Ok((Some(e), q)) && q == 4 && eval_spec(e, row)
                == token_relation(k, x as int, i as int)
        }),
{
    let t = seq![TokenV::Where, TokenV::Ident(c), k, TokenV::IntLiteral(i)];
    let row: RowV = seq![(c, JsonV::Number(JsonNumberV::Int(x)))];
    assert(tok(t, 0) == Some(TokenV::Where));
    assert(tok(t, 1) == Some(TokenV::Ident(c)));
    assert(tok(t, 2) == Some(k));
    assert(tok(t, 3) == Some(TokenV::IntLiteral(i)));
    assert(tok(t, 4) is None);
    assert(lookup(row, c) == Some(JsonV::Number(JsonNumberV::Int(x))));
}

/// On integers the operators are the integer order: `=` is equality, `<` is
/// less-than, `<=` holds exactly when `<` or `=` does, `>` exactly when `<=`
/// does not, `>=` exactly when `<` does not, `!=` exactly when `=` does not.
pub proof fn law_compare_integers(x: i64, i: i64)
    ensures
        ({
            let v = JsonV::Number(JsonNumberV::Int(x));
            let f = ValueV::Integer(i);
            &&& compare_spec(v, CmpOp::Eq, f) == (x == i)
            &&& compare_spec(v, CmpOp::Lt, f) == (x < i)
            &&& compare_spec(v, CmpOp::Lte, f) == (compare_spec(v, CmpOp::Lt, f) || compare_spec(
                v,
                CmpOp::Eq,
                f,
            ))
            &&& compare_spec(v, CmpOp::Gt, f) == !compare_spec(v, CmpOp::Lte, f)
            &&& compare_spec(v, CmpOp::Gte, f) == !compare_spec(v, CmpOp::Lt, f)
            &&& compare_spec(v, CmpOp::NotEq, f) == !compare_spec(v, CmpOp::Eq, f)
        }),
{
}

/// On texts the operators follow one strict order: `=` is equality, `<` is
/// irreflexive and never holds both ways, any two texts are equal or
/// ordered one way, `<=` is `<` or `=`, `>` is `<` with the sides swapped,
/// `>=` is `>` or `=`, `!=` is not `=`; and `<` is the order ORDER BY sorts
/// by.
pub proof fn law_compare_texts(s: Seq<char>, t: Seq<char>)
    ensures
        ({
            let v = JsonV::Str(s);
            let f = ValueV::Text(t);
            let lt = compare_spec(v, CmpOp::Lt, f);
            let back = compare_spec(JsonV::Str(t), CmpOp::Lt, ValueV::Text(s));
            &&& compare_spec(v, CmpOp::Eq, f) == (s == t)
            &&& !(lt && back)
            &&& !compare_spec(v, CmpOp::Lt, ValueV::Text(s))
            &&& (lt || back || s == t)
            &&& compare_spec(v, CmpOp::Lte, f) == (lt || s == t)
            &&& compare_spec(v, CmpOp::Gt, f) == back
            &&& compare_spec(v, CmpOp::Gte, f) == (back || s == t)
            &&& compare_spec(v, CmpOp::NotEq, f) == (s != t)
            &&& lt == (json_order(Some(JsonV::Str(s)), Some(JsonV::Str(t))) == -1)
        }),
{
    crate::json::lemma_chars_lt_irreflexive(s);
    crate::json::lemma_chars_lt_asymmetric(s, t);
    crate::json::lemma_chars_lt_total(s, t);
}

/// A common beginning does not change how texts compare.
proof fn lemma_chars_lt_prefix(p: Seq<char>, s: Seq<char>, t: Seq<char>)
    ensures
        chars_lt(p + s, p + t) == chars_lt(s, t),
    decreases p.len(),
{
    if p.len() == 0 {
        assert(p + s =~= s);
        assert(p + t =~= t);
    } else {
        assert((p + s).drop_first() =~= p.drop_first() + s);
        assert((p + t).drop_first() =~= p.drop_first() + t);
        lemma_chars_lt_prefix(p.drop_first(), s, t);
    }
}

/// ORDER BY sorts texts as `String` orders them: two texts tie exactly when
/// they are equal; swapping them reverses the answer; a beginning they share
/// does not matter; where they first differ, the smaller character comes
/// first (so `Bea` sorts before `Bob`); and a text comes before any longer
/// text it begins.
pub proof fn law_text_order(p: Seq<char>, s: Seq<char>, t: Seq<char>, c: char, d: char)
    ensures
        (json_order(Some(JsonV::Str(s)), Some(JsonV::Str(t))) == 0) == (s == t),
        json_order(Some(JsonV::Str(s)), Some(JsonV::Str(t))) == -json_order(
            Some(JsonV::Str(t)),
            Some(JsonV::Str(s)),
        ),
        json_order(Some(JsonV::Str(p + s)), Some(JsonV::Str(p + t))) == json_order(
            Some(JsonV::Str(s)),
            Some(JsonV::Str(t)),
        ),
        c < d ==> json_order(
            Some(JsonV::Str(seq![c] + s)),
            Some(JsonV::Str(seq![d] + t)),
        ) == -1,
        json_order(Some(JsonV::Str(s)), Some(JsonV::Str(s + seq![c]))) == -1,
{
    lemma_chars_lt_prefix(s, Seq::<char>::empty(), seq![c]);
    assert(s + Seq::<char>::empty() =~= s);
    crate::json::lemma_chars_lt_irreflexive(s);
    crate::json::lemma_chars_lt_asymmetric(s, t);
    crate::json::lemma_chars_lt_total(s, t);
    lemma_chars_lt_prefix(p, s, t);
    if p + s == p + t {
        assert(s =~= (p + s).skip(p.len() as int));
        assert(t =~= (p + t).skip(p.len() as int));
    }
    let a = seq![c] + s;
    let b = seq![d] + t;
    assert(a[0] == c && b[0] == d);
}

/// Joins compose: running a list of joins is running its first part and
/// then the rest over the rows the first part made, so a later join sees the
/// columns an earlier one added.
pub proof fn law_joins_compose(
    m: Map<Seq<u8>, Seq<u8>>,
    rows: Seq<RowV>,
    a: Seq<JoinClauseV>,
    b: Seq<JoinClauseV>,
)
    ensures
        apply_joins(m, rows, a + b) == match apply_joins(m, rows, a) {
            Ok(acc) => apply_joins(m, acc, b),
            Err(e) => Err(e),
        },
    decreases b.len(),
{
    if b.len() == 0 {
        assert(a + b =~= a);
    } else {
        law_joins_compose(m, rows, a, b.drop_last());
        assert((a + b).drop_last() =~= a + b.drop_last());
        assert((a + b).last() == b.last());
    }
}

} // verus!
