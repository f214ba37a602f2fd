//! Properties of the executor that span its operations: what keys a statement
//! can touch, how row ids advance, what a SELECT shows after an INSERT or an
//! UPDATE, what a DELETE leaves, how WHERE, ORDER BY and LIMIT shape a
//! result, how qualified names keep joined tables apart, and that a stored
//! schema survives every statement that does not fail in the store.
use super::rows::{display_json, insert_entries, insert_entry, qualified_entries, qualify, RowV};
use super::select::{
    display_columns, dotted_name, keep_rows, out_columns, select_spec, shown_rows, stored_rows,
};
use super::{
    build_entries, counter, delete_rows, insert_rows, meta_key_of, padded_id, reads_back,
    row_entries, row_key_of, row_prefix, stored_schema, update_rows, assign_entries, update_reads_back,
    updated_entries, statement_outcome, ExecError, Halt, QueryResult,
};
use crate::catalog::{catalog_key_of, CatalogError, ColumnV, SchemaV};
use crate::json::{chars_lt, json_object, json_object_bytes, keys_sorted, lookup, JsonV};
use crate::storage::scan;
use crate::sql::ast::{AssignmentV, ExprV, OrderByClauseV, SelectColumnsV, SelectStmtV, StmtV, ValueV};
use super::values::{insert_by, rows_order, sort_by_order};
use crate::text::{decimal_value, is_ascii_digit, lemma_nat_decimal_digits, lemma_nat_decimal_value, lemma_parse_decimal, nat_decimal};
use vstd::prelude::*;
use vstd::utf8::encode_utf8;

verus! {

/// The UTF-8 encoding of two texts one after the other is their encodings
/// one after the other.
pub proof fn lemma_encode_concat(a: Seq<char>, b: Seq<char>)
    ensures
        encode_utf8(a + b) == encode_utf8(a) + encode_utf8(b),
    decreases a.len(),
{
    if a.len() == 0 {
        assert(a + b =~= b);
        assert(encode_utf8(a) =~= Seq::<u8>::empty());
        assert(encode_utf8(a) + encode_utf8(b) =~= encode_utf8(b));
    } else {
        lemma_encode_concat(a.drop_first(), b);
        assert((a + b).drop_first() =~= a.drop_first() + b);
        assert((a + b)[0] == a[0]);
        assert(encode_utf8(a + b) == vstd::utf8::encode_scalar(a[0] as u32) + encode_utf8(
            a.drop_first() + b,
        ));
        assert(encode_utf8(a) == vstd::utf8::encode_scalar(a[0] as u32) + encode_utf8(
            a.drop_first(),
        ));
        assert(encode_utf8(a + b) =~= encode_utf8(a) + encode_utf8(b));
    }
}

/// Zeros are worth nothing, in front of any digits.
proof fn lemma_zero_prefix_value(z: Seq<char>, d: Seq<char>)
    requires
        forall|i: int| 0 <= i < z.len() ==> z[i] == '0',
    ensures
        decimal_value(z + d) == decimal_value(d),
    decreases z.len() + d.len(),
{
    if d.len() == 0 {
        assert(z + d =~= z);
        if z.len() > 0 {
            lemma_zero_prefix_value(z.drop_last(), d);
            assert(z.drop_last() + d =~= z.drop_last());
            assert(z.last() == '0');
        }
    } else {
        lemma_zero_prefix_value(z, d.drop_last());
        assert((z + d).drop_last() =~= z + d.drop_last());
        assert((z + d).last() == d.last());
    }
}

/// The twenty-digit text of an id reads back as the id.
pub proof fn lemma_padded_value(id: u64)
    ensures
        decimal_value(padded_id(id)) == id,
{
    let d = nat_decimal(id as nat);
    lemma_nat_decimal_value(id as nat);
    if d.len() < 20 {
        let z = Seq::new((20 - d.len()) as nat, |i: int| '0');
        lemma_zero_prefix_value(z, d);
    }
}

/// `10^k`.
pub open spec fn ten_pow(k: nat) -> nat
    decreases k,
{
    if k == 0 {
        1
    } else {
        10 * ten_pow((k - 1) as nat)
    }
}

/// A number below `10^k` has at most `k` digits.
proof fn lemma_decimal_len(n: nat, k: nat)
    requires
        k >= 1,
        n < ten_pow(k),
    ensures
        nat_decimal(n).len() <= k,
    decreases n,
{
    if n >= 10 {
        assert(ten_pow(1) == 10) by {
            reveal_with_fuel(ten_pow, 2);
        }
        let p = ten_pow((k - 1) as nat);
        assert(k >= 2);
        assert(n / 10 < p) by (nonlinear_arith)
            requires
                n < 10 * p,
        ;
        lemma_decimal_len(n / 10, (k - 1) as nat);
    }
}

/// The padded id is twenty decimal digits.
proof fn lemma_padded_digits(id: u64)
    ensures
        padded_id(id).len() == 20,
        forall|i: int| 0 <= i < 20 ==> is_ascii_digit(#[trigger] padded_id(id)[i]),
{
    let d = nat_decimal(id as nat);
    lemma_nat_decimal_digits(id as nat);
    assert(ten_pow(20) == 100000000000000000000nat) by {
        reveal_with_fuel(ten_pow, 21);
    }
    lemma_decimal_len(id as nat, 20);
    if d.len() < 20 {
        let z = Seq::new((20 - d.len()) as nat, |i: int| '0');
        assert forall|i: int| 0 <= i < 20 implies is_ascii_digit(#[trigger] padded_id(id)[i]) by {
            if i < z.len() {
                assert(padded_id(id)[i] == z[i]);
            } else {
                assert(padded_id(id)[i] == d[i - z.len()]);
            }
        }
    }
}

/// Equal-length digit strings of equal value are equal.
proof fn lemma_digits_eq(x: Seq<char>, y: Seq<char>)
    requires
        x.len() == y.len(),
        forall|i: int| 0 <= i < x.len() ==> is_ascii_digit(#[trigger] x[i]),
        forall|i: int| 0 <= i < y.len() ==> is_ascii_digit(#[trigger] y[i]),
        decimal_value(x) == decimal_value(y),
    ensures
        x == y,
    decreases x.len(),
{
    if x.len() == 0 {
        assert(x =~= y);
    } else {
        let xs = x.drop_last();
        let ys = y.drop_last();
        assert(is_ascii_digit(x[x.len() - 1]) && is_ascii_digit(y[y.len() - 1]));
        crate::text::lemma_decimal_nonneg(xs);
        crate::text::lemma_decimal_nonneg(ys);
        assert(decimal_value(xs) == decimal_value(ys));
        lemma_digits_eq(xs, ys);
        assert(x.last() == y.last());
        assert(x =~= xs.push(x.last()));
        assert(y =~= ys.push(y.last()));
    }
}

/// Of two equal-length digit strings, the one of smaller value has a smaller
/// digit at the first place where they differ.
proof fn lemma_digits_diff(x: Seq<char>, y: Seq<char>) -> (i: int)
    requires
        x.len() == y.len(),
        forall|i: int| 0 <= i < x.len() ==> is_ascii_digit(#[trigger] x[i]),
        forall|i: int| 0 <= i < y.len() ==> is_ascii_digit(#[trigger] y[i]),
        decimal_value(x) < decimal_value(y),
    ensures
        0 <= i < x.len(),
        x.take(i) == y.take(i),
        x[i] < y[i],
    decreases x.len(),
{
    let xs = x.drop_last();
    let ys = y.drop_last();
    assert(x.len() > 0);
    assert(is_ascii_digit(x[x.len() - 1]) && is_ascii_digit(y[y.len() - 1]));
    crate::text::lemma_decimal_nonneg(xs);
    crate::text::lemma_decimal_nonneg(ys);
    if decimal_value(xs) < decimal_value(ys) {
        let i = lemma_digits_diff(xs, ys);
        assert(x.take(i) =~= xs.take(i));
        assert(y.take(i) =~= ys.take(i));
        i
    } else {
        assert(decimal_value(xs) == decimal_value(ys));
        lemma_digits_eq(xs, ys);
        let i = x.len() - 1;
        assert(x.take(i) =~= xs);
        assert(y.take(i) =~= ys);
        i
    }
}

/// Byte strings that agree before place `i` and differ there are ordered by
/// their bytes at `i`.
proof fn lemma_bytes_lt_at(u: Seq<u8>, v: Seq<u8>, i: int)
    requires
        0 <= i < u.len(),
        i < v.len(),
        u.take(i) == v.take(i),
        u[i] < v[i],
    ensures
        crate::storage::bytes_lt(u, v),
    decreases i,
{
    if i > 0 {
        assert(u[0] == u.take(i)[0] && v[0] == v.take(i)[0]);
        assert(u.drop_first().take(i - 1) =~= u.take(i).drop_first());
        assert(v.drop_first().take(i - 1) =~= v.take(i).drop_first());
        lemma_bytes_lt_at(u.drop_first(), v.drop_first(), i - 1);
    }
}

/// The rows of a table are keyed in the order of their ids: a smaller id
/// gives a key that comes first in byte order, so a scan lists the rows in
/// the order they were inserted.
pub proof fn law_row_keys_ordered(t: Seq<char>, a: u64, b: u64)
    requires
        a < b,
    ensures
        crate::storage::bytes_lt(row_key_of(t, a), row_key_of(t, b)),
{
    let x = padded_id(a);
    let y = padded_id(b);
    lemma_padded_value(a);
    lemma_padded_value(b);
    lemma_padded_digits(a);
    lemma_padded_digits(b);
    let i = lemma_digits_diff(x, y);
    let p = seq!['r', 'o', 'w', ':'] + t + seq![':'];
    lemma_encode_concat(p, x);
    lemma_encode_concat(p, y);
    assert(vstd::utf8::is_ascii_chars(x));
    assert(vstd::utf8::is_ascii_chars(y));
    vstd::utf8::is_ascii_chars_encode_utf8(x);
    vstd::utf8::is_ascii_chars_encode_utf8(y);
    let ep = encode_utf8(p);
    let ex = encode_utf8(x);
    let ey = encode_utf8(y);
    let u = ep + ex;
    let v = ep + ey;
    let n = ep.len() as int;
    assert(row_key_of(t, a) == u);
    assert(row_key_of(t, b) == v);
    assert forall|j: int| 0 <= j < n + i implies u[j] == v[j] by {
        if j >= n {
            assert(x[j - n] == x.take(i)[j - n]);
            assert(y[j - n] == y.take(i)[j - n]);
        }
    }
    assert(u.take(n + i) =~= v.take(n + i));
    assert(u[n + i] == ex[i] && v[n + i] == ey[i]);
    assert(ex[i] == x[i] as u8 && ey[i] == y[i] as u8);
    assert(is_ascii_digit(x[i]) && is_ascii_digit(y[i]));
    lemma_bytes_lt_at(u, v, n + i);
}

/// Different ids give different row keys, and no row key is a counter key.
pub proof fn law_row_keys_distinct(t: Seq<char>, a: u64, b: u64)
    ensures
        a != b ==> row_key_of(t, a) != row_key_of(t, b),
        row_key_of(t, a) != meta_key_of(t),
{
    super::lemma_row_key_not_meta(t, a);
    if a != b && row_key_of(t, a) == row_key_of(t, b) {
        let p = seq!['r', 'o', 'w', ':'] + t + seq![':'];
        let x = p + padded_id(a);
        let y = p + padded_id(b);
        vstd::utf8::encode_utf8_decode_utf8(x);
        vstd::utf8::encode_utf8_decode_utf8(y);
        assert(x == y);
        assert(x.skip(p.len() as int) =~= padded_id(a));
        assert(y.skip(p.len() as int) =~= padded_id(b));
        lemma_padded_value(a);
        lemma_padded_value(b);
    }
}

/// Every row key of a table begins with the table's row prefix.
pub proof fn law_row_key_in_table(t: Seq<char>, id: u64)
    ensures
        row_prefix(t).is_prefix_of(row_key_of(t, id)),
{
    let p = seq!['r', 'o', 'w', ':'] + t + seq![':'];
    lemma_encode_concat(p, padded_id(id));
    assert(encode_utf8(p + padded_id(id)).take(encode_utf8(p).len() as int) =~= encode_utf8(p));
}

/// Once the counter is advanced past `id`, the next id handed out is
/// `id + 1`.
pub proof fn law_counter_advances(m: Map<Seq<u8>, Seq<u8>>, t: Seq<char>, id: u64)
    requires
        id < u64::MAX,
    ensures
        counter(m.insert(meta_key_of(t), encode_utf8(nat_decimal((id + 1) as nat))), t) == id + 1,
{
    lemma_parse_decimal((id + 1) as u64);
}

/// UPDATE changes only keys it lists: every other key keeps its value, or
/// stays absent.
pub proof fn law_update_frame(
    m: Map<Seq<u8>, Seq<u8>>,
    l: Seq<(Seq<u8>, Seq<u8>)>,
    schema: SchemaV,
    assigns: Seq<AssignmentV>,
    w: Option<ExprV>,
    k: Seq<u8>,
)
    requires
        forall|i: int| 0 <= i < l.len() ==> (#[trigger] l[i]).0 != k,
    ensures
        update_rows(m, l, schema, assigns, w).0.contains_key(k) == m.contains_key(k),
        m.contains_key(k) ==> update_rows(m, l, schema, assigns, w).0[k] == m[k],
    decreases l.len(),
{
    reveal(update_rows);
    if l.len() > 0 {
        assert forall|i: int| 0 <= i < l.drop_last().len() implies (#[trigger] l.drop_last()[i]).0
            != k by {
            assert(l.drop_last()[i] == l[i]);
        }
        law_update_frame(m, l.drop_last(), schema, assigns, w, k);
        assert(l.last() == l[l.len() - 1]);
    }
}

/// DELETE removes only keys it lists: every other key keeps its value, or
/// stays absent.
pub proof fn law_delete_frame(
    m: Map<Seq<u8>, Seq<u8>>,
    l: Seq<(Seq<u8>, Seq<u8>)>,
    w: Option<ExprV>,
    k: Seq<u8>,
)
    requires
        forall|i: int| 0 <= i < l.len() ==> (#[trigger] l[i]).0 != k,
    ensures
        delete_rows(m, l, w).0.contains_key(k) == m.contains_key(k),
        m.contains_key(k) ==> delete_rows(m, l, w).0[k] == m[k],
    decreases l.len(),
{
    reveal(delete_rows);
    if l.len() > 0 {
        assert forall|i: int| 0 <= i < l.drop_last().len() implies (#[trigger] l.drop_last()[i]).0
            != k by {
            assert(l.drop_last()[i] == l[i]);
        }
        law_delete_frame(m, l.drop_last(), w, k);
        assert(l.last() == l[l.len() - 1]);
    }
}

/// A SELECT result has one shown name per result column, every shown row
/// one cell per name, and, under `LIMIT n`, at most `n` rows.
pub proof fn law_result_shape(m: Map<Seq<u8>, Seq<u8>>, s: SelectStmtV)
    ensures
        select_spec(m, s) matches Ok((names, rows)) ==> forall|i: int|
            0 <= i < rows.len() ==> (#[trigger] rows[i]).len() == names.len(),
        select_spec(m, s) matches Ok((names, rows)) ==> (s.limit matches Some(n) ==> rows.len() <= n),
{
    if let Ok((names, rows)) = select_spec(m, s) {
        let sch = super::stored_schema(m, s.table_name).unwrap();
        let joined = super::select::apply_joins(m, stored_rows(m, s.table_name), s.joins)->Ok_0;
        let kept = super::select::keep_rows(joined, s.where_clause);
        let sorted = if s.order_by.len() > 0 {
            super::values::sort_by_order(kept, s.order_by)
        } else {
            kept
        };
        let limited = match s.limit {
            Some(n) => if (n as int) < sorted.len() {
                sorted.take(n as int)
            } else {
                sorted
            },
            None => sorted,
        };
        let out = out_columns(s, sch, limited);
        assert(names == display_columns(s, sch, out));
        assert(rows == shown_rows(limited, out));
        assert(names.len() == out.len());
        assert(rows.len() == limited.len());
    }
}

/// No two entries share a key.
pub open spec fn keys_distinct(e: RowV) -> bool {
    forall|i: int, j: int| 0 <= i < j < e.len() ==> e[i].0 != e[j].0
}

/// Setting a key: looking it up finds the new value, and any other key finds
/// what it found before.
pub proof fn lemma_lookup_insert_entry(r: RowV, k: Seq<char>, v: JsonV, k2: Seq<char>)
    ensures
        lookup(insert_entry(r, k, v), k2) == (if k2 == k {
            Some(v)
        } else {
            lookup(r, k2)
        }),
    decreases r.len(),
{
    let n = insert_entry(r, k, v);
    assert(n.len() > 0);
    assert(lookup(n, k2) == if n[0].0 == k2 {
        Some(n[0].1)
    } else {
        lookup(n.drop_first(), k2)
    });
    if r.len() == 0 {
        assert(n[0] == (k, v));
        assert(n.drop_first() =~= Seq::<(Seq<char>, JsonV)>::empty());
        assert(lookup(r, k2) is None);
    } else if r[0].0 == k {
        assert(n[0] == (k, v));
        assert(n.drop_first() =~= r.drop_first());
    } else if chars_lt(k, r[0].0) {
        assert(n[0] == (k, v));
        assert(n.drop_first() =~= r);
    } else {
        lemma_lookup_insert_entry(r.drop_first(), k, v, k2);
        assert(n[0] == r[0]);
        assert(n.drop_first() =~= insert_entry(r.drop_first(), k, v));
    }
}

/// With distinct keys, the last entry holds the only occurrence of its key.
proof fn lemma_lookup_last(es: RowV, k2: Seq<char>)
    requires
        es.len() > 0,
        keys_distinct(es),
    ensures
        lookup(es, k2) == (if k2 == es.last().0 {
            Some(es.last().1)
        } else {
            lookup(es.drop_last(), k2)
        }),
    decreases es.len(),
{
    if es.len() == 1 {
        assert(es.drop_last() =~= Seq::<(Seq<char>, JsonV)>::empty());
        assert(es.drop_first() =~= Seq::<(Seq<char>, JsonV)>::empty());
    } else {
        let f = es.drop_first();
        assert(keys_distinct(f)) by {
            assert forall|i: int, j: int| 0 <= i < j < f.len() implies f[i].0 != f[j].0 by {
                assert(f[i] == es[i + 1] && f[j] == es[j + 1]);
            }
        }
        lemma_lookup_last(f, k2);
        assert(f.last() == es.last());
        assert(es.drop_last().drop_first() =~= f.drop_last());
        assert(es.drop_last()[0] == es[0]);
        if es[0].0 == k2 {
            assert(es[0].0 != es[es.len() - 1].0);
        }
    }
}

/// Setting distinct keys one by one into an empty row finds each as given.
pub proof fn lemma_lookup_insert_entries(es: RowV, k2: Seq<char>)
    requires
        keys_distinct(es),
    ensures
        lookup(insert_entries(Seq::empty(), es), k2) == lookup(es, k2),
    decreases es.len(),
{
    if es.len() > 0 {
        let d = es.drop_last();
        assert(keys_distinct(d)) by {
            assert forall|i: int, j: int| 0 <= i < j < d.len() implies d[i].0 != d[j].0 by {
                assert(d[i] == es[i] && d[j] == es[j]);
            }
        }
        lemma_lookup_insert_entries(d, k2);
        lemma_lookup_insert_entry(insert_entries(Seq::empty(), d), es.last().0, es.last().1, k2);
        lemma_lookup_last(es, k2);
    }
}

/// `table.key` is found among qualified entries exactly where `key` is
/// found among the entries.
pub proof fn lemma_lookup_qualified(t: Seq<char>, e: RowV, c: Seq<char>)
    ensures
        lookup(qualified_entries(t, e), dotted_name(t, c)) == lookup(e, c),
    decreases e.len(),
{
    let q = qualified_entries(t, e);
    if e.len() > 0 {
        lemma_lookup_qualified(t, e.drop_first(), c);
        assert(q.drop_first() =~= qualified_entries(t, e.drop_first()));
        let p = t + seq!['.'];
        assert(q[0].0 == p + e[0].0);
        assert(dotted_name(t, c) == p + c);
        if p + e[0].0 == p + c {
            assert((p + e[0].0).skip(p.len() as int) =~= e[0].0);
            assert((p + c).skip(p.len() as int) =~= c);
        }
    }
}

/// Qualifying keeps keys distinct.
proof fn lemma_qualified_distinct(t: Seq<char>, e: RowV)
    requires
        keys_distinct(e),
    ensures
        keys_distinct(qualified_entries(t, e)),
{
    let q = qualified_entries(t, e);
    let p = t + seq!['.'];
    assert forall|i: int, j: int| 0 <= i < j < q.len() implies q[i].0 != q[j].0 by {
        if q[i].0 == q[j].0 {
            assert(q[i].0 == p + e[i].0 && q[j].0 == p + e[j].0);
            assert((p + e[i].0).skip(p.len() as int) =~= e[i].0);
            assert((p + e[j].0).skip(p.len() as int) =~= e[j].0);
        }
    }
}

/// Without a condition, every row is kept.
pub proof fn lemma_keep_all(rows: Seq<RowV>)
    ensures
        keep_rows(rows, None) == rows,
    decreases rows.len(),
{
    if rows.len() > 0 {
        lemma_keep_all(rows.drop_last());
        assert(rows.drop_last().push(rows.last()) =~= rows);
    }
}

/// The names of columns.
pub open spec fn column_names(cols: Seq<ColumnV>) -> Seq<Seq<char>> {
    cols.map_values(|c: ColumnV| c.name)
}

/// The cells a row shows under columns: each column's value shown, or
/// nothing where the row has no value under the column's name.
pub open spec fn cells_of(cols: Seq<ColumnV>, e: RowV) -> Seq<Option<Seq<char>>> {
    cols.map_values(
        |c: ColumnV|
            match lookup(e, c.name) {
                Some(v) => Some(display_json(v)),
                None => None,
            },
    )
}

/// What a plain `SELECT * FROM t` reads back, where the rows of `t` are in a
/// store of finitely many keys: a row stored under one of the table's keys
/// is among the rows shown, with each of the table's columns shown from the
/// row's value under the column's name (nothing where it has none); the
/// result's names are the table's column names. The answer is the row's
/// place in the result.
pub proof fn law_select_shows_row(m: Map<Seq<u8>, Seq<u8>>, s: SelectStmtV, id: u64, e: RowV) -> (i: int)
    requires
        m.dom().finite(),
        s.columns == SelectColumnsV::Star,
        s.joins.len() == 0,
        s.where_clause is None,
        s.order_by.len() == 0,
        s.limit is None,
        super::stored_schema(m, s.table_name) is Some,
        super::reads_back(m, s.table_name, id, e),
        keys_sorted(e),
    ensures
        match select_spec(m, s) {
            Ok((names, rows)) => {
                let cols = super::stored_schema(m, s.table_name).unwrap().columns;
                &&& names == column_names(cols)
                &&& 0 <= i < rows.len()
                &&& rows[i] == cells_of(cols, e)
            },
            Err(_) => false,
        },
{
    let t = s.table_name;
    let sch = super::stored_schema(m, t).unwrap();
    let p = row_prefix(t);
    crate::storage::lemma_listing_exists(m, p);
    let l = scan(m, p);
    let k = row_key_of(t, id);
    law_row_key_in_table(t, id);
    let i = choose|i: int| 0 <= i < l.len() && #[trigger] l[i].0 == k;
    assert(l[i].1 == m[k]);
    let rows = stored_rows(m, t);
    assert(rows[i] == qualify(t, e));
    assert(super::select::apply_joins(m, rows, s.joins) == Ok::<Seq<RowV>, Seq<char>>(rows));
    lemma_keep_all(rows);
    let out = out_columns(s, sch, rows);
    assert(out == sch.columns.map_values(|c: ColumnV| dotted_name(t, c.name)));
    let shown = shown_rows(rows, out);
    // keys of `e` are distinct, so qualifying and gathering into a map keeps them
    assert(keys_distinct(e)) by {
        assert forall|a: int, b: int| 0 <= a < b < e.len() implies e[a].0 != e[b].0 by {
            assert(chars_lt(e[a].0, e[b].0));
            crate::json::lemma_chars_lt_irreflexive(e[a].0);
        }
    }
    lemma_qualified_distinct(t, e);
    let want = cells_of(sch.columns, e);
    assert forall|q: int| 0 <= q < out.len() implies #[trigger] shown[i][q] == want[q] by {
        let c = sch.columns[q];
        lemma_lookup_insert_entries(qualified_entries(t, e), dotted_name(t, c.name));
        lemma_lookup_qualified(t, e, c.name);
    }
    assert(shown[i] =~= want);
    assert(display_columns(s, sch, out) =~= column_names(sch.columns));
    assert(select_spec(m, s) == Ok::<_, Seq<char>>((column_names(sch.columns), shown)));
    i
}

/// WHERE keeps, in order, exactly the rows that pass the condition: every
/// row kept passes it, and every row that passes it is kept.
pub proof fn law_where_keeps_passing(rows: Seq<RowV>, w: Option<ExprV>)
    ensures
        keep_rows(rows, w) == rows.filter(|r: RowV| super::passes(w, r)),
        forall|i: int| 0 <= i < keep_rows(rows, w).len() ==> super::passes(w, #[trigger] keep_rows(rows, w)[i]),
        forall|i: int| 0 <= i < rows.len() && super::passes(w, rows[i]) ==> #[trigger] keep_rows(rows, w).contains(rows[i]),
    decreases rows.len(),
{
    let pred = |r: RowV| super::passes(w, r);
    reveal(Seq::filter);
    if rows.len() > 0 {
        law_where_keeps_passing(rows.drop_last(), w);
    }
    assert(keep_rows(rows, w) == rows.filter(pred));
    rows.filter_lemma(pred);
}

/// Qualified names keep the columns of different tables apart: where two
/// table names differ and neither holds a dot, no column of the one is named
/// as a column of the other; within one table, different columns keep
/// different names.
pub proof fn law_qualified_names_apart(t: Seq<char>, u: Seq<char>, c1: Seq<char>, c2: Seq<char>)
    requires
        !t.contains('.'),
        !u.contains('.'),
    ensures
        t != u ==> dotted_name(t, c1) != dotted_name(u, c2),
        c1 != c2 ==> dotted_name(t, c1) != dotted_name(t, c2),
{
    let a = dotted_name(t, c1);
    let b = dotted_name(u, c2);
    if t != u && a == b {
        if t.len() < u.len() {
            assert(a[t.len() as int] == '.');
            assert(b[t.len() as int] == u[t.len() as int]);
        } else if u.len() < t.len() {
            assert(b[u.len() as int] == '.');
            assert(a[u.len() as int] == t[u.len() as int]);
        } else {
            assert(t =~= a.take(t.len() as int));
            assert(u =~= b.take(u.len() as int));
        }
    }
    if c1 != c2 && dotted_name(t, c1) == dotted_name(t, c2) {
        assert(c1 =~= dotted_name(t, c1).skip(t.len() as int + 1));
        assert(c2 =~= dotted_name(t, c2).skip(t.len() as int + 1));
    }
}

/// A table's schema key lies outside its rows and is not its counter.
pub proof fn lemma_catalog_key_apart(t: Seq<char>, u: Seq<char>)
    ensures
        !row_prefix(u).is_prefix_of(catalog_key_of(t)),
        catalog_key_of(t) != meta_key_of(u),
{
    let c = crate::catalog::catalog_prefix() + t;
    let r = seq!['r', 'o', 'w', ':'] + u + seq![':'];
    let mk = seq!['m', 'e', 't', 'a', ':'] + u + seq![':', 'n', 'e', 'x', 't', '_', 'i', 'd'];
    assert(c[0] == 'c' && r[0] == 'r' && mk[0] == 'm');
    super::lemma_first_byte(c);
    super::lemma_first_byte(r);
    super::lemma_first_byte(mk);
}

/// INSERT changes only the table's row keys and its counter: every other key
/// keeps its value, or stays absent.
pub proof fn law_insert_frame(
    m: Map<Seq<u8>, Seq<u8>>,
    t: Seq<char>,
    schema: SchemaV,
    cols: Seq<Seq<char>>,
    rows: Seq<Seq<ValueV>>,
    k: Seq<u8>,
)
    requires
        !row_prefix(t).is_prefix_of(k),
        k != meta_key_of(t),
    ensures
        insert_rows(m, t, schema, cols, rows).0.contains_key(k) == m.contains_key(k),
        m.contains_key(k) ==> insert_rows(m, t, schema, cols, rows).0[k] == m[k],
    decreases rows.len(),
{
    reveal(insert_rows);
    if rows.len() > 0 {
        law_insert_frame(m, t, schema, cols, rows.drop_last(), k);
        let (m1, e) = insert_rows(m, t, schema, cols, rows.drop_last());
        law_row_key_in_table(t, counter(m1, t));
    }
}

/// Where no row failed, every row's values coerced.
proof fn lemma_inserted_rows_build(
    m: Map<Seq<u8>, Seq<u8>>,
    t: Seq<char>,
    schema: SchemaV,
    cols: Seq<Seq<char>>,
    rows: Seq<Seq<ValueV>>,
    j: int,
)
    requires
        insert_rows(m, t, schema, cols, rows).1 is None,
        0 <= j < rows.len(),
    ensures
        build_entries(schema, cols, rows[j], cols.len() as int) is Ok,
    decreases rows.len(),
{
    reveal(insert_rows);
    if j < rows.len() - 1 {
        lemma_inserted_rows_build(m, t, schema, cols, rows.drop_last(), j);
        assert(rows.drop_last()[j] == rows[j]);
    }
}

/// What INSERT then SELECT gives: after an INSERT into `t` has stored its
/// rows (the store holding finitely many keys), a plain `SELECT * FROM t`
/// shows each inserted row, each of the table's columns holding the value
/// given for it, coerced to the column's type, and nothing where the INSERT
/// named no value for it. The answer is the row's place in the result.
pub proof fn law_insert_then_select(
    old: Map<Seq<u8>, Seq<u8>>,
    fin: Map<Seq<u8>, Seq<u8>>,
    cols: Seq<Seq<char>>,
    rows: Seq<Seq<ValueV>>,
    s: SelectStmtV,
    j: int,
) -> (i: int)
    requires
        fin.dom().finite(),
        s.columns == SelectColumnsV::Star,
        s.joins.len() == 0,
        s.where_clause is None,
        s.order_by.len() == 0,
        s.limit is None,
        stored_schema(old, s.table_name) is Some,
        insert_rows(old, s.table_name, stored_schema(old, s.table_name).unwrap(), cols, rows) == (
            fin,
            None::<(int, int)>,
        ),
        0 <= j < rows.len(),
        reads_back(
            fin,
            s.table_name,
            (counter(old, s.table_name) + j) as u64,
            row_entries(stored_schema(old, s.table_name).unwrap(), cols, rows[j]),
        ),
    ensures
        match select_spec(fin, s) {
            Ok((names, shown)) => {
                let sch = stored_schema(old, s.table_name).unwrap();
                &&& names == column_names(sch.columns)
                &&& 0 <= i < shown.len()
                &&& shown[i] == cells_of(sch.columns, row_entries(sch, cols, rows[j]))
            },
            Err(_) => false,
        },
{
    let t = s.table_name;
    let sch = stored_schema(old, t).unwrap();
    let ck = catalog_key_of(t);
    lemma_catalog_key_apart(t, t);
    law_insert_frame(old, t, sch, cols, rows, ck);
    assert(stored_schema(fin, t) == stored_schema(old, t));
    lemma_inserted_rows_build(old, t, sch, cols, rows, j);
    super::lemma_build_sorted(sch, cols, rows[j], cols.len() as int);
    law_select_shows_row(fin, s, (counter(old, t) + j) as u64, row_entries(sch, cols, rows[j]))
}

/// Sorting for ORDER BY keeps the rows: the same rows, as often each.
pub proof fn law_sort_keeps_rows(rows: Seq<RowV>, ob: Seq<OrderByClauseV>)
    ensures
        sort_by_order(rows, ob).to_multiset() == rows.to_multiset(),
        sort_by_order(rows, ob).len() == rows.len(),
    decreases rows.len(),
{
    broadcast use vstd::seq_lib::group_to_multiset_ensures;

    if rows.len() > 0 {
        law_sort_keeps_rows(rows.drop_last(), ob);
        lemma_insert_by_keeps(sort_by_order(rows.drop_last(), ob), rows.last(), ob);
        assert(rows.drop_last().push(rows.last()) =~= rows);
    }
}

/// Placing a row among sorted rows adds just that row.
proof fn lemma_insert_by_keeps(sorted: Seq<RowV>, x: RowV, ob: Seq<OrderByClauseV>)
    ensures
        insert_by(sorted, x, ob).to_multiset() == sorted.to_multiset().insert(x),
        insert_by(sorted, x, ob).len() == sorted.len() + 1,
    decreases sorted.len(),
{
    broadcast use vstd::seq_lib::group_to_multiset_ensures;

    if sorted.len() > 0 && rows_order(sorted.last(), x, ob) > 0 {
        lemma_insert_by_keeps(sorted.drop_last(), x, ob);
        assert(sorted.drop_last().push(sorted.last()) =~= sorted);
        assert(sorted.drop_last().to_multiset().insert(x).insert(sorted.last())
            =~= sorted.drop_last().to_multiset().insert(sorted.last()).insert(x));
    } else if sorted.len() == 0 {
        assert(seq![x] =~= Seq::<RowV>::empty().push(x));
    }
}


/// The ORDER BY comparison behaves as an order on these rows: swapping two
/// rows reverses it, and "not after" chains.
pub open spec fn order_consistent(rows: Seq<RowV>, ob: Seq<OrderByClauseV>) -> bool {
    &&& forall|a: RowV, b: RowV|
        rows.contains(a) && rows.contains(b) ==> #[trigger] rows_order(a, b, ob) == -rows_order(
            b,
            a,
            ob,
        )
    &&& forall|a: RowV, b: RowV, c: RowV|
        rows.contains(a) && rows.contains(b) && rows.contains(c) && #[trigger] rows_order(a, b, ob)
            <= 0 && #[trigger] rows_order(b, c, ob) <= 0 ==> rows_order(a, c, ob) <= 0
}

/// No row sorts after a later one.
pub open spec fn sorted_by_order(rows: Seq<RowV>, ob: Seq<OrderByClauseV>) -> bool {
    forall|i: int, j: int| 0 <= i < j < rows.len() ==> rows_order(rows[i], rows[j], ob) <= 0
}

/// Placing a row among sorted rows keeps them sorted.
proof fn lemma_insert_by_sorted(
    sorted: Seq<RowV>,
    x: RowV,
    ob: Seq<OrderByClauseV>,
    all: Seq<RowV>,
)
    requires
        sorted_by_order(sorted, ob),
        order_consistent(all, ob),
        forall|k: int| 0 <= k < sorted.len() ==> all.contains(#[trigger] sorted[k]),
        all.contains(x),
    ensures
        sorted_by_order(insert_by(sorted, x, ob), ob),
    decreases sorted.len(),
{
    broadcast use vstd::seq_lib::group_to_multiset_ensures;

    let r = insert_by(sorted, x, ob);
    if sorted.len() == 0 {
    } else if rows_order(sorted.last(), x, ob) > 0 {
        let d = sorted.drop_last();
        let last = sorted.last();
        assert(sorted_by_order(d, ob));
        lemma_insert_by_sorted(d, x, ob, all);
        lemma_insert_by_keeps(d, x, ob);
        let ir = insert_by(d, x, ob);
        assert(r == ir.push(last));
        assert forall|k: int| 0 <= k < ir.len() implies rows_order(#[trigger] ir[k], last, ob) <= 0 by {
            assert(ir.to_multiset().contains(ir[k]));
            if ir[k] == x {
                assert(rows_order(x, last, ob) == -rows_order(last, x, ob));
            } else {
                assert(d.to_multiset().contains(ir[k]));
                assert(d.contains(ir[k]));
                let q = choose|q: int| 0 <= q < d.len() && d[q] == ir[k];
                assert(sorted[q] == d[q]);
            }
        }
        assert forall|i: int, j: int| 0 <= i < j < r.len() implies rows_order(r[i], r[j], ob) <= 0 by {
            if j < ir.len() {
                assert(r[i] == ir[i] && r[j] == ir[j]);
            } else {
                assert(r[i] == ir[i] && r[j] == last);
            }
        }
    } else {
        let last = sorted.last();
        assert(r == sorted.push(x));
        assert forall|i: int, j: int| 0 <= i < j < r.len() implies rows_order(r[i], r[j], ob) <= 0 by {
            if j == sorted.len() {
                if i < sorted.len() - 1 {
                    assert(rows_order(sorted[i], last, ob) <= 0);
                    assert(all.contains(sorted[i]) && all.contains(last));
                }
            } else {
                assert(r[i] == sorted[i] && r[j] == sorted[j]);
            }
        }
    }
}

/// ORDER BY sorts: where its comparison behaves as an order on the rows, no
/// row of the result sorts after a later one.
pub proof fn law_sort_orders(rows: Seq<RowV>, ob: Seq<OrderByClauseV>)
    requires
        order_consistent(rows, ob),
    ensures
        sorted_by_order(sort_by_order(rows, ob), ob),
    decreases rows.len(),
{
    broadcast use vstd::seq_lib::group_to_multiset_ensures;

    if rows.len() > 0 {
        let d = rows.drop_last();
        assert(order_consistent(d, ob)) by {
            assert forall|a: RowV| d.contains(a) implies rows.contains(a) by {
                let q = choose|q: int| 0 <= q < d.len() && d[q] == a;
                assert(rows[q] == a);
            }
        }
        law_sort_orders(d, ob);
        law_sort_keeps_rows(d, ob);
        let sd = sort_by_order(d, ob);
        assert forall|k: int| 0 <= k < sd.len() implies rows.contains(#[trigger] sd[k]) by {
            assert(sd.to_multiset().contains(sd[k]));
            assert(d.to_multiset().contains(sd[k]));
            let q = choose|q: int| 0 <= q < d.len() && d[q] == sd[k];
            assert(rows[q] == sd[k]);
        }
        assert(rows[rows.len() - 1] == rows.last());
        lemma_insert_by_sorted(sd, rows.last(), ob, rows);
    }
}

/// What DELETE does to each listed row: one that passes the condition is
/// gone, one that does not keeps its value; every listed row reads.
proof fn lemma_delete_rows_effect(m: Map<Seq<u8>, Seq<u8>>, l: Seq<(Seq<u8>, Seq<u8>)>, w: Option<ExprV>)
    requires
        forall|a: int, b: int| 0 <= a < b < l.len() ==> l[a].0 != l[b].0,
        forall|a: int| 0 <= a < l.len() ==> m.contains_key(#[trigger] l[a].0) && m[l[a].0] == l[a].1,
        !delete_rows(m, l, w).2,
    ensures
        forall|a: int|
            0 <= a < l.len() ==> {
                let fin = delete_rows(m, l, w).0;
                &&& (#[trigger] json_object(l[a].1)) is Some
                &&& fin.contains_key(l[a].0) == !super::passes(w, json_object(l[a].1).unwrap())
                &&& fin.contains_key(l[a].0) ==> fin[l[a].0] == l[a].1
            },
    decreases l.len(),
{
    reveal(delete_rows);
    if l.len() > 0 {
        let d = l.drop_last();
        let (m1, n, h) = delete_rows(m, d, w);
        assert(!h);
        assert forall|a: int, b: int| 0 <= a < b < d.len() implies d[a].0 != d[b].0 by {
            assert(d[a] == l[a] && d[b] == l[b]);
        }
        assert forall|a: int| 0 <= a < d.len() implies m.contains_key(#[trigger] d[a].0) && m[d[a].0]
            == d[a].1 by {
            assert(d[a] == l[a]);
        }
        lemma_delete_rows_effect(m, d, w);
        let last = l.last();
        assert(last == l[l.len() - 1]);
        assert forall|a: int| 0 <= a < d.len() implies (#[trigger] d[a]).0 != last.0 by {
            assert(d[a] == l[a]);
        }
        law_delete_frame(m, d, w, last.0);
        let fin = delete_rows(m, l, w).0;
        assert forall|a: int| 0 <= a < l.len() implies {
            &&& (#[trigger] json_object(l[a].1)) is Some
            &&& fin.contains_key(l[a].0) == !super::passes(w, json_object(l[a].1).unwrap())
            &&& fin.contains_key(l[a].0) ==> fin[l[a].0] == l[a].1
        } by {
            if a < d.len() {
                assert(l[a] == d[a]);
                assert(l[a].0 != last.0);
                assert(json_object(d[a].1) is Some);
            }
        }
    }
}

/// What DELETE leaves of a table, in a store of finitely many keys: every
/// row of the table that is left fails the condition (so a DELETE without
/// one leaves no row), and holds what it held before.
pub proof fn law_delete_leaves_no_match(m: Map<Seq<u8>, Seq<u8>>, t: Seq<char>, w: Option<ExprV>, k: Seq<u8>)
    requires
        m.dom().finite(),
        !delete_rows(m, scan(m, row_prefix(t)), w).2,
        delete_rows(m, scan(m, row_prefix(t)), w).0.contains_key(k),
        row_prefix(t).is_prefix_of(k),
    ensures
        m.contains_key(k),
        delete_rows(m, scan(m, row_prefix(t)), w).0[k] == m[k],
        json_object(m[k]) is Some,
        !super::passes(w, json_object(m[k]).unwrap()),
{
    let p = row_prefix(t);
    crate::storage::lemma_listing_exists(m, p);
    let l = scan(m, p);
    assert forall|a: int, b: int| 0 <= a < b < l.len() implies l[a].0 != l[b].0 by {
        assert(crate::storage::bytes_lt(l[a].0, l[b].0));
        crate::storage::lemma_lt_irreflexive(l[a].0);
    }
    lemma_delete_rows_effect(m, l, w);
    if exists|a: int| 0 <= a < l.len() && #[trigger] l[a].0 == k {
        let a = choose|a: int| 0 <= a < l.len() && #[trigger] l[a].0 == k;
        assert(json_object(l[a].1) is Some);
    } else {
        law_delete_frame(m, l, w, k);
        assert(m.contains_key(k));
        let a = choose|a: int| 0 <= a < l.len() && #[trigger] l[a].0 == k;
        assert(false);
    }
}

/// The last of the first `n` assignments that sets column `c`.
pub open spec fn last_assign(assigns: Seq<AssignmentV>, n: int, c: Seq<char>) -> Option<int>
    decreases n,
{
    if n <= 0 {
        None
    } else if assigns[n - 1].column == c {
        Some(n - 1)
    } else {
        last_assign(assigns, n - 1, c)
    }
}

/// What a row holds under column `c` once the assignments are made: the
/// value of the last assignment to `c`, coerced to the column's type, or,
/// where none sets `c`, what the row held.
pub open spec fn assigned_value(schema: SchemaV, assigns: Seq<AssignmentV>, row: RowV, c: Seq<char>) -> Option<JsonV> {
    match last_assign(assigns, assigns.len() as int, c) {
        Some(i) => super::values::coerce(assigns[i].value, super::column_type(schema, c)),
        None => lookup(row, c),
    }
}

/// Making the first `n` assignments: each column holds the value of its last
/// assignment, coerced, or what it held where none sets it.
proof fn lemma_lookup_assign_entries(schema: SchemaV, assigns: Seq<AssignmentV>, row: RowV, n: int, c: Seq<char>)
    requires
        0 <= n <= assigns.len(),
        assign_entries(schema, assigns, row, n) is Ok,
    ensures
        lookup(assign_entries(schema, assigns, row, n)->Ok_0, c) == match last_assign(assigns, n, c) {
            Some(i) => super::values::coerce(assigns[i].value, super::column_type(schema, c)),
            None => lookup(row, c),
        },
    decreases n,
{
    reveal(assign_entries);
    if n > 0 {
        lemma_lookup_assign_entries(schema, assigns, row, n - 1, c);
        let acc = assign_entries(schema, assigns, row, n - 1)->Ok_0;
        let a = assigns[n - 1];
        let j = super::values::coerce(a.value, super::column_type(schema, a.column)).unwrap();
        lemma_lookup_insert_entry(acc, a.column, j, c);
    }
}

/// What UPDATE does to each listed row: every listed row reads; one that
/// passes the condition takes the assignments and holds their text, one that
/// does not keeps its value.
proof fn lemma_update_rows_effect(
    m: Map<Seq<u8>, Seq<u8>>,
    l: Seq<(Seq<u8>, Seq<u8>)>,
    schema: SchemaV,
    assigns: Seq<AssignmentV>,
    w: Option<ExprV>,
)
    requires
        forall|a: int, b: int| 0 <= a < b < l.len() ==> l[a].0 != l[b].0,
        forall|a: int| 0 <= a < l.len() ==> m.contains_key(#[trigger] l[a].0) && m[l[a].0] == l[a].1,
        update_rows(m, l, schema, assigns, w).2 is None,
    ensures
        forall|a: int|
            0 <= a < l.len() ==> {
                let fin = update_rows(m, l, schema, assigns, w).0;
                let obj = json_object(l[a].1).unwrap();
                &&& (#[trigger] json_object(l[a].1)) is Some
                &&& fin.contains_key(l[a].0)
                &&& super::passes(w, obj) ==> (assign_entries(schema, assigns, obj, assigns.len() as int) matches Ok(e)
                    && fin[l[a].0] == json_object_bytes(e))
                &&& !super::passes(w, obj) ==> fin[l[a].0] == l[a].1
            },
    decreases l.len(),
{
    reveal(update_rows);
    if l.len() > 0 {
        let d = l.drop_last();
        let (m1, n, h) = update_rows(m, d, schema, assigns, w);
        assert(h is None);
        assert forall|a: int, b: int| 0 <= a < b < d.len() implies d[a].0 != d[b].0 by {
            assert(d[a] == l[a] && d[b] == l[b]);
        }
        assert forall|a: int| 0 <= a < d.len() implies m.contains_key(#[trigger] d[a].0) && m[d[a].0]
            == d[a].1 by {
            assert(d[a] == l[a]);
        }
        lemma_update_rows_effect(m, d, schema, assigns, w);
        let last = l.last();
        assert(last == l[l.len() - 1]);
        assert forall|a: int| 0 <= a < d.len() implies (#[trigger] d[a]).0 != last.0 by {
            assert(d[a] == l[a]);
        }
        law_update_frame(m, d, schema, assigns, w, last.0);
        let fin = update_rows(m, l, schema, assigns, w).0;
        assert forall|a: int| 0 <= a < l.len() implies {
            let obj = json_object(l[a].1).unwrap();
            &&& (#[trigger] json_object(l[a].1)) is Some
            &&& fin.contains_key(l[a].0)
            &&& super::passes(w, obj) ==> (assign_entries(schema, assigns, obj, assigns.len() as int) matches Ok(e)
                && fin[l[a].0] == json_object_bytes(e))
            &&& !super::passes(w, obj) ==> fin[l[a].0] == l[a].1
        } by {
            if a < d.len() {
                assert(l[a] == d[a]);
                assert(l[a].0 != last.0);
                assert(json_object(d[a].1) is Some);
            }
        }
    }
}

/// What UPDATE leaves of a table, in a store of finitely many keys, where it
/// ran to the end: every row of the table is still there; one that passed
/// the condition holds the text of its entries with the assignments made,
/// under each column the value of its last assignment (coerced to the
/// column's type), one that did not holds what it held before.
pub proof fn law_update_sets_matching(
    m: Map<Seq<u8>, Seq<u8>>,
    t: Seq<char>,
    schema: SchemaV,
    assigns: Seq<AssignmentV>,
    w: Option<ExprV>,
    k: Seq<u8>,
)
    requires
        m.dom().finite(),
        update_rows(m, scan(m, row_prefix(t)), schema, assigns, w).2 is None,
        m.contains_key(k),
        row_prefix(t).is_prefix_of(k),
    ensures
        ({
            let fin = update_rows(m, scan(m, row_prefix(t)), schema, assigns, w).0;
            let obj = json_object(m[k]).unwrap();
            &&& json_object(m[k]) is Some
            &&& fin.contains_key(k)
            &&& super::passes(w, obj) ==> (assign_entries(schema, assigns, obj, assigns.len() as int) matches Ok(e)
                && fin[k] == json_object_bytes(e) && forall|c: Seq<char>| #[trigger] lookup(e, c)
                == assigned_value(schema, assigns, obj, c))
            &&& !super::passes(w, obj) ==> fin[k] == m[k]
        }),
{
    let p = row_prefix(t);
    crate::storage::lemma_listing_exists(m, p);
    let l = scan(m, p);
    assert forall|a: int, b: int| 0 <= a < b < l.len() implies l[a].0 != l[b].0 by {
        assert(crate::storage::bytes_lt(l[a].0, l[b].0));
        crate::storage::lemma_lt_irreflexive(l[a].0);
    }
    lemma_update_rows_effect(m, l, schema, assigns, w);
    let a = choose|a: int| 0 <= a < l.len() && #[trigger] l[a].0 == k;
    assert(json_object(l[a].1) is Some);
    let obj = json_object(m[k]).unwrap();
    if super::passes(w, obj) {
        let e = assign_entries(schema, assigns, obj, assigns.len() as int)->Ok_0;
        assert forall|c: Seq<char>| #[trigger] lookup(e, c) == assigned_value(schema, assigns, obj, c) by {
            lemma_lookup_assign_entries(schema, assigns, obj, assigns.len() as int, c);
        }
    }
}

/// What UPDATE then SELECT gives: after an UPDATE of `t` that ran to the end,
/// in a store of finitely many keys, a plain `SELECT * FROM t` shows each row
/// whose new entries can be written and read back exactly (see
/// `updated_entries`) with those entries: under each column the value of its
/// last assignment, coerced to the column's type, or what the row held where
/// no assignment sets it. The answer is the row's place in the result.
pub proof fn law_update_then_select(
    old: Map<Seq<u8>, Seq<u8>>,
    fin: Map<Seq<u8>, Seq<u8>>,
    s: SelectStmtV,
    assigns: Seq<AssignmentV>,
    w: Option<ExprV>,
    id: u64,
) -> (i: int)
    requires
        old.dom().finite(),
        fin.dom().finite(),
        s.columns == SelectColumnsV::Star,
        s.joins.len() == 0,
        s.where_clause is None,
        s.order_by.len() == 0,
        s.limit is None,
        stored_schema(old, s.table_name) is Some,
        update_rows(old, scan(old, row_prefix(s.table_name)), stored_schema(old, s.table_name)->Some_0, assigns, w).0 == fin,
        update_reads_back(old, fin, s.table_name, assigns, w),
        old.contains_key(row_key_of(s.table_name, id)),
        updated_entries(old, stored_schema(old, s.table_name)->Some_0, assigns, w, row_key_of(s.table_name, id)) is Some,
    ensures
        match select_spec(fin, s) {
            Ok((names, shown)) => {
                let sch = stored_schema(old, s.table_name)->Some_0;
                let k = row_key_of(s.table_name, id);
                let e = updated_entries(old, sch, assigns, w, k)->Some_0;
                &&& names == column_names(sch.columns)
                &&& 0 <= i < shown.len()
                &&& shown[i] == cells_of(sch.columns, e)
                &&& forall|c: Seq<char>| #[trigger] lookup(e, c) == assigned_value(sch, assigns, json_object(old[k])->Some_0, c)
            },
            Err(_) => false,
        },
{
    let t = s.table_name;
    let sch = stored_schema(old, t)->Some_0;
    let k = row_key_of(t, id);
    let p = row_prefix(t);
    // the schema is untouched: its key is not among the table's rows
    crate::storage::lemma_listing_exists(old, p);
    let l = scan(old, p);
    let ck = catalog_key_of(t);
    lemma_catalog_key_apart(t, t);
    assert forall|a: int| 0 <= a < l.len() implies (#[trigger] l[a]).0 != ck by {
        assert(p.is_prefix_of(l[a].0));
    }
    law_update_frame(old, l, sch, assigns, w, ck);
    assert(stored_schema(fin, t) == stored_schema(old, t));
    // the row reads back as its new entries, which keep their keys in order
    law_row_key_in_table(t, id);
    let obj = json_object(old[k])->Some_0;
    let e = updated_entries(old, sch, assigns, w, k)->Some_0;
    assert(assign_entries(sch, assigns, obj, assigns.len() as int) == Ok::<RowV, int>(e));
    super::lemma_assign_sorted_plain(sch, assigns, obj, assigns.len() as int);
    assert forall|c: Seq<char>| #[trigger] lookup(e, c) == assigned_value(sch, assigns, obj, c) by {
        lemma_lookup_assign_entries(sch, assigns, obj, assigns.len() as int, c);
    }
    law_select_shows_row(fin, s, id, e)
}

/// The keys a table's rows are listed under all begin with its row prefix,
/// so no schema key is among them.
proof fn lemma_listing_misses_schema(m: Map<Seq<u8>, Seq<u8>>, u: Seq<char>, t: Seq<char>)
    requires
        m.dom().finite(),
    ensures
        forall|i: int|
            0 <= i < scan(m, row_prefix(u)).len() ==> (#[trigger] scan(m, row_prefix(u))[i]).0
                != catalog_key_of(t),
{
    crate::storage::lemma_listing_exists(m, row_prefix(u));
    lemma_catalog_key_apart(t, u);
    let l = scan(m, row_prefix(u));
    assert forall|i: int| 0 <= i < l.len() implies (#[trigger] l[i]).0 != catalog_key_of(t) by {
        assert(row_prefix(u).is_prefix_of(l[i].0));
    }
}

/// A stored schema stays as it is through every statement that does not fail
/// in the store, in a store of finitely many keys: a CREATE of another table
/// writes another key, a CREATE of the same table is refused, and INSERT,
/// UPDATE, DELETE and SELECT touch no schema.
pub proof fn law_schema_survives(
    m: Map<Seq<u8>, Seq<u8>>,
    fin: Map<Seq<u8>, Seq<u8>>,
    s: StmtV,
    r: Result<QueryResult, ExecError>,
    t: Seq<char>,
)
    requires
        m.dom().finite(),
        statement_outcome(m, fin, s, r),
        !(r matches Err(ExecError::Storage(_))),
        !(r matches Err(ExecError::Catalog(CatalogError::Storage(_)))),
        m.contains_key(catalog_key_of(t)),
    ensures
        fin.contains_key(catalog_key_of(t)),
        fin[catalog_key_of(t)] == m[catalog_key_of(t)],
{
    let k = catalog_key_of(t);
    match s {
        StmtV::CreateTable { table_name, columns } => {
            if r is Ok {
                crate::catalog::law_catalog_keys_distinct(table_name, t);
            }
        },
        StmtV::Insert { table_name, columns, rows } => {
            reveal(super::insert_outcome);
            lemma_catalog_key_apart(t, table_name);
            if let Some(sch) = stored_schema(m, table_name) {
                law_insert_frame(m, table_name, sch, columns, rows, k);
            }
        },
        StmtV::Select(_) => {},
        StmtV::Update { table_name, assignments, where_clause } => {
            reveal(super::update_outcome);
            lemma_listing_misses_schema(m, table_name, t);
            if let Some(sch) = stored_schema(m, table_name) {
                law_update_frame(m, scan(m, row_prefix(table_name)), sch, assignments, where_clause, k);
            }
        },
        StmtV::Delete { table_name, where_clause } => {
            reveal(super::delete_outcome);
            lemma_listing_misses_schema(m, table_name, t);
            law_delete_frame(m, scan(m, row_prefix(table_name)), where_clause, k);
        },
    }
}

} // verus!
