//! SELECT: the rows of a table and of its joins, filtered, sorted, limited and
//! shown.
use super::rows::{
    copy_row, display_json, first_suffix, insert_entries, qualify, qualify_row, row_insert,
    row_insert_all, table_view, RowV,
};
use super::values::{eval_spec, sort_by_order};
use super::ExecError;
use crate::catalog::{ColumnV, SchemaV};
use crate::json::{entries_view, find_entry, json_object, json_same, lookup, parse_object, Json, JsonV};
use crate::sql::ast::{ExprV, JoinClause, JoinClauseV, JoinType, SelectStmtV};
use crate::storage::{pairs_view, scan, Storage};
use crate::text::append_str;
use vstd::prelude::*;

verus! {

/// The rows of a listing, each read as a JSON object and qualified by the
/// table's name.
pub open spec fn table_rows(l: Seq<(Seq<u8>, Seq<u8>)>, t: Seq<char>) -> Seq<RowV> {
    l.map_values(|e: (Seq<u8>, Seq<u8>)| qualify(t, json_object(e.1).unwrap()))
}

/// Every value stored under the prefix reads as a JSON object.
pub open spec fn prefix_readable(m: Map<Seq<u8>, Seq<u8>>, p: Seq<u8>) -> bool {
    forall|k: Seq<u8>| m.contains_key(k) && p.is_prefix_of(k) ==> (#[trigger] json_object(m[k])) is Some
}

/// `<table>.<column>`
pub open spec fn dotted_name(t: Seq<char>, c: Seq<char>) -> Seq<char> {
    t + seq!['.'] + c
}

/// The rows that one left row makes with the right rows: merged with each
/// right row whose join column holds a value equal to the left row's (as `json_same` says).
pub open spec fn joined_with(left: RowV, rights: Seq<RowV>, lk: Seq<char>, rk: Seq<char>) -> Seq<
    RowV,
>
    decreases rights.len(),
{
    if rights.len() == 0 {
        Seq::empty()
    } else {
        let rest = joined_with(left, rights.drop_last(), lk, rk);
        let lv = lookup(left, lk);
        let rv = lookup(rights.last(), rk);
        if lv is Some && rv is Some && json_same(lv->Some_0, rv->Some_0) {
            rest.push(insert_entries(left, rights.last()))
        } else {
            rest
        }
    }
}

/// Every column of a table, qualified and null.
pub open spec fn null_entries(t: Seq<char>, cols: Seq<ColumnV>) -> RowV {
    cols.map_values(|c: ColumnV| (dotted_name(t, c.name), JsonV::Null))
}

/// The rows of one join: for each left row, its merges with the matching
/// right rows; for a LEFT join a left row without a match is kept with the
/// right table's columns null, which needs the right table's schema (`None`
/// where that is missing).
pub open spec fn join_rows(
    lefts: Seq<RowV>,
    rights: Seq<RowV>,
    j: JoinClauseV,
    right_schema: Option<SchemaV>,
) -> Option<Seq<RowV>>
    decreases lefts.len(),
{
    if lefts.len() == 0 {
        Some(Seq::empty())
    } else {
        match join_rows(lefts.drop_last(), rights, j, right_schema) {
            None => None,
            Some(acc) => {
                let left = lefts.last();
                let ms = joined_with(
                    left,
                    rights,
                    dotted_name(j.on.left_table, j.on.left_col),
                    dotted_name(j.on.right_table, j.on.right_col),
                );
                if ms.len() == 0 && j.join_type == JoinType::Left {
                    match right_schema {
                        Some(sch) => Some(
                            acc.push(insert_entries(left, null_entries(j.table_name, sch.columns))),
                        ),
                        None => None,
                    }
                } else {
                    Some(acc + ms)
                }
            },
        }
    }
}

/// `row:` listings and schemas that SELECT reads.
pub open spec fn stored_rows(m: Map<Seq<u8>, Seq<u8>>, t: Seq<char>) -> Seq<RowV> {
    table_rows(scan(m, super::row_prefix(t)), t)
}

/// The rows after the joins, in order; `Err(t)` where a LEFT join needs the
/// schema of a table `t` that is missing.
pub open spec fn apply_joins(m: Map<Seq<u8>, Seq<u8>>, rows: Seq<RowV>, joins: Seq<JoinClauseV>) -> Result<
    Seq<RowV>,
    Seq<char>,
>
    decreases joins.len(),
{
    if joins.len() == 0 {
        Ok(rows)
    } else {
        match apply_joins(m, rows, joins.drop_last()) {
            Err(t) => Err(t),
            Ok(acc) => {
                let j = joins.last();
                match join_rows(
                    acc,
                    stored_rows(m, j.table_name),
                    j,
                    super::stored_schema(m, j.table_name),
                ) {
                    Some(r) => Ok(r),
                    None => Err(j.table_name),
                }
            },
        }
    }
}

/// The rows that pass an optional condition, in order.
pub open spec fn keep_rows(rows: Seq<RowV>, w: Option<ExprV>) -> Seq<RowV>
    decreases rows.len(),
{
    if rows.len() == 0 {
        Seq::empty()
    } else {
        let k = keep_rows(rows.drop_last(), w);
        if super::passes(w, rows.last()) {
            k.push(rows.last())
        } else {
            k
        }
    }
}

/// The names of the result's columns, as the rows hold them: for `*` the
/// table's columns qualified, or with joins the keys of the first row; for a
/// named column its qualified name, or for an unqualified one the first key
/// of the first row that ends in `.<column>` (else the name as written).
pub open spec fn out_columns(s: SelectStmtV, schema: SchemaV, rows: Seq<RowV>) -> Seq<Seq<char>> {
    match s.columns {
        crate::sql::ast::SelectColumnsV::Star => if s.joins.len() > 0 {
            if rows.len() > 0 {
                rows[0].map_values(|e: (Seq<char>, JsonV)| e.0)
            } else {
                Seq::empty()
            }
        } else {
            schema.columns.map_values(|c: ColumnV| dotted_name(s.table_name, c.name))
        },
        crate::sql::ast::SelectColumnsV::Named(refs) => refs.map_values(
            |r: crate::sql::ast::ColumnRefV|
                match r.table {
                    Some(t) => dotted_name(t, r.column),
                    None => if rows.len() > 0 {
                        match first_suffix(rows[0], seq!['.'] + r.column) {
                            Some(i) => rows[0][i].0,
                            None => r.column,
                        }
                    } else {
                        r.column
                    },
                },
        ),
    }
}

/// The names the result's columns are shown under: for `*` without joins
/// the table's column names, for named columns the names as written without
/// their tables, else the qualified names.
pub open spec fn display_columns(s: SelectStmtV, schema: SchemaV, out: Seq<Seq<char>>) -> Seq<
    Seq<char>,
> {
    match s.columns {
        crate::sql::ast::SelectColumnsV::Star => if s.joins.len() == 0 {
            schema.columns.map_values(|c: ColumnV| c.name)
        } else {
            out
        },
        crate::sql::ast::SelectColumnsV::Named(refs) => refs.map_values(
            |r: crate::sql::ast::ColumnRefV| r.column,
        ),
    }
}

/// The shown values of the rows: for each row, each result column's value
/// shown, or nothing where the row lacks the column.
pub open spec fn shown_rows(rows: Seq<RowV>, out: Seq<Seq<char>>) -> Seq<Seq<Option<Seq<char>>>> {
    rows.map_values(
        |row: RowV|
            out.map_values(
                |c: Seq<char>|
                    match lookup(row, c) {
                        Some(v) => Some(display_json(v)),
                        None => None,
                    },
            ),
    )
}

/// The result of a SELECT on a store: the shown column names and rows, or
/// the name of a table whose schema is missing.
pub open spec fn select_spec(m: Map<Seq<u8>, Seq<u8>>, s: SelectStmtV) -> Result<
    (Seq<Seq<char>>, Seq<Seq<Option<Seq<char>>>>),
    Seq<char>,
> {
    match super::stored_schema(m, s.table_name) {
        None => Err(s.table_name),
        Some(sch) => match apply_joins(m, stored_rows(m, s.table_name), s.joins) {
            Err(t) => Err(t),
            Ok(joined) => {
                let kept = keep_rows(joined, s.where_clause);
                let sorted = if s.order_by.len() > 0 {
                    sort_by_order(kept, s.order_by)
                } else {
                    kept
                };
                let limited = match s.limit {
                    Some(n) => if (n as int) < sorted.len() {
                        sorted.take(n as int)
                    } else {
                        sorted
                    },
                    None => sorted,
                };
                let out = out_columns(s, sch, limited);
                Ok((display_columns(s, sch, out), shown_rows(limited, out)))
            },
        },
    }
}

/// The stored rows of a table, read and qualified.
pub fn load_rows(storage: &Storage, table_name: &str) -> (r: Result<Vec<Vec<(String, Json)>>, ExecError>)
    requires
        prefix_readable(storage@, super::row_prefix(table_name@)),
    ensures
        match r {
            Ok(v) => table_view(v@) == stored_rows(storage@, table_name@),
            Err(e) => e is Storage,
        },
{
    let prefix = super::row_prefix_bytes(table_name);
    let raw = match storage.scan_prefix(prefix.as_slice()) {
        Ok(v) => v,
        Err(e) => return Err(ExecError::Storage(e)),
    };
    let ghost l = pairs_view(raw@);
    assert(crate::storage::prefix_listing(storage@, super::row_prefix(table_name@), l));
    let mut out: Vec<Vec<(String, Json)>> = Vec::new();
    let mut i: usize = 0;
    while i < raw.len()
        invariant
            i <= raw.len(),
            l == pairs_view(raw@),
            l == scan(storage@, super::row_prefix(table_name@)),
            crate::storage::prefix_listing(storage@, super::row_prefix(table_name@), l),
            prefix_readable(storage@, super::row_prefix(table_name@)),
            out@.len() == i,
            forall|k: int| 0 <= k < i ==> #[trigger] table_view(out@)[k] == table_rows(l, table_name@)[k],
        decreases raw.len() - i,
    {
        assert(l[i as int].1 == raw[i as int].1@);
        assert(storage@.contains_key(l[i as int].0) && storage@[l[i as int].0] == l[i as int].1);
        assert(json_object(storage@[l[i as int].0]) is Some);
        assert(json_object(l[i as int].1) is Some);
        let obj = match parse_object(raw[i].1.as_slice()) {
            Ok(o) => o,
            Err(e) => {
                assert(false);
                return Err(ExecError::Json(e));
            },
        };
        let ghost ov = entries_view(obj@);
        assert(json_object(l[i as int].1) == Some(ov));
        let q = qualify_row(table_name, obj);
        let ghost qv = entries_view(q@);
        assert(qv == table_rows(l, table_name@)[i as int]);
        let ghost before = out@;
        out.push(q);
        proof {
            assert(table_view(out@)[i as int] == qv);
            assert forall|k: int| 0 <= k < i + 1 implies #[trigger] table_view(out@)[k]
                == table_rows(l, table_name@)[k] by {
                if k < i {
                    assert(out@[k] == before[k]);
                    assert(table_view(before)[k] == table_rows(l, table_name@)[k]);
                    assert(table_view(out@)[k] == table_view(before)[k]);
                }
            }
        }
        i = i + 1;
    }
    assert(table_view(out@) =~= table_rows(l, table_name@));
    Ok(out)
}

/// `<table>.<column>` as a string.
fn dotted_string(t: &str, c: &str) -> (r: String)
    ensures
        r@ == dotted_name(t@, c@),
{
    let mut s = String::new();
    append_str(&mut s, t);
    append_str(&mut s, ".");
    append_str(&mut s, c);
    proof {
        reveal_strlit(".");
        assert(s@ =~= dotted_name(t@, c@));
    }
    s
}

/// The rows one left row makes with the right rows.
fn join_with_row(
    left: &Vec<(String, Json)>,
    rights: &Vec<Vec<(String, Json)>>,
    lk: &str,
    rk: &str,
) -> (r: Vec<Vec<(String, Json)>>)
    ensures
        table_view(r@) == joined_with(entries_view(left@), table_view(rights@), lk@, rk@),
{
    let ghost lv = entries_view(left@);
    let ghost rv = table_view(rights@);
    let mut out: Vec<Vec<(String, Json)>> = Vec::new();
    let mut i: usize = 0;
    assert(rv.take(0) =~= Seq::<RowV>::empty());
    while i < rights.len()
        invariant
            i <= rights.len(),
            lv == entries_view(left@),
            rv == table_view(rights@),
            table_view(out@) == joined_with(lv, rv.take(i as int), lk@, rk@),
        decreases rights.len() - i,
    {
        let right = &rights[i];
        assert(rv[i as int] == entries_view(right@));
        assert(rv.take(i + 1).drop_last() =~= rv.take(i as int));
        assert(rv.take(i + 1).last() == rv[i as int]);
        let a = find_entry(left, lk);
        let b = find_entry(right, rk);
        let same = match (a, b) {
            (Some(x), Some(y)) => x.same(y),
            _ => false,
        };
        if same {
            let mut merged = copy_row(left);
            row_insert_all(&mut merged, right);
            let ghost before = table_view(out@);
            out.push(merged);
            assert(table_view(out@) =~= before.push(insert_entries(lv, rv[i as int])));
        }
        i = i + 1;
    }
    assert(rv.take(rights.len() as int) =~= rv);
    out
}

/// One join applied to the rows so far.
pub fn join_table(storage: &Storage, lefts: &Vec<Vec<(String, Json)>>, j: &JoinClause) -> (r: Result<
    Vec<Vec<(String, Json)>>,
    ExecError,
>)
    requires
        prefix_readable(storage@, super::row_prefix(j@.table_name)),
    ensures
        match r {
            Ok(v) => join_rows(
                table_view(lefts@),
                stored_rows(storage@, j@.table_name),
                j@,
                super::stored_schema(storage@, j@.table_name),
            ) == Some(table_view(v@)),
            Err(ExecError::TableNotFound(n)) => n@ == j@.table_name,
            Err(e) => e is Storage,
        },
        join_rows(
            table_view(lefts@),
            stored_rows(storage@, j@.table_name),
            j@,
            super::stored_schema(storage@, j@.table_name),
        ) is None ==> r is Err,
{
    let rights = load_rows(storage, j.table_name.as_str())?;
    let lk = dotted_string(j.on.left_table.as_str(), j.on.left_col.as_str());
    let rk = dotted_string(j.on.right_table.as_str(), j.on.right_col.as_str());
    let ghost lv = table_view(lefts@);
    let ghost rv = table_view(rights@);
    let ghost jv = j@;
    let ghost rs = super::stored_schema(storage@, j@.table_name);
    let mut out: Vec<Vec<(String, Json)>> = Vec::new();
    let mut i: usize = 0;
    assert(lv.take(0) =~= Seq::<RowV>::empty());
    while i < lefts.len()
        invariant
            i <= lefts.len(),
            lv == table_view(lefts@),
            rv == table_view(rights@),
            rv == stored_rows(storage@, jv.table_name),
            jv == j@,
            rs == super::stored_schema(storage@, jv.table_name),
            lk@ == dotted_name(jv.on.left_table, jv.on.left_col),
            rk@ == dotted_name(jv.on.right_table, jv.on.right_col),
            join_rows(lv.take(i as int), rv, jv, rs) == Some(table_view(out@)),
        decreases lefts.len() - i,
    {
        let left = &lefts[i];
        assert(lv[i as int] == entries_view(left@));
        assert(lv.take(i + 1).drop_last() =~= lv.take(i as int));
        assert(lv.take(i + 1).last() == lv[i as int]);
        let mut ms = join_with_row(left, &rights, lk.as_str(), rk.as_str());
        if ms.len() == 0 && j.join_type == JoinType::Left {
            let schema = match crate::catalog::read_schema(storage, j.table_name.as_str()) {
                Ok(s) => s,
                Err(_) => return Err(ExecError::TableNotFound(j.table_name.clone())),
            };
            let ghost sch = schema@;
            let mut merged = copy_row(left);
            let mut c: usize = 0;
            let ghost nulls = null_entries(jv.table_name, sch.columns);
            assert(nulls.take(0) =~= Seq::<(Seq<char>, JsonV)>::empty());
            while c < schema.columns.len()
                invariant
                    c <= schema.columns.len(),
                    sch == schema@,
                    nulls == null_entries(jv.table_name, sch.columns),
                    jv == j@,
                    entries_view(merged@) == insert_entries(lv[i as int], nulls.take(c as int)),
                decreases schema.columns.len() - c,
            {
                let k = dotted_string(j.table_name.as_str(), schema.columns[c].name.as_str());
                assert(nulls[c as int] == (k@, JsonV::Null));
                assert(nulls.take(c + 1).drop_last() =~= nulls.take(c as int));
                row_insert(&mut merged, k, Json::Null);
                c = c + 1;
            }
            assert(nulls.take(schema.columns.len() as int) =~= nulls);
            let ghost before = table_view(out@);
            out.push(merged);
            assert(table_view(out@) =~= before.push(insert_entries(lv[i as int], nulls)));
        } else {
            let ghost before = table_view(out@);
            let ghost mv = table_view(ms@);
            out.append(&mut ms);
            assert(table_view(out@) =~= before + mv);
        }
        i = i + 1;
    }
    assert(lv.take(lefts.len() as int) =~= lv);
    Ok(out)
}

/// The rows that pass an optional condition.
pub fn filter_rows(rows: &Vec<Vec<(String, Json)>>, w: &Option<crate::sql::ast::Expr>) -> (r: Vec<
    Vec<(String, Json)>,
>)
    ensures
        table_view(r@) == keep_rows(table_view(rows@), crate::sql::ast::opt_expr_view(*w)),
{
    let ghost rv = table_view(rows@);
    let ghost wv = crate::sql::ast::opt_expr_view(*w);
    let mut out: Vec<Vec<(String, Json)>> = Vec::new();
    let mut i: usize = 0;
    assert(rv.take(0) =~= Seq::<RowV>::empty());
    while i < rows.len()
        invariant
            i <= rows.len(),
            rv == table_view(rows@),
            wv == crate::sql::ast::opt_expr_view(*w),
            table_view(out@) == keep_rows(rv.take(i as int), wv),
        decreases rows.len() - i,
    {
        assert(rv[i as int] == entries_view(rows[i as int]@));
        assert(rv.take(i + 1).drop_last() =~= rv.take(i as int));
        assert(rv.take(i + 1).last() == rv[i as int]);
        if super::row_passes(w, &rows[i]) {
            let c = copy_row(&rows[i]);
            let ghost before = table_view(out@);
            out.push(c);
            assert(table_view(out@) =~= before.push(rv[i as int]));
        }
        i = i + 1;
    }
    assert(rv.take(rows.len() as int) =~= rv);
    out
}

/// The views of the shown rows of a result.
pub open spec fn result_rows_view(v: Seq<Vec<Option<String>>>) -> Seq<Seq<Option<Seq<char>>>> {
    v.map_values(
        |r: Vec<Option<String>>|
            r@.map_values(
                |o: Option<String>|
                    match o {
                        Some(x) => Some(x@),
                        None => None,
                    },
            ),
    )
}

/// The keys of a row, in order.
fn row_keys(row: &Vec<(String, Json)>) -> (r: Vec<String>)
    ensures
        crate::sql::ast::strings_view(r@) == entries_view(row@).map_values(
            |e: (Seq<char>, JsonV)| e.0,
        ),
{
    let mut out: Vec<String> = Vec::new();
    let mut i: usize = 0;
    while i < row.len()
        invariant
            i <= row.len(),
            crate::sql::ast::strings_view(out@) == entries_view(row@).map_values(
                |e: (Seq<char>, JsonV)| e.0,
            ).take(i as int),
        decreases row.len() - i,
    {
        let k = row[i].0.clone();
        let ghost kv = k@;
        let ghost before = out@;
        out.push(k);
        proof {
            let keys = entries_view(row@).map_values(|e: (Seq<char>, JsonV)| e.0);
            assert(kv == keys[i as int]);
            assert(crate::sql::ast::strings_view(out@) =~= crate::sql::ast::strings_view(
                before,
            ).push(kv));
            assert(keys.take(i + 1) =~= keys.take(i as int).push(keys[i as int]));
        }
        i = i + 1;
    }
    assert(entries_view(row@).map_values(|e: (Seq<char>, JsonV)| e.0).take(row.len() as int)
        =~= entries_view(row@).map_values(|e: (Seq<char>, JsonV)| e.0));
    out
}

/// The names of the result's columns, as the rows hold them.
pub fn result_columns(
    stmt: &crate::sql::ast::SelectStmt,
    schema: &crate::catalog::Schema,
    rows: &Vec<Vec<(String, Json)>>,
) -> (r: Vec<String>)
    ensures
        crate::sql::ast::strings_view(r@) == out_columns(stmt@, schema@, table_view(rows@)),
{
    let ghost rv = table_view(rows@);
    match &stmt.columns {
        crate::sql::ast::SelectColumns::Star => {
            if stmt.joins.len() > 0 {
                if rows.len() > 0 {
                    assert(rv[0] == entries_view(rows[0]@));
                    row_keys(&rows[0])
                } else {
                    let v: Vec<String> = Vec::new();
                    assert(crate::sql::ast::strings_view(v@) =~= Seq::<Seq<char>>::empty());
                    v
                }
            } else {
                let ghost cols = schema@.columns;
                let mut out: Vec<String> = Vec::new();
                let mut i: usize = 0;
                while i < schema.columns.len()
                    invariant
                        i <= schema.columns.len(),
                        cols == schema@.columns,
                        crate::sql::ast::strings_view(out@) == cols.map_values(
                            |c: ColumnV| dotted_name(stmt.table_name@, c.name),
                        ).take(i as int),
                    decreases schema.columns.len() - i,
                {
                    let d = dotted_string(stmt.table_name.as_str(), schema.columns[i].name.as_str());
                    let ghost dv = d@;
                    let ghost before = out@;
                    out.push(d);
                    proof {
                        let names = cols.map_values(|c: ColumnV| dotted_name(stmt.table_name@, c.name));
                        assert(dv == names[i as int]);
                        assert(crate::sql::ast::strings_view(out@) =~= crate::sql::ast::strings_view(
                            before,
                        ).push(dv));
                        assert(names.take(i + 1) =~= names.take(i as int).push(names[i as int]));
                    }
                    i = i + 1;
                }
                assert(cols.map_values(|c: ColumnV| dotted_name(stmt.table_name@, c.name)).take(
                    cols.len() as int,
                ) =~= cols.map_values(|c: ColumnV| dotted_name(stmt.table_name@, c.name)));
                out
            }
        },
        crate::sql::ast::SelectColumns::Named(refs) => {
            let ghost want = out_columns(stmt@, schema@, rv);
            let ghost rfv = refs@.map_values(|c: crate::sql::ast::ColumnRef| c@);
            let mut out: Vec<String> = Vec::new();
            let mut i: usize = 0;
            while i < refs.len()
                invariant
                    i <= refs.len(),
                    rv == table_view(rows@),
                    stmt@.columns == crate::sql::ast::SelectColumnsV::Named(rfv),
                    rfv == refs@.map_values(|c: crate::sql::ast::ColumnRef| c@),
                    want == out_columns(stmt@, schema@, rv),
                    want.len() == refs.len(),
                    crate::sql::ast::strings_view(out@) == want.take(i as int),
                decreases refs.len() - i,
            {
                let cr = &refs[i];
                assert(rfv[i as int] == cr@);
                let name = match &cr.table {
                    Some(t) => dotted_string(t.as_str(), cr.column.as_str()),
                    None => {
                        if rows.len() > 0 {
                            assert(rv[0] == entries_view(rows[0]@));
                            let suf = super::rows::dotted(cr.column.as_str());
                            match super::rows::suffix_index(&rows[0], &suf) {
                                Some(k) => rows[0][k].0.clone(),
                                None => cr.column.clone(),
                            }
                        } else {
                            cr.column.clone()
                        }
                    },
                };
                assert(name@ == want[i as int]);
                let ghost nv = name@;
                let ghost before = out@;
                out.push(name);
                proof {
                    assert(crate::sql::ast::strings_view(out@) =~= crate::sql::ast::strings_view(
                        before,
                    ).push(nv));
                    assert(want.take(i + 1) =~= want.take(i as int).push(want[i as int]));
                }
                i = i + 1;
            }
            assert(want.take(refs.len() as int) =~= want);
            out
        },
    }
}

/// The names the result's columns are shown under.
pub fn result_display_names(
    stmt: &crate::sql::ast::SelectStmt,
    schema: &crate::catalog::Schema,
    out: &Vec<String>,
) -> (r: Vec<String>)
    ensures
        crate::sql::ast::strings_view(r@) == display_columns(
            stmt@,
            schema@,
            crate::sql::ast::strings_view(out@),
        ),
{
    match &stmt.columns {
        crate::sql::ast::SelectColumns::Named(refs) => {
            let ghost rfv = refs@.map_values(|c: crate::sql::ast::ColumnRef| c@);
            let mut v: Vec<String> = Vec::new();
            let mut i: usize = 0;
            while i < refs.len()
                invariant
                    i <= refs.len(),
                    rfv == refs@.map_values(|c: crate::sql::ast::ColumnRef| c@),
                    crate::sql::ast::strings_view(v@) == rfv.map_values(
                        |r: crate::sql::ast::ColumnRefV| r.column,
                    ).take(i as int),
                decreases refs.len() - i,
            {
                assert(rfv[i as int] == refs[i as int]@);
                let d = refs[i].display_name();
                let ghost dv = d@;
                let ghost before = v@;
                v.push(d);
                proof {
                    let names = rfv.map_values(|r: crate::sql::ast::ColumnRefV| r.column);
                    assert(dv == names[i as int]);
                    assert(crate::sql::ast::strings_view(v@) =~= crate::sql::ast::strings_view(
                        before,
                    ).push(dv));
                    assert(names.take(i + 1) =~= names.take(i as int).push(names[i as int]));
                }
                i = i + 1;
            }
            assert(rfv.map_values(|r: crate::sql::ast::ColumnRefV| r.column).take(
                refs.len() as int,
            ) =~= rfv.map_values(|r: crate::sql::ast::ColumnRefV| r.column));
            v
        },
        crate::sql::ast::SelectColumns::Star => {
            if stmt.joins.len() == 0 {
                let ghost cols = schema@.columns;
                let mut v: Vec<String> = Vec::new();
                let mut i: usize = 0;
                while i < schema.columns.len()
                    invariant
                        i <= schema.columns.len(),
                        cols == schema@.columns,
                        crate::sql::ast::strings_view(v@) == cols.map_values(|c: ColumnV| c.name).take(
                            i as int,
                        ),
                    decreases schema.columns.len() - i,
                {
                    let d = schema.columns[i].name.clone();
                    let ghost dv = d@;
                    let ghost before = v@;
                    v.push(d);
                    proof {
                        let names = cols.map_values(|c: ColumnV| c.name);
                        assert(dv == names[i as int]);
                        assert(crate::sql::ast::strings_view(v@) =~= crate::sql::ast::strings_view(
                            before,
                        ).push(dv));
                        assert(names.take(i + 1) =~= names.take(i as int).push(names[i as int]));
                    }
                    i = i + 1;
                }
                assert(cols.map_values(|c: ColumnV| c.name).take(cols.len() as int) =~= cols.map_values(
                    |c: ColumnV| c.name,
                ));
                v
            } else {
                let mut v: Vec<String> = Vec::new();
                let mut i: usize = 0;
                while i < out.len()
                    invariant
                        i <= out.len(),
                        crate::sql::ast::strings_view(v@) == crate::sql::ast::strings_view(
                            out@,
                        ).take(i as int),
                    decreases out.len() - i,
                {
                    let d = out[i].clone();
                    let ghost dv = d@;
                    let ghost before = v@;
                    v.push(d);
                    proof {
                        let names = crate::sql::ast::strings_view(out@);
                        assert(dv == names[i as int]);
                        assert(crate::sql::ast::strings_view(v@) =~= crate::sql::ast::strings_view(
                            before,
                        ).push(dv));
                        assert(names.take(i + 1) =~= names.take(i as int).push(names[i as int]));
                    }
                    i = i + 1;
                }
                assert(crate::sql::ast::strings_view(out@).take(out.len() as int)
                    =~= crate::sql::ast::strings_view(out@));
                v
            }
        },
    }
}

/// The shown values of the rows under the result's columns.
pub fn show_rows(rows: &Vec<Vec<(String, Json)>>, out: &Vec<String>) -> (r: Vec<Vec<Option<String>>>)
    ensures
        result_rows_view(r@) == shown_rows(table_view(rows@), crate::sql::ast::strings_view(out@)),
{
    let ghost ov = crate::sql::ast::strings_view(out@);
    let ghost want = shown_rows(table_view(rows@), ov);
    let mut res: Vec<Vec<Option<String>>> = Vec::new();
    let mut i: usize = 0;
    while i < rows.len()
        invariant
            i <= rows.len(),
            ov == crate::sql::ast::strings_view(out@),
            want == shown_rows(table_view(rows@), ov),
            result_rows_view(res@) == want.take(i as int),
        decreases rows.len() - i,
    {
        let row = &rows[i];
        let ghost rw = entries_view(row@);
        assert(table_view(rows@)[i as int] == rw);
        let mut line: Vec<Option<String>> = Vec::new();
        let mut k: usize = 0;
        let ghost lw = want[i as int];
        while k < out.len()
            invariant
                k <= out.len(),
                ov == crate::sql::ast::strings_view(out@),
                rw == entries_view(row@),
                lw == ov.map_values(
                    |c: Seq<char>|
                        match lookup(rw, c) {
                            Some(v) => Some(display_json(v)),
                            None => None,
                        },
                ),
                line@.map_values(
                    |o: Option<String>|
                        match o {
                            Some(x) => Some(x@),
                            None => None,
                        },
                ) == lw.take(k as int),
            decreases out.len() - k,
        {
            assert(ov[k as int] == out[k as int]@);
            let cell = match find_entry(row, out[k].as_str()) {
                Some(v) => Some(super::rows::display_value(v)),
                None => None,
            };
            let ghost cv = match &cell {
                Some(x) => Some(x@),
                None => None,
            };
            assert(cv == lw[k as int]);
            let ghost before = line@;
            line.push(cell);
            proof {
                let f = |o: Option<String>|
                    match o {
                        Some(x) => Some(x@),
                        None => None,
                    };
                assert(line@.map_values(f) =~= before.map_values(f).push(cv));
                assert(lw.take(k + 1) =~= lw.take(k as int).push(lw[k as int]));
            }
            k = k + 1;
        }
        assert(lw.take(out.len() as int) =~= lw);
        let ghost lv = line@.map_values(
            |o: Option<String>|
                match o {
                    Some(x) => Some(x@),
                    None => None,
                },
        );
        assert(lv == lw);
        let ghost before = res@;
        res.push(line);
        proof {
            assert(result_rows_view(res@) =~= result_rows_view(before).push(lw));
            assert(want.take(i + 1) =~= want.take(i as int).push(want[i as int]));
        }
        i = i + 1;
    }
    assert(want.take(rows.len() as int) =~= want);
    res
}

} // verus!
