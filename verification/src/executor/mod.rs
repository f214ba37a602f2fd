//! The query executor: runs parsed statements against the catalog and the
//! stored rows.
pub mod meaning;
pub mod properties;
pub mod rows;
pub mod select;
pub mod values;

use crate::catalog::{
    catalog_key_of, column_position, columns_view, decode_schema, read_schema, schema_text,
    write_schema, CatalogError, ColType, Column, ColumnV, Schema, SchemaV,
};
use crate::json::{
    entries_plain, entries_view, json_object, json_object_bytes, keys_sorted, object_bytes,
    parse_object, Json, JsonV,
};
use crate::sql::ast::{
    opt_expr_view, rows_view, strings_view, Assignment, AssignmentV, ColumnDef, ColumnDefV,
    CreateTableStmt, DeleteStmt, Expr, ExprV, InsertStmt, JoinClauseV, SelectStmt, SelectStmtV,
    Stmt, StmtV, UpdateStmt, Value, ValueV,
};
use rows::{insert_entry, row_insert, table_view, RowV};
use select::{
    apply_joins, prefix_readable, filter_rows, join_table, keep_rows, load_rows, result_columns,
    result_display_names, result_rows_view, select_spec, show_rows, stored_rows,
};
use values::{coerce, coerce_value, eval_expr, eval_spec, integer_text, sort_by_order, sort_rows};
use crate::storage::{pairs_view, scan, Storage, StorageError};
use crate::text::{
    append_str, bytes_to_vec, chars_of, decimal_string, int_decimal, lemma_parse_decimal,
    nat_decimal, parse_u64, parse_u64_bytes,
};
use vstd::prelude::*;
use vstd::utf8::encode_utf8;

verus! {

/// A failed statement.
#[derive(Debug)]
pub enum ExecError {
    Storage(StorageError),
    Catalog(CatalogError),
    Json(serde_json::Error),
    TableNotFound(String),
    ColumnNotFound(String, String),
    ColumnCountMismatch { expected: usize, got: usize },
    TypeMismatch { col: String, expected: String, got: String },
}

/// The answer to a statement: a table of shown values, or a message.
#[derive(Debug)]
pub struct QueryResult {
    pub columns: Vec<String>,
    pub rows: Vec<Vec<Option<String>>>,
    pub message: Option<String>,
}

impl QueryResult {
    /// An answer that is only a message.
    pub fn message(msg: &str) -> (r: QueryResult)
        ensures
            r.columns@.len() == 0,
            r.rows@.len() == 0,
            r.message matches Some(m) && m@ == msg@,
    {
        QueryResult { columns: Vec::new(), rows: Vec::new(), message: Some(msg.to_owned()) }
    }
}

// ── Keys ─────────────────────────────────────────────────────────────────────

/// `row:<table>:`, the beginning of the keys of a table's rows.
pub open spec fn row_prefix(t: Seq<char>) -> Seq<u8> {
    encode_utf8(seq!['r', 'o', 'w', ':'] + t + seq![':'])
}

/// An id in decimal, padded with zeros to twenty digits (`{:020}`).
pub open spec fn padded_id(id: u64) -> Seq<char> {
    let d = nat_decimal(id as nat);
    if d.len() < 20 {
        Seq::new((20 - d.len()) as nat, |i: int| '0') + d
    } else {
        d
    }
}

/// `row:<table>:<id>`, the key of a row.
pub open spec fn row_key_of(t: Seq<char>, id: u64) -> Seq<u8> {
    encode_utf8(seq!['r', 'o', 'w', ':'] + t + seq![':'] + padded_id(id))
}

/// `meta:<table>:next_id`, the key of a table's row counter.
pub open spec fn meta_key_of(t: Seq<char>) -> Seq<u8> {
    encode_utf8(seq!['m', 'e', 't', 'a', ':'] + t + seq![':', 'n', 'e', 'x', 't', '_', 'i', 'd'])
}

/// The id the next row of a table gets: the stored counter, or 1 where there
/// is none or it is not a number.
pub open spec fn counter(m: Map<Seq<u8>, Seq<u8>>, t: Seq<char>) -> u64 {
    if m.contains_key(meta_key_of(t)) {
        match parse_u64(m[meta_key_of(t)]) {
            Some(n) => n,
            None => 1,
        }
    } else {
        1
    }
}

/// The schema stored for a table, where one is stored and reads.
pub open spec fn stored_schema(m: Map<Seq<u8>, Seq<u8>>, t: Seq<char>) -> Option<SchemaV> {
    if m.contains_key(catalog_key_of(t)) {
        decode_schema(m[catalog_key_of(t)])
    } else {
        None
    }
}

/// The key of a row: `row:<table>:<id>`, the id in twenty digits.
pub fn row_key(table_name: &str, id: u64) -> (r: Vec<u8>)
    ensures
        r@ == row_key_of(table_name@, id),
{
    let d = decimal_string(id as i128);
    let dc = chars_of(d.as_str());
    let mut s = String::new();
    append_str(&mut s, "row:");
    append_str(&mut s, table_name);
    append_str(&mut s, ":");
    let ghost head = s@;
    let mut k: usize = dc.len();
    while k < 20
        invariant
            dc.len() <= k,
            dc.len() < 20 ==> k <= 20,
            dc.len() >= 20 ==> k == dc.len(),
            s@ == head + Seq::new((k - dc.len()) as nat, |i: int| '0'),
        decreases 20 - k,
    {
        s.push('0');
        k = k + 1;
        assert(s@ =~= head + Seq::new((k - dc.len()) as nat, |i: int| '0'));
    }
    append_str(&mut s, d.as_str());
    proof {
        reveal_strlit("row:");
        reveal_strlit(":");
        assert(d@ == nat_decimal(id as nat));
        if dc.len() >= 20 {
            assert(Seq::new(0nat, |i: int| '0') =~= Seq::<char>::empty());
        }
        assert(s@ =~= seq!['r', 'o', 'w', ':'] + table_name@ + seq![':'] + padded_id(id));
    }
    bytes_to_vec(s.as_str().as_bytes())
}

/// The key of a table's row counter.
fn meta_key(table_name: &str) -> (r: Vec<u8>)
    ensures
        r@ == meta_key_of(table_name@),
{
    let mut s = String::new();
    append_str(&mut s, "meta:");
    append_str(&mut s, table_name);
    append_str(&mut s, ":next_id");
    proof {
        reveal_strlit("meta:");
        reveal_strlit(":next_id");
        assert(s@ =~= seq!['m', 'e', 't', 'a', ':'] + table_name@ + seq![
            ':',
            'n',
            'e',
            'x',
            't',
            '_',
            'i',
            'd',
        ]);
    }
    bytes_to_vec(s.as_str().as_bytes())
}

/// The beginning of the keys of a table's rows.
pub fn row_prefix_bytes(table_name: &str) -> (r: Vec<u8>)
    ensures
        r@ == row_prefix(table_name@),
{
    let mut s = String::new();
    append_str(&mut s, "row:");
    append_str(&mut s, table_name);
    append_str(&mut s, ":");
    proof {
        reveal_strlit("row:");
        reveal_strlit(":");
        assert(s@ =~= seq!['r', 'o', 'w', ':'] + table_name@ + seq![':']);
    }
    bytes_to_vec(s.as_str().as_bytes())
}

// ── Statement outcomes ───────────────────────────────────────────────────────

/// The index of the first element that satisfies `p`.
pub open spec fn first_index<A>(s: Seq<A>, p: spec_fn(A) -> bool) -> Option<int>
    decreases s.len(),
{
    if s.len() == 0 {
        None
    } else if p(s[0]) {
        Some(0)
    } else {
        match first_index(s.drop_first(), p) {
            Some(i) => Some(i + 1),
            None => None,
        }
    }
}

/// Past elements that do not satisfy `p`, the first that does is found in
/// what follows.
pub proof fn lemma_first_index_skip<A>(s: Seq<A>, p: spec_fn(A) -> bool, i: int)
    requires
        0 <= i <= s.len(),
        forall|j: int| 0 <= j < i ==> !p(#[trigger] s[j]),
    ensures
        first_index(s, p) == match first_index(s.skip(i), p) {
            Some(k) => Some(k + i),
            None => None,
        },
    decreases i,
{
    if i == 0 {
        assert(s.skip(0) =~= s);
        match first_index(s, p) {
            Some(k) => {},
            None => {},
        }
    } else {
        assert(!p(s[0]));
        lemma_first_index_skip(s.drop_first(), p, i - 1);
        assert(s.drop_first().skip(i - 1) =~= s.skip(i));
    }
}

/// No element before the first that satisfies `p` does, and where none is
/// first, none does.
pub proof fn lemma_no_first<A>(s: Seq<A>, p: spec_fn(A) -> bool, k: int)
    requires
        0 <= k < s.len(),
        first_index(s, p) is None,
    ensures
        !p(s[k]),
    decreases k,
{
    if k > 0 {
        assert(!p(s[0]));
        lemma_no_first(s.drop_first(), p, k - 1);
    }
}

/// An answer that is only the message `m`.
pub open spec fn is_message(q: QueryResult, m: Seq<char>) -> bool {
    &&& q.columns@.len() == 0
    &&& q.rows@.len() == 0
    &&& match q.message {
        Some(x) => x@ == m,
        None => false,
    }
}

/// The columns that column definitions declare.
pub open spec fn defs_columns(d: Seq<ColumnDefV>) -> Seq<ColumnV> {
    d.map_values(|c: ColumnDefV| ColumnV { name: c.name, col_type: c.col_type })
}

/// `Table '<t>' created.`
pub open spec fn created_message(t: Seq<char>) -> Seq<char> {
    seq!['T', 'a', 'b', 'l', 'e', ' ', '\''] + t + seq![
        '\'',
        ' ',
        'c',
        'r',
        'e',
        'a',
        't',
        'e',
        'd',
        '.',
    ]
}

/// `<n> row(s) <what>`
pub open spec fn count_message(n: nat, what: Seq<char>) -> Seq<char> {
    int_decimal(n as int) + seq![' ', 'r', 'o', 'w', '(', 's', ')', ' '] + what
}

/// `inserted.`
pub open spec fn inserted_word() -> Seq<char> {
    seq!['i', 'n', 's', 'e', 'r', 't', 'e', 'd', '.']
}

/// The type of the first column of the schema named `c`.
pub open spec fn column_type(schema: SchemaV, c: Seq<char>) -> ColType {
    match column_position(schema.columns, c) {
        Some(i) => schema.columns[i as int].col_type,
        None => ColType::Text,
    }
}

/// The entries of an inserted row, where all its values coerce.
pub open spec fn row_entries(schema: SchemaV, cols: Seq<Seq<char>>, vals: Seq<ValueV>) -> RowV {
    match build_entries(schema, cols, vals, cols.len() as int) {
        Ok(e) => e,
        Err(_) => Seq::empty(),
    }
}

/// What is stored under the key of row `id` of table `t` reads back as a
/// JSON object with the entries `e`.
pub open spec fn reads_back(m: Map<Seq<u8>, Seq<u8>>, t: Seq<char>, id: u64, e: RowV) -> bool {
    m.contains_key(row_key_of(t, id)) && json_object(m[row_key_of(t, id)]) == Some(e)
}

/// The entries of a row being built keep their keys in increasing order, and
/// every value is plain.
pub proof fn lemma_build_sorted(schema: SchemaV, cols: Seq<Seq<char>>, vals: Seq<ValueV>, n: int)
    ensures
        build_entries(schema, cols, vals, n) matches Ok(e) ==> keys_sorted(e) && entries_plain(e),
    decreases n,
{
    reveal(build_entries);
    if n > 0 {
        lemma_build_sorted(schema, cols, vals, n - 1);
        if let Ok(acc) = build_entries(schema, cols, vals, n - 1) {
            if let Some(j) = coerce(vals[n - 1], column_type(schema, cols[n - 1])) {
                rows::lemma_insert_entry_sorted(acc, cols[n - 1], j);
                rows::lemma_insert_entry_plain(acc, cols[n - 1], j);
            }
        }
    } else {
        assert(keys_sorted(Seq::<(Seq<char>, JsonV)>::empty()));
    }
}


/// The first row whose number of values is not `n`.
pub open spec fn first_bad_count(n: nat, rows: Seq<Seq<ValueV>>) -> Option<int> {
    first_index(rows, |r: Seq<ValueV>| r.len() != n)
}

/// The first of the named columns that the schema lacks.
pub open spec fn first_missing(schema: SchemaV, cols: Seq<Seq<char>>) -> Option<int> {
    first_index(cols, |c: Seq<char>| column_position(schema.columns, c) is None)
}

/// The entries of an inserted row after its first `n` values: each value
/// coerced to its column's type and set under the column's name, in order;
/// `Err(k)` where the `k`-th value does not coerce.
#[verifier::opaque]
pub open spec fn build_entries(
    schema: SchemaV,
    cols: Seq<Seq<char>>,
    vals: Seq<ValueV>,
    n: int,
) -> Result<RowV, int>
    decreases n,
{
    if n <= 0 {
        Ok(Seq::empty())
    } else {
        match build_entries(schema, cols, vals, n - 1) {
            Err(k) => Err(k),
            Ok(acc) => match coerce(vals[n - 1], column_type(schema, cols[n - 1])) {
                Some(j) => Ok(insert_entry(acc, cols[n - 1], j)),
                None => Err(n - 1),
            },
        }
    }
}

/// The store after the rows are inserted one by one: each row's entries are
/// written under the key of the next id, and the counter advances. Where a
/// value does not coerce, the store as it was then, and the row and value
/// that failed.
#[verifier::opaque]
pub open spec fn insert_rows(
    m: Map<Seq<u8>, Seq<u8>>,
    t: Seq<char>,
    schema: SchemaV,
    cols: Seq<Seq<char>>,
    rows: Seq<Seq<ValueV>>,
) -> (Map<Seq<u8>, Seq<u8>>, Option<(int, int)>)
    decreases rows.len(),
{
    if rows.len() == 0 {
        (m, None)
    } else {
        let (m1, e) = insert_rows(m, t, schema, cols, rows.drop_last());
        match e {
            Some(f) => (m1, Some(f)),
            None => match build_entries(schema, cols, rows.last(), cols.len() as int) {
                Err(k) => (m1, Some(((rows.len() - 1) as int, k))),
                Ok(entries) => {
                    let id = counter(m1, t);
                    let m2 = m1.insert(meta_key_of(t), encode_utf8(nat_decimal((id + 1) as nat)));
                    (m2.insert(row_key_of(t, id), json_object_bytes(entries)), None)
                },
            },
        }
    }
}

/// The first byte of the UTF-8 text that begins with `r`, `m` or `c` is
/// that letter's.
pub proof fn lemma_first_byte(s: Seq<char>)
    requires
        s.len() > 0,
        s[0] == 'r' || s[0] == 'm' || s[0] == 'c',
    ensures
        encode_utf8(s).len() > 0,
        s[0] == 'r' ==> encode_utf8(s)[0] == 0x72u8,
        s[0] == 'm' ==> encode_utf8(s)[0] == 0x6du8,
        s[0] == 'c' ==> encode_utf8(s)[0] == 0x63u8,
{
    let c = s[0] as u32;
    assert(encode_utf8(s) == vstd::utf8::encode_scalar(c) + encode_utf8(s.drop_first()));
    if s[0] == 'r' {
        assert(c == 0x72);
        assert((0x72u32 & 0x7F) as u8 == 0x72u8) by (bit_vector);
    } else if s[0] == 'm' {
        assert(c == 0x6d);
        assert((0x6du32 & 0x7F) as u8 == 0x6du8) by (bit_vector);
    } else {
        assert(c == 0x63);
        assert((0x63u32 & 0x7F) as u8 == 0x63u8) by (bit_vector);
    }
}

/// A row's key is never the key of a counter.
pub proof fn lemma_row_key_not_meta(t: Seq<char>, id: u64)
    ensures
        row_key_of(t, id) != meta_key_of(t),
{
    let a = seq!['r', 'o', 'w', ':'] + t + seq![':'] + padded_id(id);
    let b = seq!['m', 'e', 't', 'a', ':'] + t + seq![':', 'n', 'e', 'x', 't', '_', 'i', 'd'];
    assert(a[0] == 'r');
    assert(b[0] == 'm');
    lemma_first_byte(a);
    lemma_first_byte(b);
}

/// Once a value fails to coerce, the row fails there whatever follows.
proof fn lemma_build_error(schema: SchemaV, cols: Seq<Seq<char>>, vals: Seq<ValueV>, n: int, m: int)
    requires
        0 <= n <= m,
        build_entries(schema, cols, vals, n) is Err,
    ensures
        build_entries(schema, cols, vals, m) == build_entries(schema, cols, vals, n),
    decreases m - n,
{
    reveal(build_entries);
    if m > n {
        lemma_build_error(schema, cols, vals, n, m - 1);
    }
}

/// Once a row fails, inserting more rows changes nothing.
proof fn lemma_insert_error(
    m: Map<Seq<u8>, Seq<u8>>,
    t: Seq<char>,
    schema: SchemaV,
    cols: Seq<Seq<char>>,
    rows: Seq<Seq<ValueV>>,
    i: int,
    j: int,
)
    requires
        0 <= i <= j <= rows.len(),
        insert_rows(m, t, schema, cols, rows.take(i)).1 is Some,
    ensures
        insert_rows(m, t, schema, cols, rows.take(j)) == insert_rows(m, t, schema, cols, rows.take(i)),
    decreases j - i,
{
    reveal(insert_rows);
    if j > i {
        lemma_insert_error(m, t, schema, cols, rows, i, j - 1);
        assert(rows.take(j).drop_last() =~= rows.take(j - 1));
    }
}

/// What INSERT leaves and answers: the rows are inserted as `insert_rows`
/// says, after the table's schema is read and the rows' lengths and the
/// named columns are checked.
#[verifier::opaque]
pub open spec fn insert_outcome(
    old: Map<Seq<u8>, Seq<u8>>,
    fin: Map<Seq<u8>, Seq<u8>>,
    t: Seq<char>,
    cols: Seq<Seq<char>>,
    rows: Seq<Seq<ValueV>>,
    r: Result<QueryResult, ExecError>,
) -> bool {
    match r {
        Ok(q) => match stored_schema(old, t) {
            Some(sch) => first_bad_count(cols.len(), rows) is None && first_missing(sch, cols) is None
                && insert_rows(old, t, sch, cols, rows) == (fin, None::<(int, int)>) && is_message(
                q,
                count_message(rows.len(), inserted_word()),
            ),
            None => false,
        },
        Err(ExecError::TableNotFound(n)) => n@ == t && fin == old,
        Err(ExecError::ColumnCountMismatch { expected, got }) => fin == old && stored_schema(
            old,
            t,
        ) is Some && match first_bad_count(cols.len(), rows) {
            Some(i) => expected == cols.len() && got == rows[i].len(),
            None => false,
        },
        Err(ExecError::ColumnNotFound(c, tt)) => fin == old && tt@ == t && match stored_schema(
            old,
            t,
        ) {
            Some(sch) => first_bad_count(cols.len(), rows) is None && match first_missing(
                sch,
                cols,
            ) {
                Some(i) => c@ == cols[i],
                None => false,
            },
            None => false,
        },
        Err(ExecError::TypeMismatch { col, expected, got }) => match stored_schema(old, t) {
            Some(sch) => first_bad_count(cols.len(), rows) is None && first_missing(sch, cols) is None
                && match insert_rows(old, t, sch, cols, rows) {
                (m, Some((i, k))) => m == fin && col@ == cols[k] && expected@ == integer_text()
                    && match rows[i][k] {
                    ValueV::Text(s) => got@ == seq!['\''] + s + seq!['\''],
                    _ => false,
                },
                _ => false,
            },
            None => false,
        },
        Err(ExecError::Storage(_)) => true,
        Err(ExecError::Json(_)) => false,
        Err(ExecError::Catalog(_)) => false,
    }
}

/// The first row whose number of values is not `n`.
fn find_bad_count(rows: &Vec<Vec<Value>>, n: usize) -> (r: Option<usize>)
    ensures
        match r {
            Some(i) => first_bad_count(n as nat, rows_view(rows@)) == Some(i as int) && i
                < rows.len(),
            None => first_bad_count(n as nat, rows_view(rows@)) is None,
        },
{
    let ghost rv = rows_view(rows@);
    let ghost p = |r: Seq<ValueV>| r.len() != n;
    let mut i: usize = 0;
    while i < rows.len()
        invariant
            i <= rows.len(),
            rv == rows_view(rows@),
            p == |r: Seq<ValueV>| r.len() != n,
            forall|j: int| 0 <= j < i ==> !p(#[trigger] rv[j]),
        decreases rows.len() - i,
    {
        assert(rv[i as int].len() == rows[i as int].len());
        if rows[i].len() != n {
            proof {
                lemma_first_index_skip(rv, p, i as int);
                assert(rv.skip(i as int)[0] == rv[i as int]);
            }
            return Some(i);
        }
        i = i + 1;
    }
    proof {
        lemma_first_index_skip(rv, p, rv.len() as int);
        assert(rv.skip(rv.len() as int) =~= Seq::<Seq<ValueV>>::empty());
    }
    None
}

/// The first of the named columns that the schema lacks.
fn find_missing(schema: &Schema, cols: &Vec<String>) -> (r: Option<usize>)
    ensures
        match r {
            Some(i) => first_missing(schema@, strings_view(cols@)) == Some(i as int) && i
                < cols.len(),
            None => first_missing(schema@, strings_view(cols@)) is None,
        },
{
    let ghost cv = strings_view(cols@);
    let ghost sch = schema@;
    let ghost p = |c: Seq<char>| column_position(sch.columns, c) is None;
    let mut j: usize = 0;
    while j < cols.len()
        invariant
            j <= cols.len(),
            cv == strings_view(cols@),
            sch == schema@,
            p == |c: Seq<char>| column_position(sch.columns, c) is None,
            forall|k: int| 0 <= k < j ==> !p(#[trigger] cv[k]),
        decreases cols.len() - j,
    {
        assert(cv[j as int] == cols[j as int]@);
        if schema.column_index(cols[j].as_str()).is_none() {
            proof {
                lemma_first_index_skip(cv, p, j as int);
                assert(cv.skip(j as int)[0] == cv[j as int]);
            }
            return Some(j);
        }
        j = j + 1;
    }
    proof {
        lemma_first_index_skip(cv, p, cv.len() as int);
        assert(cv.skip(cv.len() as int) =~= Seq::<Seq<char>>::empty());
    }
    None
}

/// The stored entries of one inserted row.
fn build_row(schema: &Schema, cols: &Vec<String>, vals: &Vec<Value>) -> (r: Result<
    Vec<(String, Json)>,
    ExecError,
>)
    requires
        vals.len() == cols.len(),
        first_missing(schema@, strings_view(cols@)) is None,
    ensures
        match build_entries(
            schema@,
            strings_view(cols@),
            vals@.map_values(|v: Value| v@),
            cols.len() as int,
        ) {
            Ok(e) => r matches Ok(x) && entries_view(x@) == e,
            Err(k) => match (r, vals@.map_values(|v: Value| v@)[k]) {
                (Err(ExecError::TypeMismatch { col, expected, got }), ValueV::Text(s)) => col@
                    == strings_view(cols@)[k] && expected@ == integer_text() && got@ == seq![
                    '\'',
                ] + s + seq!['\''],
                _ => false,
            },
        },
{
    let ghost sch = schema@;
    let ghost cv = strings_view(cols@);
    let ghost vv = vals@.map_values(|v: Value| v@);
    proof {
        assert forall|k: int| 0 <= k < cv.len() implies column_position(sch.columns, #[trigger] cv[k]) is Some by {
            lemma_no_first(cv, |c: Seq<char>| column_position(sch.columns, c) is None, k);
        }
    }
    let mut map: Vec<(String, Json)> = Vec::new();
    let mut k: usize = 0;
    assert(entries_view(map@) =~= Seq::<(Seq<char>, JsonV)>::empty());
    proof {
        reveal(build_entries);
    }
    while k < cols.len()
        invariant
            k <= cols.len(),
            vals.len() == cols.len(),
            cv == strings_view(cols@),
            sch == schema@,
            vv == vals@.map_values(|v: Value| v@),
            forall|k2: int| 0 <= k2 < cv.len() ==> column_position(sch.columns, #[trigger] cv[k2]) is Some,
            build_entries(sch, cv, vv, k as int) == Ok::<RowV, int>(entries_view(map@)),
        decreases cols.len() - k,
    {
        let col_name = &cols[k];
        assert(cv[k as int] == col_name@);
        let idx = match schema.column_index(col_name.as_str()) {
            Some(x) => x,
            None => {
                assert(column_position(sch.columns, cv[k as int]) is Some);
                return Err(ExecError::ColumnNotFound(col_name.clone(), col_name.clone()));
            },
        };
        let ct = schema.columns[idx].col_type;
        assert(ct == column_type(sch, cv[k as int]));
        assert(vv[k as int] == vals[k as int]@);
        let jv = match coerce_value(&vals[k], &ct, col_name.as_str()) {
            Ok(v) => v,
            Err(e) => {
                proof {
                    reveal(build_entries);
                    assert(build_entries(sch, cv, vv, k + 1) == Err::<RowV, int>(k as int));
                    lemma_build_error(sch, cv, vv, k + 1, cv.len() as int);
                }
                return Err(e);
            },
        };
        let ghost before = entries_view(map@);
        row_insert(&mut map, col_name.clone(), jv);
        proof {
            reveal(build_entries);
        }
        k = k + 1;
    }
    Ok(map)
}

/// Whether a row passes an optional WHERE condition.
pub open spec fn passes(w: Option<ExprV>, row: RowV) -> bool {
    match w {
        Some(e) => eval_spec(e, row),
        None => true,
    }
}

/// Where a run over the stored rows stopped early.
pub enum Halt {
    /// A stored row is not a JSON object.
    Unreadable,
    /// The `k`-th assignment's value does not coerce.
    Uncoercible(int),
}

/// The row after its first `n` assignments: each value coerced to its
/// column's type and set; `Err(k)` where the `k`-th does not coerce.
#[verifier::opaque]
pub open spec fn assign_entries(schema: SchemaV, assigns: Seq<AssignmentV>, row: RowV, n: int) -> Result<
    RowV,
    int,
>
    decreases n,
{
    if n <= 0 {
        Ok(row)
    } else {
        match assign_entries(schema, assigns, row, n - 1) {
            Err(k) => Err(k),
            Ok(acc) => match coerce(assigns[n - 1].value, column_type(schema, assigns[n - 1].column)) {
                Some(j) => Ok(insert_entry(acc, assigns[n - 1].column, j)),
                None => Err(n - 1),
            },
        }
    }
}

/// The entries a row of `m` under key `k` takes from UPDATE, where they can
/// be written and read back exactly: the row reads, passes the condition,
/// has its keys in increasing order and only plain values, and every
/// assignment coerces.
pub open spec fn updated_entries(
    m: Map<Seq<u8>, Seq<u8>>,
    schema: SchemaV,
    assigns: Seq<AssignmentV>,
    w: Option<ExprV>,
    k: Seq<u8>,
) -> Option<RowV> {
    match json_object(m[k]) {
        Some(obj) => if passes(w, obj) && keys_sorted(obj) && entries_plain(obj) {
            match assign_entries(schema, assigns, obj, assigns.len() as int) {
                Ok(e) => Some(e),
                Err(_) => None,
            }
        } else {
            None
        },
        None => None,
    }
}

/// After UPDATE, every row of `t` whose new entries can be written and read
/// back exactly (see `updated_entries`) reads back as those entries.
pub open spec fn update_reads_back(
    old: Map<Seq<u8>, Seq<u8>>,
    fin: Map<Seq<u8>, Seq<u8>>,
    t: Seq<char>,
    assigns: Seq<AssignmentV>,
    w: Option<ExprV>,
) -> bool {
    forall|k: Seq<u8>|
        row_prefix(t).is_prefix_of(k) && old.contains_key(k) && (#[trigger] updated_entries(
            old,
            stored_schema(old, t)->Some_0,
            assigns,
            w,
            k,
        )) is Some ==> fin.contains_key(k) && json_object(fin[k]) == updated_entries(
            old,
            stored_schema(old, t)->Some_0,
            assigns,
            w,
            k,
        )
}

/// Making assignments to a row whose keys increase and whose values are plain
/// keeps both.
pub proof fn lemma_assign_sorted_plain(schema: SchemaV, assigns: Seq<AssignmentV>, row: RowV, n: int)
    requires
        keys_sorted(row),
        entries_plain(row),
    ensures
        assign_entries(schema, assigns, row, n) matches Ok(e) ==> keys_sorted(e) && entries_plain(e),
    decreases n,
{
    reveal(assign_entries);
    if n > 0 {
        lemma_assign_sorted_plain(schema, assigns, row, n - 1);
        if let Ok(acc) = assign_entries(schema, assigns, row, n - 1) {
            if let Some(j) = coerce(assigns[n - 1].value, column_type(schema, assigns[n - 1].column)) {
                rows::lemma_insert_entry_sorted(acc, assigns[n - 1].column, j);
                rows::lemma_insert_entry_plain(acc, assigns[n - 1].column, j);
            }
        }
    }
}

/// The store after UPDATE runs over the listed rows: each row that reads and
/// passes the condition gets the assignments and is written back; the count
/// of rows written; where it stopped early, why.
#[verifier::opaque]
pub open spec fn update_rows(
    m: Map<Seq<u8>, Seq<u8>>,
    l: Seq<(Seq<u8>, Seq<u8>)>,
    schema: SchemaV,
    assigns: Seq<AssignmentV>,
    w: Option<ExprV>,
) -> (Map<Seq<u8>, Seq<u8>>, nat, Option<Halt>)
    decreases l.len(),
{
    if l.len() == 0 {
        (m, 0, None)
    } else {
        let (m1, n, h) = update_rows(m, l.drop_last(), schema, assigns, w);
        if h is Some {
            (m1, n, h)
        } else {
            let (key, bytes) = l.last();
            match json_object(bytes) {
                None => (m1, n, Some(Halt::Unreadable)),
                Some(obj) => if !passes(w, obj) {
                    (m1, n, None)
                } else {
                    match assign_entries(schema, assigns, obj, assigns.len() as int) {
                        Err(k) => (m1, n, Some(Halt::Uncoercible(k))),
                        Ok(e) => (m1.insert(key, json_object_bytes(e)), n + 1, None),
                    }
                },
            }
        }
    }
}

/// The store after DELETE runs over the listed rows: each row that reads and
/// passes the condition is removed; the count removed; whether a row did not
/// read.
#[verifier::opaque]
pub open spec fn delete_rows(
    m: Map<Seq<u8>, Seq<u8>>,
    l: Seq<(Seq<u8>, Seq<u8>)>,
    w: Option<ExprV>,
) -> (Map<Seq<u8>, Seq<u8>>, nat, bool)
    decreases l.len(),
{
    if l.len() == 0 {
        (m, 0, false)
    } else {
        let (m1, n, h) = delete_rows(m, l.drop_last(), w);
        if h {
            (m1, n, h)
        } else {
            match json_object(l.last().1) {
                None => (m1, n, true),
                Some(obj) => if passes(w, obj) {
                    (m1.remove(l.last().0), n + 1, false)
                } else {
                    (m1, n, false)
                },
            }
        }
    }
}

/// The first assignment to a column that the schema lacks.
pub open spec fn first_unknown(schema: SchemaV, assigns: Seq<AssignmentV>) -> Option<int> {
    first_index(assigns, |a: AssignmentV| column_position(schema.columns, a.column) is None)
}

/// What UPDATE leaves and answers. A listed row that does not read as a JSON
/// object stops it with a JSON error, the rows before it updated.
#[verifier::opaque]
pub open spec fn update_outcome(
    old: Map<Seq<u8>, Seq<u8>>,
    fin: Map<Seq<u8>, Seq<u8>>,
    t: Seq<char>,
    assigns: Seq<AssignmentV>,
    w: Option<ExprV>,
    r: Result<QueryResult, ExecError>,
) -> bool {
    match r {
        Ok(q) => match stored_schema(old, t) {
            Some(sch) => first_unknown(sch, assigns) is None && {
                let (m, n, h) = update_rows(old, scan(old, row_prefix(t)), sch, assigns, w);
                &&& h is None
                &&& m == fin
                &&& is_message(q, count_message(n, updated_word()))
            },
            None => false,
        },
        Err(ExecError::TableNotFound(n)) => n@ == t && fin == old,
        Err(ExecError::ColumnNotFound(c, tt)) => fin == old && tt@ == t && match stored_schema(
            old,
            t,
        ) {
            Some(sch) => match first_unknown(sch, assigns) {
                Some(i) => c@ == assigns[i].column,
                None => false,
            },
            None => false,
        },
        Err(ExecError::TypeMismatch { col, expected, got }) => match stored_schema(old, t) {
            Some(sch) => first_unknown(sch, assigns) is None && match update_rows(
                old,
                scan(old, row_prefix(t)),
                sch,
                assigns,
                w,
            ) {
                (m, _, Some(Halt::Uncoercible(k))) => m == fin && col@ == assigns[k].column
                    && expected@ == integer_text() && match assigns[k].value {
                    ValueV::Text(s) => got@ == seq!['\''] + s + seq!['\''],
                    _ => false,
                },
                _ => false,
            },
            None => false,
        },
        Err(ExecError::Storage(_)) => true,
        Err(ExecError::Json(_)) => match stored_schema(old, t) {
            Some(sch) => first_unknown(sch, assigns) is None && match update_rows(
                old,
                scan(old, row_prefix(t)),
                sch,
                assigns,
                w,
            ) {
                (m, _, Some(Halt::Unreadable)) => m == fin,
                _ => false,
            },
            None => false,
        },
        Err(_) => false,
    }
}

/// What DELETE leaves and answers. A listed row that does not read as a JSON
/// object stops it with a JSON error, the rows before it deleted.
#[verifier::opaque]
pub open spec fn delete_outcome(
    old: Map<Seq<u8>, Seq<u8>>,
    fin: Map<Seq<u8>, Seq<u8>>,
    t: Seq<char>,
    w: Option<ExprV>,
    r: Result<QueryResult, ExecError>,
) -> bool {
    match r {
        Ok(q) => stored_schema(old, t) is Some && {
            let (m, n, h) = delete_rows(old, scan(old, row_prefix(t)), w);
            &&& !h
            &&& m == fin
            &&& is_message(q, count_message(n, deleted_word()))
        },
        Err(ExecError::TableNotFound(n)) => n@ == t && fin == old,
        Err(ExecError::Storage(_)) => true,
        Err(ExecError::Json(_)) => stored_schema(old, t) is Some && {
            let (m, _, h) = delete_rows(old, scan(old, row_prefix(t)), w);
            &&& h
            &&& m == fin
        },
        Err(_) => false,
    }
}

/// `updated.`
pub open spec fn updated_word() -> Seq<char> {
    seq!['u', 'p', 'd', 'a', 't', 'e', 'd', '.']
}

/// `deleted.`
pub open spec fn deleted_word() -> Seq<char> {
    seq!['d', 'e', 'l', 'e', 't', 'e', 'd', '.']
}

/// The first assignment to a column that the schema lacks.
fn find_unknown(schema: &Schema, assigns: &Vec<Assignment>) -> (r: Option<usize>)
    ensures
        match r {
            Some(i) => first_unknown(schema@, assigns@.map_values(|a: Assignment| a@)) == Some(
                i as int,
            ) && i < assigns.len(),
            None => first_unknown(schema@, assigns@.map_values(|a: Assignment| a@)) is None,
        },
{
    let ghost av = assigns@.map_values(|a: Assignment| a@);
    let ghost sch = schema@;
    let ghost p = |a: AssignmentV| column_position(sch.columns, a.column) is None;
    let mut j: usize = 0;
    while j < assigns.len()
        invariant
            j <= assigns.len(),
            av == assigns@.map_values(|a: Assignment| a@),
            sch == schema@,
            p == |a: AssignmentV| column_position(sch.columns, a.column) is None,
            forall|k: int| 0 <= k < j ==> !p(#[trigger] av[k]),
        decreases assigns.len() - j,
    {
        assert(av[j as int] == assigns[j as int]@);
        if schema.column_index(assigns[j].column.as_str()).is_none() {
            proof {
                lemma_first_index_skip(av, p, j as int);
                assert(av.skip(j as int)[0] == av[j as int]);
            }
            return Some(j);
        }
        j = j + 1;
    }
    proof {
        lemma_first_index_skip(av, p, av.len() as int);
        assert(av.skip(av.len() as int) =~= Seq::<AssignmentV>::empty());
    }
    None
}

/// A row with the assignments applied.
fn apply_assignments(
    schema: &Schema,
    assigns: &Vec<Assignment>,
    row: Vec<(String, Json)>,
) -> (r: Result<Vec<(String, Json)>, ExecError>)
    requires
        first_unknown(schema@, assigns@.map_values(|a: Assignment| a@)) is None,
    ensures
        match assign_entries(
            schema@,
            assigns@.map_values(|a: Assignment| a@),
            entries_view(row@),
            assigns.len() as int,
        ) {
            Ok(e) => r matches Ok(x) && entries_view(x@) == e,
            Err(k) => match (r, assigns@[k]@.value) {
                (Err(ExecError::TypeMismatch { col, expected, got }), ValueV::Text(s)) => col@
                    == assigns@[k]@.column && expected@ == integer_text() && got@ == seq!['\'']
                    + s + seq!['\''],
                _ => false,
            },
        },
{
    let ghost sch = schema@;
    let ghost av = assigns@.map_values(|a: Assignment| a@);
    let ghost start = entries_view(row@);
    proof {
        assert forall|k: int| 0 <= k < av.len() implies column_position(
            sch.columns,
            (#[trigger] av[k]).column,
        ) is Some by {
            lemma_no_first(av, |a: AssignmentV| column_position(sch.columns, a.column) is None, k);
        }
        reveal(assign_entries);
    }
    let mut obj = row;
    let mut k: usize = 0;
    while k < assigns.len()
        invariant
            k <= assigns.len(),
            sch == schema@,
            av == assigns@.map_values(|a: Assignment| a@),
            forall|k2: int| 0 <= k2 < av.len() ==> column_position(sch.columns, (#[trigger] av[k2]).column) is Some,
            assign_entries(sch, av, start, k as int) == Ok::<RowV, int>(entries_view(obj@)),
            start == entries_view(row@),
        decreases assigns.len() - k,
    {
        let a = &assigns[k];
        assert(av[k as int] == a@);
        let idx = match schema.column_index(a.column.as_str()) {
            Some(x) => x,
            None => {
                assert(column_position(sch.columns, av[k as int].column) is Some);
                return Err(ExecError::ColumnNotFound(a.column.clone(), a.column.clone()));
            },
        };
        let ct = schema.columns[idx].col_type;
        assert(ct == column_type(sch, av[k as int].column));
        let jv = match coerce_value(&a.value, &ct, a.column.as_str()) {
            Ok(v) => v,
            Err(e) => {
                proof {
                    reveal(assign_entries);
                    assert(assign_entries(sch, av, start, k + 1) == Err::<RowV, int>(k as int));
                    lemma_assign_error(sch, av, start, k + 1, av.len() as int);
                }
                return Err(e);
            },
        };
        row_insert(&mut obj, a.column.clone(), jv);
        proof {
            reveal(assign_entries);
        }
        k = k + 1;
    }
    Ok(obj)
}

/// The assignment that fails is one of those applied.
proof fn lemma_assign_err_range(schema: SchemaV, assigns: Seq<AssignmentV>, row: RowV, n: int)
    ensures
        assign_entries(schema, assigns, row, n) matches Err(k) ==> 0 <= k < n,
    decreases n,
{
    reveal(assign_entries);
    if n > 0 {
        lemma_assign_err_range(schema, assigns, row, n - 1);
    }
}

/// Once an assignment fails to coerce, the row fails there whatever follows.
proof fn lemma_assign_error(schema: SchemaV, assigns: Seq<AssignmentV>, row: RowV, n: int, m: int)
    requires
        0 <= n <= m,
        assign_entries(schema, assigns, row, n) is Err,
    ensures
        assign_entries(schema, assigns, row, m) == assign_entries(schema, assigns, row, n),
    decreases m - n,
{
    reveal(assign_entries);
    if m > n {
        lemma_assign_error(schema, assigns, row, n, m - 1);
    }
}

/// Whether a row passes an optional WHERE condition.
fn row_passes(w: &Option<Expr>, row: &Vec<(String, Json)>) -> (r: bool)
    ensures
        r == passes(opt_expr_view(*w), entries_view(row@)),
{
    match w {
        Some(e) => eval_expr(e, row),
        None => true,
    }
}

/// Once UPDATE stops early, more rows change nothing.
proof fn lemma_update_halt(
    m: Map<Seq<u8>, Seq<u8>>,
    l: Seq<(Seq<u8>, Seq<u8>)>,
    schema: SchemaV,
    assigns: Seq<AssignmentV>,
    w: Option<ExprV>,
    i: int,
    j: int,
)
    requires
        0 <= i <= j <= l.len(),
        update_rows(m, l.take(i), schema, assigns, w).2 is Some,
    ensures
        update_rows(m, l.take(j), schema, assigns, w) == update_rows(m, l.take(i), schema, assigns, w),
    decreases j - i,
{
    reveal(update_rows);
    if j > i {
        lemma_update_halt(m, l, schema, assigns, w, i, j - 1);
        assert(l.take(j).drop_last() =~= l.take(j - 1));
    }
}

/// Once DELETE stops early, more rows change nothing.
proof fn lemma_delete_halt(
    m: Map<Seq<u8>, Seq<u8>>,
    l: Seq<(Seq<u8>, Seq<u8>)>,
    w: Option<ExprV>,
    i: int,
    j: int,
)
    requires
        0 <= i <= j <= l.len(),
        delete_rows(m, l.take(i), w).2,
    ensures
        delete_rows(m, l.take(j), w) == delete_rows(m, l.take(i), w),
    decreases j - i,
{
    reveal(delete_rows);
    if j > i {
        lemma_delete_halt(m, l, w, i, j - 1);
        assert(l.take(j).drop_last() =~= l.take(j - 1));
    }
}

/// Every row that a SELECT reads is a JSON object, where the table's schema
/// reads (else the SELECT reads no row): those of its table and of each
/// joined table.
pub open spec fn select_readable(m: Map<Seq<u8>, Seq<u8>>, s: SelectStmtV) -> bool {
    stored_schema(m, s.table_name) is Some ==> {
        &&& prefix_readable(m, row_prefix(s.table_name))
        &&& forall|k: int|
            0 <= k < s.joins.len() ==> prefix_readable(m, row_prefix(#[trigger] s.joins[k].table_name))
    }
}


/// What CREATE TABLE leaves and answers: the schema is stored unless one is
/// stored under the name already.
pub open spec fn create_outcome(
    old: Map<Seq<u8>, Seq<u8>>,
    fin: Map<Seq<u8>, Seq<u8>>,
    t: Seq<char>,
    defs: Seq<ColumnDefV>,
    r: Result<QueryResult, ExecError>,
) -> bool {
    match r {
        Ok(q) => !old.contains_key(catalog_key_of(t)) && fin == old.insert(
            catalog_key_of(t),
            encode_utf8(schema_text(SchemaV { table_name: t, columns: defs_columns(defs) })),
        ) && is_message(q, created_message(t)),
        Err(ExecError::Catalog(CatalogError::TableAlreadyExists(n))) => n@ == t && old.contains_key(
            catalog_key_of(t),
        ) && fin == old,
        Err(ExecError::Catalog(CatalogError::Storage(_))) => true,
        Err(_) => false,
    }
}

/// What SELECT answers; it leaves the store as it was.
pub open spec fn select_outcome(
    old: Map<Seq<u8>, Seq<u8>>,
    fin: Map<Seq<u8>, Seq<u8>>,
    s: SelectStmtV,
    r: Result<QueryResult, ExecError>,
) -> bool {
    &&& fin == old
    &&& match r {
        Ok(q) => select_spec(old, s) == Ok::<_, Seq<char>>(
            (strings_view(q.columns@), result_rows_view(q.rows@)),
        ) && q.message is None,
        Err(ExecError::TableNotFound(n)) => n@ == s.table_name || exists|k: int|
            0 <= k < s.joins.len() && (#[trigger] s.joins[k]).table_name == n@,
        Err(e) => e is Storage,
    }
    &&& select_spec(old, s) is Err ==> r is Err
}

/// What a statement needs of the store: an INSERT, room in the table's
/// counter for its rows; a SELECT, that the rows it reads are JSON objects.
pub open spec fn statement_ready(m: Map<Seq<u8>, Seq<u8>>, s: StmtV) -> bool {
    match s {
        StmtV::Insert { table_name, rows, .. } => counter(m, table_name) + rows.len() <= u64::MAX,
        StmtV::Select(sel) => select_readable(m, sel),
        _ => true,
    }
}

/// What a statement leaves and answers.
pub open spec fn statement_outcome(
    old: Map<Seq<u8>, Seq<u8>>,
    fin: Map<Seq<u8>, Seq<u8>>,
    s: StmtV,
    r: Result<QueryResult, ExecError>,
) -> bool {
    match s {
        StmtV::CreateTable { table_name, columns } => create_outcome(old, fin, table_name, columns, r),
        StmtV::Insert { table_name, columns, rows } => insert_outcome(
            old,
            fin,
            table_name,
            columns,
            rows,
            r,
        ) && (stored_schema(old, table_name) is None ==> r matches Err(
            ExecError::TableNotFound(_),
        ) || r matches Err(ExecError::Storage(_))) && (r is Ok ==> forall|j: int|
            0 <= j < rows.len() ==> #[trigger] reads_back(
                fin,
                table_name,
                (counter(old, table_name) + j) as u64,
                row_entries(stored_schema(old, table_name).unwrap(), columns, rows[j]),
            )),
        StmtV::Select(sel) => select_outcome(old, fin, sel, r),
        StmtV::Update { table_name, assignments, where_clause } => update_outcome(
            old,
            fin,
            table_name,
            assignments,
            where_clause,
            r,
        ) && (stored_schema(old, table_name) is None ==> r matches Err(
            ExecError::TableNotFound(_),
        ) || r matches Err(ExecError::Storage(_))) && (r is Ok ==> update_reads_back(
            old,
            fin,
            table_name,
            assignments,
            where_clause,
        )),
        StmtV::Delete { table_name, where_clause } => delete_outcome(
            old,
            fin,
            table_name,
            where_clause,
            r,
        ) && (stored_schema(old, table_name) is None ==> r matches Err(
            ExecError::TableNotFound(_),
        ) || r matches Err(ExecError::Storage(_))),
    }
}


/// Whether every row under a table's prefix reads as a JSON object.
fn rows_readable(storage: &Storage, table_name: &str) -> (r: Result<bool, ExecError>)
    ensures
        match r {
            Ok(b) => b == prefix_readable(storage@, row_prefix(table_name@)),
            Err(e) => e is Storage,
        },
{
    let prefix = row_prefix_bytes(table_name);
    let raw = match storage.scan_prefix(prefix.as_slice()) {
        Ok(v) => v,
        Err(e) => return Err(ExecError::Storage(e)),
    };
    let ghost l = pairs_view(raw@);
    let ghost p = row_prefix(table_name@);
    assert(crate::storage::prefix_listing(storage@, p, l));
    let mut i: usize = 0;
    while i < raw.len()
        invariant
            i <= raw.len(),
            l == pairs_view(raw@),
            p == row_prefix(table_name@),
            crate::storage::prefix_listing(storage@, p, l),
            forall|k: int| 0 <= k < i ==> (#[trigger] json_object(l[k].1)) is Some,
        decreases raw.len() - i,
    {
        assert(l[i as int].1 == raw[i as int].1@);
        if parse_object(raw[i].1.as_slice()).is_err() {
            assert(json_object(l[i as int].1) is None);
            assert(storage@.contains_key(l[i as int].0) && storage@[l[i as int].0] == l[i as int].1);
            assert(p.is_prefix_of(l[i as int].0));
            return Ok(false);
        }
        i = i + 1;
    }
    proof {
        assert forall|k: Seq<u8>| storage@.contains_key(k) && p.is_prefix_of(k) implies (
        #[trigger] json_object(storage@[k])) is Some by {
            let j = choose|j: int| 0 <= j < l.len() && #[trigger] l[j].0 == k;
            assert(json_object(l[j].1) is Some);
        }
    }
    Ok(true)
}

/// The stored row counter of a table.
fn read_counter(storage: &Storage, table_name: &str) -> (r: Result<u64, ExecError>)
    ensures
        match r {
            Ok(c) => c == counter(storage@, table_name@),
            Err(e) => e is Storage,
        },
{
    let key = meta_key(table_name);
    let found = match storage.get(key.as_slice()) {
        Ok(f) => f,
        Err(e) => return Err(ExecError::Storage(e)),
    };
    match found {
        Some(bytes) => match parse_u64_bytes(bytes.as_slice()) {
            Some(n) => Ok(n),
            None => Ok(1),
        },
        None => Ok(1),
    }
}

/// The message of a count of rows.
fn count_text(n: usize, what: &str) -> (r: String)
    ensures
        r@ == count_message(n as nat, what@),
{
    let mut s = decimal_string(n as i128);
    append_str(&mut s, " row(s) ");
    append_str(&mut s, what);
    proof {
        reveal_strlit(" row(s) ");
        assert(s@ =~= count_message(n as nat, what@));
    }
    s
}

// ── The engine ───────────────────────────────────────────────────────────────

/// Runs statements against one store.
pub struct Engine {
    storage: Storage,
}

impl View for Engine {
    type V = Map<Seq<u8>, Seq<u8>>;

    closed spec fn view(&self) -> Map<Seq<u8>, Seq<u8>> {
        self.storage@
    }
}

impl Engine {
    /// Opens the engine on the database file at `path`.
    pub fn open(path: &str) -> (r: Result<Engine, ExecError>)
        ensures
            r is Err ==> r matches Err(ExecError::Storage(_)),
    {
        match Storage::open(path) {
            Ok(storage) => Ok(Engine { storage }),
            Err(e) => Err(ExecError::Storage(e)),
        }
    }

    /// Hands out the next id of a table's rows and advances the counter.
    pub fn next_row_id(&mut self, table_name: &str) -> (r: Result<u64, ExecError>)
        requires
            counter(old(self)@, table_name@) < u64::MAX,
        ensures
            match r {
                Ok(id) => id == counter(old(self)@, table_name@) && final(self)@ == old(self)@.insert(
                    meta_key_of(table_name@),
                    encode_utf8(nat_decimal((id + 1) as nat)),
                ),
                Err(e) => e is Storage,
            },
    {
        let key = meta_key(table_name);
        let found = match self.storage.get(key.as_slice()) {
            Ok(f) => f,
            Err(e) => return Err(ExecError::Storage(e)),
        };
        let id: u64 = match found {
            Some(bytes) => match parse_u64_bytes(bytes.as_slice()) {
                Some(n) => n,
                None => 1,
            },
            None => 1,
        };
        let next = decimal_string((id + 1) as i128);
        match self.storage.put(key.as_slice(), next.as_str().as_bytes()) {
            Ok(()) => Ok(id),
            Err(e) => Err(ExecError::Storage(e)),
        }
    }

    /// CREATE TABLE: stores the schema.
    pub fn exec_create(&mut self, stmt: CreateTableStmt) -> (r: Result<QueryResult, ExecError>)
        ensures
            create_outcome(
                old(self)@,
                final(self)@,
                stmt.table_name@,
                stmt.columns@.map_values(|c: ColumnDef| c@),
                r,
            ),
    {
        let ghost defs = stmt.columns@.map_values(|c: ColumnDef| c@);
        let mut columns: Vec<Column> = Vec::new();
        let mut i: usize = 0;
        while i < stmt.columns.len()
            invariant
                i <= stmt.columns.len(),
                defs == stmt.columns@.map_values(|c: ColumnDef| c@),
                columns_view(columns@) == defs_columns(defs.take(i as int)),
            decreases stmt.columns.len() - i,
        {
            let c = Column { name: stmt.columns[i].name.clone(), col_type: stmt.columns[i].col_type };
            let ghost cv = c@;
            let ghost before = columns@;
            columns.push(c);
            proof {
                assert(cv == (ColumnV { name: defs[i as int].name, col_type: defs[i as int].col_type }));
                assert(columns_view(columns@) =~= columns_view(before).push(cv));
                assert(defs.take(i + 1) =~= defs.take(i as int).push(defs[i as int]));
                assert(defs_columns(defs.take(i + 1)) =~= defs_columns(defs.take(i as int)).push(cv));
            }
            i = i + 1;
        }
        assert(defs.take(stmt.columns.len() as int) =~= defs);
        let schema = Schema::new(stmt.table_name.as_str(), columns);
        match write_schema(&mut self.storage, schema) {
            Ok(()) => {},
            Err(e) => return Err(ExecError::Catalog(e)),
        }
        let mut msg = String::new();
        append_str(&mut msg, "Table '");
        append_str(&mut msg, stmt.table_name.as_str());
        append_str(&mut msg, "' created.");
        proof {
            reveal_strlit("Table '");
            reveal_strlit("' created.");
            assert(msg@ =~= created_message(stmt.table_name@));
        }
        Ok(QueryResult::message(msg.as_str()))
    }


    /// INSERT: checks the rows against the table's schema, then writes each
    /// row under the next id.
    pub fn exec_insert(&mut self, stmt: InsertStmt) -> (r: Result<QueryResult, ExecError>)
        requires
            counter(old(self)@, stmt.table_name@) + stmt.rows@.len() <= u64::MAX,
        ensures
            insert_outcome(
                old(self)@,
                final(self)@,
                stmt.table_name@,
                strings_view(stmt.columns@),
                rows_view(stmt.rows@),
                r,
            ),
            stored_schema(old(self)@, stmt.table_name@) is None ==> r matches Err(
                ExecError::TableNotFound(_),
            ),
            r is Ok ==> forall|j: int|
                0 <= j < stmt.rows@.len() ==> #[trigger] reads_back(
                    final(self)@,
                    stmt.table_name@,
                    (counter(old(self)@, stmt.table_name@) + j) as u64,
                    row_entries(
                        stored_schema(old(self)@, stmt.table_name@).unwrap(),
                        strings_view(stmt.columns@),
                        rows_view(stmt.rows@)[j],
                    ),
                ),
    {
        let ghost t = stmt.table_name@;
        let ghost cols = strings_view(stmt.columns@);
        let ghost rows = rows_view(stmt.rows@);
        let ghost m0 = self@;
        let ghost c0 = counter(m0, t);
        proof {
            reveal(insert_outcome);
        }
        let schema = match read_schema(&self.storage, stmt.table_name.as_str()) {
            Ok(s) => s,
            Err(_) => return Err(ExecError::TableNotFound(stmt.table_name.clone())),
        };
        let ghost sch = schema@;
        assert(stored_schema(m0, t) == Some(sch));
        match find_bad_count(&stmt.rows, stmt.columns.len()) {
            Some(i) => {
                return Err(
                    ExecError::ColumnCountMismatch {
                        expected: stmt.columns.len(),
                        got: stmt.rows[i].len(),
                    },
                );
            },
            None => {},
        }
        match find_missing(&schema, &stmt.columns) {
            Some(j) => {
                return Err(ExecError::ColumnNotFound(stmt.columns[j].clone(), stmt.table_name.clone()));
            },
            None => {},
        }
        proof {
            assert forall|j: int| 0 <= j < rows.len() implies (#[trigger] rows[j]).len() == cols.len() by {
                lemma_no_first(rows, |r: Seq<ValueV>| r.len() != cols.len(), j);
            }
        }
        let mut inserted: usize = 0;
        assert(rows.take(0) =~= Seq::<Seq<ValueV>>::empty());
        proof {
            reveal(insert_rows);
        }
        while inserted < stmt.rows.len()
            invariant
                inserted <= stmt.rows.len(),
                rows == rows_view(stmt.rows@),
                cols == strings_view(stmt.columns@),
                sch == schema@,
                t == stmt.table_name@,
                m0 == old(self)@,
                stored_schema(m0, t) == Some(sch),
                first_bad_count(cols.len(), rows) is None,
                first_missing(sch, cols) is None,
                forall|j: int| 0 <= j < rows.len() ==> (#[trigger] rows[j]).len() == cols.len(),
                insert_rows(m0, t, sch, cols, rows.take(inserted as int)) == (self@, None::<(int, int)>),
                counter(self@, t) == counter(m0, t) + inserted,
                counter(m0, t) + rows.len() <= u64::MAX,
                c0 == counter(m0, t),
                forall|j: int|
                    0 <= j < inserted ==> #[trigger] reads_back(
                        self@,
                        t,
                        (c0 + j) as u64,
                        row_entries(sch, cols, rows[j]),
                    ),
            decreases stmt.rows.len() - inserted,
        {
            let row_vals = &stmt.rows[inserted];
            let ghost vals = rows[inserted as int];
            assert(vals == row_vals@.map_values(|v: Value| v@));
            assert(vals.len() == cols.len());
            let map = match build_row(&schema, &stmt.columns, row_vals) {
                Ok(m) => m,
                Err(e) => {
                    proof {
                        reveal(insert_rows);
                        assert(rows.take(inserted + 1).drop_last() =~= rows.take(inserted as int));
                        assert(rows.take(inserted + 1).last() == vals);
                        lemma_insert_error(m0, t, sch, cols, rows, inserted + 1, rows.len() as int);
                        assert(rows.take(rows.len() as int) =~= rows);
                        reveal(insert_outcome);
                    }
                    return Err(e);
                },
            };
            let ghost m1 = self@;
            let id = match self.next_row_id(stmt.table_name.as_str()) {
                Ok(id) => id,
                Err(e) => {
                    proof {
                        reveal(insert_outcome);
                    }
                    return Err(e);
                },
            };
            let key = row_key(stmt.table_name.as_str(), id);
            let bytes = match object_bytes(&map) {
                Ok(b) => b,
                Err(e) => {
                    proof {
                        reveal(insert_outcome);
                    }
                    return Err(ExecError::Json(e));
                },
            };
            match self.storage.put(key.as_slice(), bytes.as_slice()) {
                Ok(()) => {},
                Err(e) => {
                    proof {
                        reveal(insert_outcome);
                    }
                    return Err(ExecError::Storage(e));
                },
            }
            proof {
                reveal(insert_rows);
                assert(rows.take(inserted + 1).drop_last() =~= rows.take(inserted as int));
                assert(rows.take(inserted + 1).last() == vals);
                lemma_row_key_not_meta(t, id);
                lemma_parse_decimal((id + 1) as u64);
                assert(self@[meta_key_of(t)] == encode_utf8(nat_decimal((id + 1) as nat)));
                lemma_build_sorted(sch, cols, vals, cols.len() as int);
                assert(entries_view(map@) == row_entries(sch, cols, vals));
                assert(json_object(bytes@) == Some(entries_view(map@)));
                assert forall|j: int| 0 <= j < inserted + 1 implies #[trigger] reads_back(
                    self@,
                    t,
                    (c0 + j) as u64,
                    row_entries(sch, cols, rows[j]),
                ) by {
                    if j < inserted {
                        properties::law_row_keys_distinct(t, (c0 + j) as u64, id);
                        assert(reads_back(m1, t, (c0 + j) as u64, row_entries(sch, cols, rows[j])));
                    } else {
                        assert(rows[j] == vals);
                    }
                }
            }
            inserted = inserted + 1;
        }
        assert(rows.take(rows.len() as int) =~= rows);
        let msg = count_text(inserted, "inserted.");
        proof {
            reveal_strlit("inserted.");
            assert("inserted."@ =~= inserted_word());
            reveal(insert_outcome);
        }
        Ok(QueryResult::message(msg.as_str()))
    }

    /// UPDATE: sets the assigned columns of every row that passes the
    /// condition.
    pub fn exec_update(&mut self, stmt: UpdateStmt) -> (r: Result<QueryResult, ExecError>)
        ensures
            update_outcome(
                old(self)@,
                final(self)@,
                stmt.table_name@,
                stmt.assignments@.map_values(|a: Assignment| a@),
                opt_expr_view(stmt.where_clause),
                r,
            ),
            stored_schema(old(self)@, stmt.table_name@) is None ==> r matches Err(
                ExecError::TableNotFound(_),
            ),
            r is Ok ==> update_reads_back(
                old(self)@,
                final(self)@,
                stmt.table_name@,
                stmt.assignments@.map_values(|a: Assignment| a@),
                opt_expr_view(stmt.where_clause),
            ),
    {
        let ghost t = stmt.table_name@;
        let ghost av = stmt.assignments@.map_values(|a: Assignment| a@);
        let ghost w = opt_expr_view(stmt.where_clause);
        let ghost m0 = self@;
        proof {
            reveal(update_outcome);
        }
        let schema = match read_schema(&self.storage, stmt.table_name.as_str()) {
            Ok(s) => s,
            Err(_) => return Err(ExecError::TableNotFound(stmt.table_name.clone())),
        };
        let ghost sch = schema@;
        assert(stored_schema(m0, t) == Some(sch));
        match find_unknown(&schema, &stmt.assignments) {
            Some(i) => {
                return Err(
                    ExecError::ColumnNotFound(
                        stmt.assignments[i].column.clone(),
                        stmt.table_name.clone(),
                    ),
                );
            },
            None => {},
        }
        let prefix = row_prefix_bytes(stmt.table_name.as_str());
        let raw = match self.storage.scan_prefix(prefix.as_slice()) {
            Ok(v) => v,
            Err(e) => return Err(ExecError::Storage(e)),
        };
        let ghost l = pairs_view(raw@);
        assert(l == scan(m0, row_prefix(t)));
        assert(crate::storage::lists_entries(m0, |k: Seq<u8>| row_prefix(t).is_prefix_of(k), l));
        let mut updated: usize = 0;
        let mut i: usize = 0;
        assert(l.take(0) =~= Seq::<(Seq<u8>, Seq<u8>)>::empty());
        proof {
            reveal(update_rows);
        }
        while i < raw.len()
            invariant
                i <= raw.len(),
                updated <= i,
                l == pairs_view(raw@),
                l == scan(m0, row_prefix(t)),
                sch == schema@,
                t == stmt.table_name@,
                av == stmt.assignments@.map_values(|a: Assignment| a@),
                w == opt_expr_view(stmt.where_clause),
                m0 == old(self)@,
                stored_schema(m0, t) == Some(sch),
                first_unknown(sch, av) is None,
                update_rows(m0, l.take(i as int), sch, av, w) == (self@, updated as nat, None::<Halt>),
                crate::storage::lists_entries(m0, |k: Seq<u8>| row_prefix(t).is_prefix_of(k), l),
                forall|j: int|
                    0 <= j < i && (#[trigger] updated_entries(m0, sch, av, w, l[j].0)) is Some
                        ==> self@.contains_key(l[j].0) && json_object(self@[l[j].0])
                        == updated_entries(m0, sch, av, w, l[j].0),
            decreases raw.len() - i,
        {
            let key = raw[i].0.as_slice();
            let bytes = raw[i].1.as_slice();
            assert(l[i as int] == (key@, bytes@));
            proof {
                reveal(update_rows);
                assert(l.take(i + 1).drop_last() =~= l.take(i as int));
                assert(l.take(i + 1).last() == l[i as int]);
            }
            let obj = match parse_object(bytes) {
                Ok(o) => o,
                Err(e) => {
                    proof {
                        lemma_update_halt(m0, l, sch, av, w, i + 1, l.len() as int);
                        assert(l.take(l.len() as int) =~= l);
                        reveal(update_outcome);
                    }
                    return Err(ExecError::Json(e));
                },
            };
            let ghost ov = entries_view(obj@);
            assert(json_object(bytes@) == Some(ov));
            if row_passes(&stmt.where_clause, &obj) {
                let changed = match apply_assignments(&schema, &stmt.assignments, obj) {
                    Ok(o) => o,
                    Err(e) => {
                        proof {
                            let ae = assign_entries(sch, av, ov, av.len() as int);
                            assert(ae is Err);
                            let k = ae->Err_0;
                            lemma_assign_err_range(sch, av, ov, av.len() as int);
                            assert(av[k] == stmt.assignments@[k]@);
                            reveal(update_rows);
                            assert(update_rows(m0, l.take(i + 1), sch, av, w) == (
                                self@,
                                updated as nat,
                                Some(Halt::Uncoercible(k)),
                            ));
                            lemma_update_halt(m0, l, sch, av, w, i + 1, l.len() as int);
                            assert(l.take(l.len() as int) =~= l);
                            reveal(update_outcome);
                        }
                        return Err(e);
                    },
                };
                proof {
                    reveal(update_outcome);
                    if entries_plain(ov) {
                        lemma_assign_sorted_plain(sch, av, ov, av.len() as int);
                    }
                }
                let nb = match object_bytes(&changed) {
                    Ok(b) => b,
                    Err(e) => return Err(ExecError::Json(e)),
                };
                let ghost before = self@;
                match self.storage.put(key, nb.as_slice()) {
                    Ok(()) => {},
                    Err(e) => return Err(ExecError::Storage(e)),
                }
                proof {
                    assert(m0.contains_key(l[i as int].0) && m0[key@] == bytes@);
                    assert forall|j: int| 0 <= j < i implies (#[trigger] l[j]).0 != key@ by {
                        assert(crate::storage::bytes_lt(l[j].0, l[i as int].0));
                        crate::storage::lemma_lt_irreflexive(l[j].0);
                    }
                }
                updated = updated + 1;
            } else {
                proof {
                    assert(m0.contains_key(l[i as int].0) && m0[key@] == bytes@);
                }
            }
            i = i + 1;
        }
        assert(l.take(l.len() as int) =~= l);
        proof {
            assert forall|k: Seq<u8>|
                row_prefix(t).is_prefix_of(k) && m0.contains_key(k) && (#[trigger] updated_entries(
                    m0,
                    sch,
                    av,
                    w,
                    k,
                )) is Some implies self@.contains_key(k) && json_object(self@[k]) == updated_entries(
                m0,
                sch,
                av,
                w,
                k,
            ) by {
                let j = choose|j: int| 0 <= j < l.len() && #[trigger] l[j].0 == k;
                assert(updated_entries(m0, sch, av, w, l[j].0) is Some);
            }
        }
        let msg = count_text(updated, "updated.");
        proof {
            reveal_strlit("updated.");
            assert("updated."@ =~= updated_word());
        }
        Ok(QueryResult::message(msg.as_str()))
    }

    /// DELETE: removes every row that passes the condition.
    pub fn exec_delete(&mut self, stmt: DeleteStmt) -> (r: Result<QueryResult, ExecError>)
        ensures
            delete_outcome(
                old(self)@,
                final(self)@,
                stmt.table_name@,
                opt_expr_view(stmt.where_clause),
                r,
            ),
            stored_schema(old(self)@, stmt.table_name@) is None ==> r matches Err(
                ExecError::TableNotFound(_),
            ),
    {
        let ghost t = stmt.table_name@;
        let ghost w = opt_expr_view(stmt.where_clause);
        let ghost m0 = self@;
        proof {
            reveal(delete_outcome);
        }
        match read_schema(&self.storage, stmt.table_name.as_str()) {
            Ok(_) => {},
            Err(_) => return Err(ExecError::TableNotFound(stmt.table_name.clone())),
        }
        let prefix = row_prefix_bytes(stmt.table_name.as_str());
        let raw = match self.storage.scan_prefix(prefix.as_slice()) {
            Ok(v) => v,
            Err(e) => return Err(ExecError::Storage(e)),
        };
        let ghost l = pairs_view(raw@);
        let mut deleted: usize = 0;
        let mut i: usize = 0;
        assert(l.take(0) =~= Seq::<(Seq<u8>, Seq<u8>)>::empty());
        proof {
            reveal(delete_rows);
        }
        while i < raw.len()
            invariant
                i <= raw.len(),
                deleted <= i,
                l == pairs_view(raw@),
                l == scan(m0, row_prefix(t)),
                t == stmt.table_name@,
                w == opt_expr_view(stmt.where_clause),
                m0 == old(self)@,
                stored_schema(m0, t) is Some,
                delete_rows(m0, l.take(i as int), w) == (self@, deleted as nat, false),
            decreases raw.len() - i,
        {
            let key = raw[i].0.as_slice();
            let bytes = raw[i].1.as_slice();
            assert(l[i as int] == (key@, bytes@));
            proof {
                reveal(delete_rows);
                assert(l.take(i + 1).drop_last() =~= l.take(i as int));
                assert(l.take(i + 1).last() == l[i as int]);
            }
            let obj = match parse_object(bytes) {
                Ok(o) => o,
                Err(e) => {
                    proof {
                        lemma_delete_halt(m0, l, w, i + 1, l.len() as int);
                        assert(l.take(l.len() as int) =~= l);
                        reveal(delete_outcome);
                    }
                    return Err(ExecError::Json(e));
                },
            };
            proof {
                reveal(delete_outcome);
            }
            if row_passes(&stmt.where_clause, &obj) {
                match self.storage.delete(key) {
                    Ok(_) => {},
                    Err(e) => return Err(ExecError::Storage(e)),
                }
                deleted = deleted + 1;
            }
            i = i + 1;
        }
        assert(l.take(l.len() as int) =~= l);
        let msg = count_text(deleted, "deleted.");
        proof {
            reveal_strlit("deleted.");
            assert("deleted."@ =~= deleted_word());
        }
        Ok(QueryResult::message(msg.as_str()))
    }

    /// SELECT: reads the table and its joins, filters, sorts, limits and
    /// shows the rows. It reads only.
    pub fn exec_select(&self, stmt: SelectStmt) -> (r: Result<QueryResult, ExecError>)
        requires
            select_readable(self@, stmt@),
        ensures
            match r {
                Ok(q) => select_spec(self@, stmt@) == Ok::<_, Seq<char>>(
                    (strings_view(q.columns@), result_rows_view(q.rows@)),
                ) && q.message is None,
                Err(ExecError::TableNotFound(n)) => n@ == stmt@.table_name || exists|k: int|
                    0 <= k < stmt@.joins.len() && (#[trigger] stmt@.joins[k]).table_name == n@,
                Err(e) => e is Storage,
            },
            select_spec(self@, stmt@) is Err ==> r is Err,
    {
        let ghost m = self@;
        let ghost sv = stmt@;
        let schema = match read_schema(&self.storage, stmt.table_name.as_str()) {
            Ok(s) => s,
            Err(_) => return Err(ExecError::TableNotFound(stmt.table_name.clone())),
        };
        assert(stored_schema(m, sv.table_name) == Some(schema@));
        let mut rows = load_rows(&self.storage, stmt.table_name.as_str())?;
        let ghost base = stored_rows(m, sv.table_name);
        let mut ji: usize = 0;
        assert(sv.joins.take(0) =~= Seq::<JoinClauseV>::empty());
        while ji < stmt.joins.len()
            invariant
                ji <= stmt.joins.len(),
                m == self@,
                sv == stmt@,
                base == stored_rows(m, sv.table_name),
                select_readable(m, sv),
                stored_schema(m, sv.table_name) is Some,
                apply_joins(m, base, sv.joins.take(ji as int)) == Ok::<Seq<RowV>, Seq<char>>(
                    table_view(rows@),
                ),
            decreases stmt.joins.len() - ji,
        {
            let j = &stmt.joins[ji];
            assert(sv.joins[ji as int] == j@);
            assert(sv.joins.take(ji + 1).drop_last() =~= sv.joins.take(ji as int));
            assert(sv.joins.take(ji + 1).last() == j@);
            rows = match join_table(&self.storage, &rows, j) {
                Ok(v) => v,
                Err(e) => {
                    proof {
                        if e is TableNotFound {
                            assert(sv.joins[ji as int].table_name == j@.table_name);
                        }
                    }
                    return Err(e);
                },
            };
            ji = ji + 1;
        }
        assert(sv.joins.take(stmt.joins.len() as int) =~= sv.joins);
        let kept = filter_rows(&rows, &stmt.where_clause);
        let sorted = if stmt.order_by.len() > 0 {
            sort_rows(&kept, &stmt.order_by)
        } else {
            kept
        };
        let ghost joined = table_view(rows@);
        let ghost kv = keep_rows(joined, sv.where_clause);
        proof {
            assert(values::order_view(stmt.order_by@) =~= sv.order_by);
        }
        let ghost sortv = if sv.order_by.len() > 0 {
            sort_by_order(kv, sv.order_by)
        } else {
            kv
        };
        assert(table_view(sorted@) == sortv);
        let mut limited = sorted;
        match stmt.limit {
            Some(n) => {
                limited.truncate(n);
                proof {
                    if (n as int) >= sortv.len() {
                        assert(table_view(limited@) =~= sortv);
                    } else {
                        assert(table_view(limited@) =~= sortv.take(n as int));
                    }
                }
            },
            None => {},
        }
        let out = result_columns(&stmt, &schema, &limited);
        let display = result_display_names(&stmt, &schema, &out);
        let shown = show_rows(&limited, &out);
        Ok(QueryResult { columns: display, rows: shown, message: None })
    }

    /// Runs a statement.
    pub fn execute(&mut self, stmt: Stmt) -> (r: Result<QueryResult, ExecError>)
        requires
            statement_ready(old(self)@, stmt@),
        ensures
            statement_outcome(old(self)@, final(self)@, stmt@, r),
    {
        match stmt {
            Stmt::CreateTable(s) => self.exec_create(s),
            Stmt::Insert(s) => self.exec_insert(s),
            Stmt::Select(s) => self.exec_select(s),
            Stmt::Update(s) => self.exec_update(s),
            Stmt::Delete(s) => self.exec_delete(s),
        }
    }

    /// Runs a statement where the store allows it; `None`, with nothing
    /// changed, where an INSERT would overflow the table's row counter or a
    /// SELECT would meet a stored row that is not a JSON object.
    pub fn execute_checked(&mut self, stmt: Stmt) -> (r: Option<Result<QueryResult, ExecError>>)
        ensures
            match r {
                None => !statement_ready(old(self)@, stmt@) && final(self)@ == old(self)@,
                Some(res) => statement_outcome(old(self)@, final(self)@, stmt@, res),
            },
    {
        let ghost m = self@;
        match &stmt {
            Stmt::Insert(s) => {
                let c = match read_counter(&self.storage, s.table_name.as_str()) {
                    Ok(c) => c,
                    Err(e) => {
                        proof {
                            reveal(insert_outcome);
                        }
                        return Some(Err(e));
                    },
                };
                if s.rows.len() as u64 > u64::MAX - c {
                    return None;
                }
            },
            Stmt::Select(s) => {
                let ghost sv = s@;
                let found = match read_schema(&self.storage, s.table_name.as_str()) {
                    Ok(_) => true,
                    Err(CatalogError::Storage(e)) => return Some(Err(ExecError::Storage(e))),
                    Err(_) => false,
                };
                if !found {
                    // the SELECT answers that the table is not found
                    return Some(self.execute(stmt));
                }
                match rows_readable(&self.storage, s.table_name.as_str()) {
                    Ok(true) => {},
                    Ok(false) => return None,
                    Err(e) => return Some(Err(e)),
                }
                let mut k: usize = 0;
                while k < s.joins.len()
                    invariant
                        k <= s.joins.len(),
                        sv == s@,
                        m == self@,
                        m == old(self)@,
                        stmt@ == StmtV::Select(sv),
                        stored_schema(m, sv.table_name) is Some,
                        prefix_readable(m, row_prefix(sv.table_name)),
                        forall|k2: int|
                            0 <= k2 < k ==> prefix_readable(
                                m,
                                row_prefix(#[trigger] sv.joins[k2].table_name),
                            ),
                    decreases s.joins.len() - k,
                {
                    assert(sv.joins[k as int] == s.joins[k as int]@);
                    match rows_readable(&self.storage, s.joins[k].table_name.as_str()) {
                        Ok(true) => {},
                        Ok(false) => {
                            assert(!prefix_readable(
                                m,
                                row_prefix(sv.joins[k as int].table_name),
                            ));
                            return None;
                        },
                        Err(e) => return Some(Err(e)),
                    }
                    k = k + 1;
                }
            },
            _ => {},
        }
        Some(self.execute(stmt))
    }
}

} // verus!
