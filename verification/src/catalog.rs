//! The catalog: the schema of each table, kept in the store as JSON under the
//! key `catalog:<table>`.
use crate::json::{
    canon, canon_items, canon_members, chars_lt, custom_error, entries_view, find_entry,
    insert_member, items_text, items_within, json_array, json_object, json_string, lookup,
    members_text, members_within, parse_array, parse_object, quote_string, tree_cell, tree_text,
    tree_within, Json, JsonTree, JsonV,
};
use crate::storage::{lists_entries, scan, Storage, StorageError};
use crate::text::{append_str, bytes_to_vec, chars_eq, chars_of, lossy_string, uppercase, utf8_lossy};
use vstd::prelude::*;
use vstd::utf8::encode_utf8;

verus! {

// ── Column types ─────────────────────────────────────────────────────────────

/// The type of a table column.
#[derive(Debug, Clone, Copy, PartialEq, Eq, Structural)]
pub enum ColType {
    Integer,
    Text,
}

/// The column type that a type name denotes, compared without regard to case.
pub open spec fn coltype_of(name: Seq<char>) -> Option<ColType> {
    let u = uppercase(name);
    if u == seq!['I', 'N', 'T', 'E', 'G', 'E', 'R'] || u == seq!['I', 'N', 'T'] {
        Some(ColType::Integer)
    } else if u == seq!['T', 'E', 'X', 'T'] || u == seq!['V', 'A', 'R', 'C', 'H', 'A', 'R'] {
        Some(ColType::Text)
    } else {
        None
    }
}

impl ColType {
    /// The column type named `s`: `INTEGER` or `INT`, `TEXT` or `VARCHAR`, in
    /// any case.
    pub fn from_str(s: &str) -> (r: Option<ColType>)
        ensures
            r == coltype_of(s@),
    {
        let up = s.to_uppercase();
        let u = chars_of(up.as_str());
        let w = u.as_slice();
        if chars_eq(w, &['I', 'N', 'T', 'E', 'G', 'E', 'R']) || chars_eq(w, &['I', 'N', 'T']) {
            Some(ColType::Integer)
        } else if chars_eq(w, &['T', 'E', 'X', 'T']) || chars_eq(
            w,
            &['V', 'A', 'R', 'C', 'H', 'A', 'R'],
        ) {
            Some(ColType::Text)
        } else {
            None
        }
    }
}


// ── Schema ───────────────────────────────────────────────────────────────────

/// A column of a table.
#[derive(Debug, Clone)]
pub struct Column {
    pub name: String,
    pub col_type: ColType,
}

/// The schema of a table: its name and its columns, in order.
#[derive(Debug, Clone)]
pub struct Schema {
    pub table_name: String,
    pub columns: Vec<Column>,
}

#[verifier::ext_equal]
pub struct ColumnV {
    pub name: Seq<char>,
    pub col_type: ColType,
}

#[verifier::ext_equal]
pub struct SchemaV {
    pub table_name: Seq<char>,
    pub columns: Seq<ColumnV>,
}

impl View for Column {
    type V = ColumnV;

    open spec fn view(&self) -> ColumnV {
        ColumnV { name: self.name@, col_type: self.col_type }
    }
}

/// The views of a sequence of columns.
pub open spec fn columns_view(v: Seq<Column>) -> Seq<ColumnV> {
    v.map_values(|c: Column| c@)
}

impl View for Schema {
    type V = SchemaV;

    open spec fn view(&self) -> SchemaV {
        SchemaV { table_name: self.table_name@, columns: columns_view(self.columns@) }
    }
}

/// The position of the first column named `name`.
#[verifier::opaque]
pub open spec fn column_position(cols: Seq<ColumnV>, name: Seq<char>) -> Option<usize> {
    if exists|i: int| 0 <= i < cols.len() && cols[i].name == name {
        let i = choose|i: int|
            0 <= i < cols.len() && cols[i].name == name && forall|j: int|
                0 <= j < i ==> cols[j].name != name;
        Some(i as usize)
    } else {
        None
    }
}

/// The least index satisfying a predicate exists when some index does.
proof fn lemma_first_column(cols: Seq<ColumnV>, name: Seq<char>, k: int)
    requires
        0 <= k < cols.len(),
        cols[k].name == name,
    ensures
        exists|i: int|
            0 <= i < cols.len() && cols[i].name == name && forall|j: int|
                0 <= j < i ==> cols[j].name != name,
    decreases k,
{
    if exists|j: int| 0 <= j < k && cols[j].name == name {
        let j = choose|j: int| 0 <= j < k && cols[j].name == name;
        lemma_first_column(cols, name, j);
    }
}

impl Schema {
    pub fn new(table_name: &str, columns: Vec<Column>) -> (r: Schema)
        ensures
            r@ == (SchemaV { table_name: table_name@, columns: columns_view(columns@) }),
    {
        Schema { table_name: table_name.to_owned(), columns }
    }

    /// The index of the first column named `name`.
    pub fn column_index(&self, name: &str) -> (r: Option<usize>)
        ensures
            r == column_position(self@.columns, name@),
            r matches Some(i) ==> i < self.columns.len() && self.columns@[i as int].name@ == name@,
    {
        proof {
            reveal(column_position);
        }
        let wanted = name.to_owned();
        let mut i: usize = 0;
        while i < self.columns.len()
            invariant
                i <= self.columns.len(),
                wanted@ == name@,
                forall|j: int| 0 <= j < i ==> self@.columns[j].name != name@,
            decreases self.columns.len() - i,
        {
            if self.columns[i].name == wanted {
                proof {
                    reveal(column_position);
                    let cols = self@.columns;
                    assert(cols[i as int].name == name@);
                    lemma_first_column(cols, name@, i as int);
                    let k = choose|k: int|
                        0 <= k < cols.len() && cols[k].name == name@ && forall|j: int|
                            0 <= j < k ==> cols[j].name != name@;
                    if k < i {
                    } else if k > i {
                        assert(cols[i as int].name != name@);
                    }
                }
                return Some(i);
            }
            i = i + 1;
        }
        None
    }
}

// ── The stored form of a schema ──────────────────────────────────────────────

/// The name under which a column type is written.
pub open spec fn coltype_text(t: ColType) -> Seq<char> {
    match t {
        ColType::Integer => seq!['I', 'n', 't', 'e', 'g', 'e', 'r'],
        ColType::Text => seq!['T', 'e', 'x', 't'],
    }
}

/// `col_type`
pub open spec fn col_type_key() -> Seq<char> {
    seq!['c', 'o', 'l', '_', 't', 'y', 'p', 'e']
}

/// `name`
pub open spec fn name_key() -> Seq<char> {
    seq!['n', 'a', 'm', 'e']
}

/// `columns`
pub open spec fn columns_key() -> Seq<char> {
    seq!['c', 'o', 'l', 'u', 'm', 'n', 's']
}

/// `table_name`
pub open spec fn table_name_key() -> Seq<char> {
    seq!['t', 'a', 'b', 'l', 'e', '_', 'n', 'a', 'm', 'e']
}

/// A column as the JSON object it is stored as: `name`, then `col_type`, the
/// order of the fields of `Column`.
pub open spec fn column_tree(c: ColumnV) -> JsonTree {
    JsonTree::Obj(
        seq![
            (name_key(), JsonTree::Str(c.name)),
            (col_type_key(), JsonTree::Str(coltype_text(c.col_type))),
        ],
    )
}

/// A column as serde_json holds it once read: its keys in increasing order.
pub open spec fn sorted_column_tree(c: ColumnV) -> JsonTree {
    JsonTree::Obj(
        seq![
            (col_type_key(), JsonTree::Str(coltype_text(c.col_type))),
            (name_key(), JsonTree::Str(c.name)),
        ],
    )
}

/// A schema as the JSON object it is stored as: `table_name`, then
/// `columns`, the order of the fields of `Schema`.
pub open spec fn schema_tree(s: SchemaV) -> JsonTree {
    JsonTree::Obj(
        seq![
            (table_name_key(), JsonTree::Str(s.table_name)),
            (columns_key(), JsonTree::Arr(column_trees(s.columns))),
        ],
    )
}

/// The columns' objects as stored.
pub open spec fn column_trees(cs: Seq<ColumnV>) -> Seq<JsonTree> {
    cs.map_values(|c: ColumnV| column_tree(c))
}

/// The columns' objects as serde_json holds them once read.
pub open spec fn sorted_column_trees(cs: Seq<ColumnV>) -> Seq<JsonTree> {
    cs.map_values(|c: ColumnV| sorted_column_tree(c))
}

/// The columns as serde_json holds them once read.
pub open spec fn sorted_columns_tree(cs: Seq<ColumnV>) -> JsonTree {
    JsonTree::Arr(sorted_column_trees(cs))
}

/// `{"name":<name>,"col_type":"<type>"}`
pub open spec fn column_text(c: ColumnV) -> Seq<char> {
    seq!['{'] + json_string(name_key()) + seq![':'] + json_string(c.name) + seq![','] + json_string(
        col_type_key(),
    ) + seq![':'] + json_string(coltype_text(c.col_type)) + seq!['}']
}

/// `{"col_type":"<type>","name":<name>}`, the text serde_json writes of a
/// column it has read.
pub open spec fn sorted_column_text(c: ColumnV) -> Seq<char> {
    seq!['{'] + json_string(col_type_key()) + seq![':'] + json_string(coltype_text(c.col_type))
        + seq![','] + json_string(name_key()) + seq![':'] + json_string(c.name) + seq!['}']
}

/// The texts of the columns, separated by commas.
pub open spec fn columns_text(cs: Seq<ColumnV>) -> Seq<char>
    decreases cs.len(),
{
    if cs.len() == 0 {
        Seq::empty()
    } else if cs.len() == 1 {
        column_text(cs[0])
    } else {
        columns_text(cs.drop_last()) + seq![','] + column_text(cs.last())
    }
}

/// The JSON text a schema is stored as, what serde_json writes for `Schema`
/// with its fields in order: `{"table_name":<name>,"columns":[<column>,...]}`.
pub open spec fn schema_text(s: SchemaV) -> Seq<char> {
    seq!['{'] + json_string(table_name_key()) + seq![':'] + json_string(s.table_name) + seq![
        ',',
    ] + json_string(columns_key()) + seq![':', '['] + columns_text(s.columns) + seq![']', '}']
}

/// A two-entry object's text, map and depth.
proof fn lemma_pair_object(k0: Seq<char>, v0: Seq<char>, k1: Seq<char>, v1: Seq<char>)
    ensures
        ({
            let es = seq![(k0, JsonTree::Str(v0)), (k1, JsonTree::Str(v1))];
            &&& tree_text(JsonTree::Obj(es)) == seq!['{'] + json_string(k0) + seq![':'] + json_string(
                v0,
            ) + seq![','] + json_string(k1) + seq![':'] + json_string(v1) + seq!['}']
            &&& forall|d: int| d >= 1 ==> #[trigger] tree_within(JsonTree::Obj(es), d)
            &&& canon_members(es, 2) == insert_member(seq![(k0, JsonTree::Str(v0))], k1, JsonTree::Str(v1))
        }),
{
    let es = seq![(k0, JsonTree::Str(v0)), (k1, JsonTree::Str(v1))];
    assert(tree_text(es[0].1) == json_string(v0));
    assert(tree_text(es[1].1) == json_string(v1));
    assert(members_text(es, 1) == json_string(es[0].0) + seq![':'] + tree_text(es[0].1));
    assert(members_text(es, 2) == members_text(es, 1) + seq![','] + json_string(es[1].0) + seq![
        ':',
    ] + tree_text(es[1].1));
    assert(tree_text(JsonTree::Obj(es)) == seq!['{'] + members_text(es, 2) + seq!['}']);
    assert(tree_text(JsonTree::Obj(es)) =~= seq!['{'] + json_string(k0) + seq![':'] + json_string(v0)
        + seq![','] + json_string(k1) + seq![':'] + json_string(v1) + seq!['}']);
    assert forall|d: int| d >= 1 implies #[trigger] tree_within(JsonTree::Obj(es), d) by {
        assert(tree_within(es[0].1, d - 1) && tree_within(es[1].1, d - 1));
        assert(members_within(es, 0, d - 1));
        assert(members_within(es, 1, d - 1));
        assert(members_within(es, 2, d - 1));
    }
    assert(canon(es[0].1) == es[0].1);
    assert(canon(es[1].1) == es[1].1);
    assert(canon_members(es, 0) =~= Seq::<(Seq<char>, JsonTree)>::empty());
    assert(insert_member(Seq::<(Seq<char>, JsonTree)>::empty(), k0, JsonTree::Str(v0)) =~= seq![
        (k0, JsonTree::Str(v0)),
    ]);
    assert(canon_members(es, 1) =~= seq![(k0, JsonTree::Str(v0))]);
}

/// A column's stored text, and how it reads back: as the object with its
/// keys in increasing order, whose text in turn reads back as itself.
proof fn lemma_column_tree(c: ColumnV)
    ensures
        tree_text(column_tree(c)) == column_text(c),
        tree_text(sorted_column_tree(c)) == sorted_column_text(c),
        forall|d: int| d >= 1 ==> #[trigger] tree_within(column_tree(c), d),
        forall|d: int| d >= 1 ==> #[trigger] tree_within(sorted_column_tree(c), d),
        canon(column_tree(c)) == sorted_column_tree(c),
        canon(sorted_column_tree(c)) == sorted_column_tree(c),
        sorted_column_tree(c)->Obj_0.map_values(|m: (Seq<char>, JsonTree)| (m.0, tree_cell(m.1)))
            == seq![
            (col_type_key(), JsonV::Str(coltype_text(c.col_type))),
            (name_key(), JsonV::Str(c.name)),
        ],
{
    let n = c.name;
    let t = coltype_text(c.col_type);
    lemma_pair_object(name_key(), n, col_type_key(), t);
    lemma_pair_object(col_type_key(), t, name_key(), n);
    assert(chars_lt(col_type_key(), name_key()));
    assert(!chars_lt(name_key(), col_type_key()));
    assert(col_type_key() != name_key());
    let a = seq![(name_key(), JsonTree::Str(n))];
    assert(insert_member(a, col_type_key(), JsonTree::Str(t)) =~= seq![
        (col_type_key(), JsonTree::Str(t)),
        (name_key(), JsonTree::Str(n)),
    ]);
    let b = seq![(col_type_key(), JsonTree::Str(t))];
    assert(b.drop_first() =~= Seq::<(Seq<char>, JsonTree)>::empty());
    assert(insert_member(b.drop_first(), name_key(), JsonTree::Str(n)) =~= seq![
        (name_key(), JsonTree::Str(n)),
    ]);
    assert(b[0].0 != name_key());
    assert(insert_member(b, name_key(), JsonTree::Str(n)) == seq![b[0]] + insert_member(
        b.drop_first(),
        name_key(),
        JsonTree::Str(n),
    ));
    assert(insert_member(b, name_key(), JsonTree::Str(n)) =~= seq![
        (col_type_key(), JsonTree::Str(t)),
        (name_key(), JsonTree::Str(n)),
    ]);
    let es = sorted_column_tree(c)->Obj_0;
    assert(es.map_values(|m: (Seq<char>, JsonTree)| (m.0, tree_cell(m.1))) =~= seq![
        (col_type_key(), JsonV::Str(t)),
        (name_key(), JsonV::Str(n)),
    ]);
}

/// The first `n` columns: their stored texts, how they read back, and their
/// depth.
proof fn lemma_columns_tree(cs: Seq<ColumnV>, n: int)
    requires
        0 <= n <= cs.len(),
    ensures
        items_text(column_trees(cs), n) == columns_text(cs.take(n)),
        canon_items(column_trees(cs), n) == sorted_column_trees(cs.take(n)),
        canon_items(sorted_column_trees(cs), n) == sorted_column_trees(cs.take(n)),
        forall|d: int| d >= 1 ==> #[trigger] items_within(column_trees(cs), n, d),
        forall|d: int|
            d >= 1 ==> #[trigger] items_within(sorted_column_trees(cs), n, d),
    decreases n,
{
    let items = column_trees(cs);
    let sitems = sorted_column_trees(cs);
    if n == 0 {
        assert(cs.take(0) =~= Seq::<ColumnV>::empty());
        assert(sorted_column_trees(cs.take(0)) =~= Seq::<JsonTree>::empty());
    } else {
        lemma_columns_tree(cs, n - 1);
        lemma_column_tree(cs[n - 1]);
        let p = cs.take(n);
        assert(p.drop_last() =~= cs.take(n - 1));
        assert(p.last() == cs[n - 1]);
        assert(items[n - 1] == column_tree(cs[n - 1]));
        assert(sitems[n - 1] == sorted_column_tree(cs[n - 1]));
        if n == 1 {
            assert(p[0] == cs[0]);
            assert(items[0] == column_tree(cs[0]));
        }
        assert(sorted_column_trees(cs.take(n)) =~= sorted_column_trees(cs.take(n - 1)).push(
            sorted_column_tree(cs[n - 1]),
        ));
        assert forall|d: int| d >= 1 implies #[trigger] items_within(items, n, d) by {
            assert(items_within(items, n - 1, d));
            assert(tree_within(column_tree(cs[n - 1]), d));
        }
        assert forall|d: int| d >= 1 implies #[trigger] items_within(sitems, n, d) by {
            assert(items_within(sitems, n - 1, d));
            assert(tree_within(sorted_column_tree(cs[n - 1]), d));
        }
    }
}

/// A schema's stored text, its depth, and how it reads back: the columns as
/// the text of their objects read, and the table's name.
proof fn lemma_schema_tree(s: SchemaV)
    ensures
        tree_text(schema_tree(s)) == schema_text(s),
        tree_within(schema_tree(s), 127),
        canon(schema_tree(s))->Obj_0.map_values(|m: (Seq<char>, JsonTree)| (m.0, tree_cell(m.1)))
            == seq![
            (columns_key(), JsonV::Compound(tree_text(sorted_columns_tree(s.columns)))),
            (table_name_key(), JsonV::Str(s.table_name)),
        ],
        tree_within(sorted_columns_tree(s.columns), 127),
        canon(sorted_columns_tree(s.columns)) == sorted_columns_tree(s.columns),
        forall|k: int|
            0 <= k < s.columns.len() ==> #[trigger] tree_cell(sorted_columns_tree(s.columns)->Arr_0[k])
                == JsonV::Compound(sorted_column_text(s.columns[k])),
{
    let cols = s.columns;
    let len = cols.len() as int;
    let items = column_trees(cols);
    let sitems = sorted_column_trees(cols);
    lemma_columns_tree(cols, len);
    assert(cols.take(len) =~= cols);
    let arr = JsonTree::Arr(items);
    let sarr = sorted_columns_tree(cols);
    assert(tree_text(arr) == seq!['['] + columns_text(cols) + seq![']']);
    assert(canon(arr) == sarr);
    assert(canon(sarr) == sarr);
    assert(items_within(items, len, 125));
    assert(items_within(sitems, len, 126));
    assert(tree_within(arr, 126));
    assert(tree_within(sarr, 127));
    let es = schema_tree(s)->Obj_0;
    assert(es[0].1 == JsonTree::Str(s.table_name));
    assert(es[1].1 == arr);
    assert(tree_text(es[0].1) == json_string(s.table_name));
    assert(members_text(es, 1) == json_string(es[0].0) + seq![':'] + tree_text(es[0].1));
    assert(members_text(es, 2) == members_text(es, 1) + seq![','] + json_string(es[1].0) + seq![
        ':',
    ] + tree_text(es[1].1));
    assert(tree_text(schema_tree(s)) == seq!['{'] + members_text(es, 2) + seq!['}']);
    assert(tree_text(schema_tree(s)) =~= schema_text(s));
    assert(tree_within(es[0].1, 126));
    assert(members_within(es, 0, 126));
    assert(members_within(es, 1, 126));
    assert(members_within(es, 2, 126));
    assert(canon(es[0].1) == es[0].1);
    assert(canon_members(es, 0) =~= Seq::<(Seq<char>, JsonTree)>::empty());
    assert(insert_member(Seq::<(Seq<char>, JsonTree)>::empty(), es[0].0, es[0].1) =~= seq![es[0]]);
    assert(canon_members(es, 1) =~= seq![es[0]]);
    assert(chars_lt(columns_key(), table_name_key()));
    assert(columns_key() != table_name_key());
    assert(insert_member(seq![es[0]], columns_key(), sarr) =~= seq![(columns_key(), sarr), es[0]]);
    assert(canon(schema_tree(s))->Obj_0 =~= seq![(columns_key(), sarr), es[0]]);
    assert(canon(schema_tree(s))->Obj_0.map_values(|m: (Seq<char>, JsonTree)| (m.0, tree_cell(m.1)))
        =~= seq![
        (columns_key(), JsonV::Compound(tree_text(sarr))),
        (table_name_key(), JsonV::Str(s.table_name)),
    ]);
    assert forall|k: int| 0 <= k < cols.len() implies #[trigger] tree_cell(sarr->Arr_0[k])
        == JsonV::Compound(sorted_column_text(cols[k])) by {
        lemma_column_tree(cols[k]);
        assert(sarr->Arr_0[k] == sorted_column_tree(cols[k]));
    }
}

/// The JSON text of one column.
fn column_json(c: &Column) -> (r: String)
    ensures
        r@ == column_text(c@),
{
    let mut s = String::new();
    append_str(&mut s, "{");
    let k1 = quote_string("name");
    append_str(&mut s, k1.as_str());
    append_str(&mut s, ":");
    let v1 = quote_string(c.name.as_str());
    append_str(&mut s, v1.as_str());
    append_str(&mut s, ",");
    let k2 = quote_string("col_type");
    append_str(&mut s, k2.as_str());
    append_str(&mut s, ":");
    let v2 = match c.col_type {
        ColType::Integer => quote_string("Integer"),
        ColType::Text => quote_string("Text"),
    };
    append_str(&mut s, v2.as_str());
    append_str(&mut s, "}");
    proof {
        reveal_strlit("{");
        reveal_strlit("col_type");
        reveal_strlit(":");
        reveal_strlit("Integer");
        reveal_strlit("Text");
        reveal_strlit(",");
        reveal_strlit("name");
        reveal_strlit("}");
        assert("col_type"@ =~= col_type_key());
        assert("name"@ =~= name_key());
        assert(v2@ == json_string(coltype_text(c@.col_type))) by {
            assert("Integer"@ =~= coltype_text(ColType::Integer));
            assert("Text"@ =~= coltype_text(ColType::Text));
        }
        assert(s@ =~= column_text(c@));
    }
    s
}

/// The JSON text a schema is stored as.
pub fn schema_json(schema: &Schema) -> (r: String)
    ensures
        r@ == schema_text(schema@),
{
    let mut s = String::new();
    append_str(&mut s, "{");
    let k1 = quote_string("table_name");
    append_str(&mut s, k1.as_str());
    append_str(&mut s, ":");
    let q = quote_string(schema.table_name.as_str());
    append_str(&mut s, q.as_str());
    append_str(&mut s, ",");
    let k2 = quote_string("columns");
    append_str(&mut s, k2.as_str());
    append_str(&mut s, ":[");
    let ghost head = s@;
    let ghost cols = schema@.columns;
    let mut i: usize = 0;
    while i < schema.columns.len()
        invariant
            i <= schema.columns.len(),
            cols == schema@.columns,
            s@ == head + columns_text(cols.take(i as int)),
        decreases schema.columns.len() - i,
    {
        let ghost before = s@;
        if i > 0 {
            append_str(&mut s, ",");
            proof {
                reveal_strlit(",");
            }
        }
        let t = column_json(&schema.columns[i]);
        append_str(&mut s, t.as_str());
        proof {
            let p = cols.take(i + 1);
            assert(p.drop_last() =~= cols.take(i as int));
            assert(p.last() == cols[i as int]);
            if i == 0 {
                assert(columns_text(cols.take(0)) =~= Seq::<char>::empty());
                assert(s@ =~= head + columns_text(p));
            } else {
                assert(s@ =~= head + columns_text(p));
            }
        }
        i = i + 1;
    }
    append_str(&mut s, "]}");
    proof {
        reveal_strlit("{");
        reveal_strlit("columns");
        reveal_strlit(":[");
        reveal_strlit("]}");
        reveal_strlit("table_name");
        reveal_strlit(":");
        reveal_strlit(",");
        assert("columns"@ =~= columns_key());
        assert("table_name"@ =~= table_name_key());
        assert(cols.take(cols.len() as int) =~= cols);
        assert(s@ =~= schema_text(schema@));
    }
    s
}

/// The column type a variant name names.
pub open spec fn coltype_named(t: Seq<char>) -> Option<ColType> {
    if t == coltype_text(ColType::Integer) {
        Some(ColType::Integer)
    } else if t == coltype_text(ColType::Text) {
        Some(ColType::Text)
    } else {
        None
    }
}

/// The column type a stored value names, in either form serde_json reads a
/// unit variant from: the string `"Integer"`, or the object
/// `{"Integer":null}`.
pub open spec fn decode_coltype(v: JsonV) -> Option<ColType> {
    match v {
        JsonV::Str(t) => coltype_named(t),
        JsonV::Compound(text) => match json_object(encode_utf8(text)) {
            Some(e) => if e.len() == 1 && e[0].1 == JsonV::Null {
                coltype_named(e[0].0)
            } else {
                None
            },
            None => None,
        },
        _ => None,
    }
}

/// A column from the values of its fields: a string name and a type.
pub open spec fn column_of(name: Option<JsonV>, ct: Option<JsonV>) -> Option<ColumnV> {
    match (name, ct) {
        (Some(JsonV::Str(n)), Some(t)) => match decode_coltype(t) {
            Some(c) => Some(ColumnV { name: n, col_type: c }),
            None => None,
        },
        _ => None,
    }
}

/// A stored column, in either form serde_json reads a struct from: an object
/// with the fields `name` and `col_type` (others ignored), or an array of
/// exactly the two values in field order.
pub open spec fn decode_column(v: JsonV) -> Option<ColumnV> {
    match v {
        JsonV::Compound(t) => match json_object(encode_utf8(t)) {
            Some(e) => column_of(lookup(e, name_key()), lookup(e, col_type_key())),
            None => match json_array(encode_utf8(t)) {
                Some(a) => if a.len() == 2 {
                    column_of(Some(a[0]), Some(a[1]))
                } else {
                    None
                },
                None => None,
            },
        },
        _ => None,
    }
}

/// Stored columns: each element a stored column.
pub open spec fn decode_columns(a: Seq<JsonV>) -> Option<Seq<ColumnV>> {
    if forall|i: int| 0 <= i < a.len() ==> (#[trigger] decode_column(a[i])) is Some {
        Some(a.map_values(|v: JsonV| decode_column(v).unwrap()))
    } else {
        None
    }
}

/// A schema from the values of its fields: a string table name and an array
/// of stored columns.
pub open spec fn schema_of(name: Option<JsonV>, cols: Option<JsonV>) -> Option<SchemaV> {
    match (name, cols) {
        (Some(JsonV::Str(t)), Some(JsonV::Compound(ct))) => match json_array(encode_utf8(ct)) {
            Some(a) => match decode_columns(a) {
                Some(cs) => Some(SchemaV { table_name: t, columns: cs }),
                None => None,
            },
            None => None,
        },
        _ => None,
    }
}

/// The schema that stored bytes hold, in either form serde_json reads a
/// struct from: a JSON object with the fields `table_name` and `columns`
/// (others ignored), or an array of exactly the two values in field order.
pub open spec fn decode_schema(b: Seq<u8>) -> Option<SchemaV> {
    match json_object(b) {
        Some(e) => schema_of(lookup(e, table_name_key()), lookup(e, columns_key())),
        None => match json_array(b) {
            Some(a) => if a.len() == 2 {
                schema_of(Some(a[0]), Some(a[1]))
            } else {
                None
            },
            None => None,
        },
    }
}

/// The view of an optional value.
pub open spec fn opt_view(o: Option<Json>) -> Option<JsonV> {
    match o {
        Some(j) => Some(j@),
        None => None,
    }
}

/// A copy of an optional value.
fn copy_opt(o: Option<&Json>) -> (r: Option<Json>)
    ensures
        opt_view(r) == match o {
            Some(j) => Some(j@),
            None => None::<JsonV>,
        },
{
    match o {
        Some(j) => Some(j.duplicate()),
        None => None,
    }
}

/// The two fields of a stored struct: from an object, the values under the
/// two keys; from an array of exactly two values, those values; `None` where
/// the bytes hold neither.
fn struct_fields(bytes: &[u8], k0: &str, k1: &str) -> (r: Option<(Option<Json>, Option<Json>)>)
    ensures
        match r {
            Some((a, b)) => match json_object(bytes@) {
                Some(e) => opt_view(a) == lookup(e, k0@) && opt_view(b) == lookup(e, k1@),
                None => match json_array(bytes@) {
                    Some(v) => v.len() == 2 && opt_view(a) == Some(v[0]) && opt_view(b) == Some(v[1]),
                    None => false,
                },
            },
            None => json_object(bytes@) is None && (json_array(bytes@) matches Some(v) ==> v.len()
                != 2),
        },
        forall|t: JsonTree|
            t is Obj && tree_within(t, 127) && bytes@ == #[trigger] encode_utf8(tree_text(t)) ==> (r matches Some(
                (a, b),
            ) && opt_view(a) == lookup(
                canon(t)->Obj_0.map_values(|m: (Seq<char>, JsonTree)| (m.0, tree_cell(m.1))),
                k0@,
            ) && opt_view(b) == lookup(
                canon(t)->Obj_0.map_values(|m: (Seq<char>, JsonTree)| (m.0, tree_cell(m.1))),
                k1@,
            )),
{
    match parse_object(bytes) {
        Ok(e) => {
            let a = copy_opt(find_entry(&e, k0));
            let b = copy_opt(find_entry(&e, k1));
            Some((a, b))
        },
        Err(_) => match parse_array(bytes) {
            Ok(v) => {
                if v.len() == 2 {
                    assert(v@.map_values(|j: Json| j@)[0] == v@[0]@);
                    assert(v@.map_values(|j: Json| j@)[1] == v@[1]@);
                    Some((Some(v[0].duplicate()), Some(v[1].duplicate())))
                } else {
                    None
                }
            },
            Err(_) => None,
        },
    }
}

/// The column type a stored value names.
fn decode_coltype_value(v: &Json) -> (r: Option<ColType>)
    ensures
        r == decode_coltype(v@),
{
    let name: String = match v {
        Json::Str(t) => t.clone(),
        Json::Compound(text) => match parse_object(text.as_str().as_bytes()) {
            Ok(e) => {
                if e.len() == 1 {
                    let ghost ev = entries_view(e@);
                    assert(ev[0] == (e@[0].0@, e@[0].1@));
                    match &e[0].1 {
                        Json::Null => e[0].0.clone(),
                        _ => return None,
                    }
                } else {
                    return None;
                }
            },
            Err(_) => return None,
        },
        _ => return None,
    };
    let cc = chars_of(name.as_str());
    let w = cc.as_slice();
    if chars_eq(w, &['I', 'n', 't', 'e', 'g', 'e', 'r']) {
        Some(ColType::Integer)
    } else if chars_eq(w, &['T', 'e', 'x', 't']) {
        Some(ColType::Text)
    } else {
        None
    }
}

fn decode_column_value(v: &Json) -> (r: Option<Column>)
    ensures
        match decode_column(v@) {
            Some(c) => r matches Some(x) && x@ == c,
            None => r is None,
        },
        forall|c: ColumnV| v@ == JsonV::Compound(#[trigger] sorted_column_text(c)) ==> decode_column(v@) == Some(c),
{
    match v {
        Json::Compound(t) => {
            let fields = struct_fields(t.as_str().as_bytes(), "name", "col_type");
            proof {
                reveal_strlit("name");
                reveal_strlit("col_type");
                assert("name"@ =~= name_key());
                assert("col_type"@ =~= col_type_key());
                assert forall|c: ColumnV| v@ == JsonV::Compound(#[trigger] sorted_column_text(c)) implies decode_column(
                    v@,
                ) == Some(c) by {
                    lemma_column_tree(c);
                    let cells = seq![
                        (col_type_key(), JsonV::Str(coltype_text(c.col_type))),
                        (name_key(), JsonV::Str(c.name)),
                    ];
                    assert(encode_utf8(t@) == encode_utf8(tree_text(sorted_column_tree(c))));
                    assert(cells.drop_first() =~= seq![(name_key(), JsonV::Str(c.name))]);
                    assert(col_type_key().len() != name_key().len());
                    assert(lookup(cells.drop_first(), name_key()) == Some(JsonV::Str(c.name)));
                    assert(lookup(cells, name_key()) == Some(JsonV::Str(c.name)));
                    assert(lookup(cells, col_type_key()) == Some(JsonV::Str(coltype_text(c.col_type))));
                    assert(coltype_named(coltype_text(c.col_type)) == Some(c.col_type));
                }
            }
            match fields {
                Some((Some(Json::Str(n)), Some(ct))) => match decode_coltype_value(&ct) {
                    Some(col_type) => Some(Column { name: n, col_type }),
                    None => None,
                },
                _ => None,
            }
        },
        _ => None,
    }
}

/// The stored text of the schema `s` is `bytes`.
pub open spec fn holds_schema(bytes: Seq<u8>, s: SchemaV) -> bool {
    bytes == encode_utf8(schema_text(s))
}

/// Reads a schema from its stored bytes; the text a schema is stored as reads
/// back as that schema.
pub fn decode_schema_bytes(bytes: &[u8]) -> (r: Result<Schema, serde_json::Error>)
    ensures
        match decode_schema(bytes@) {
            Some(s) => r matches Ok(x) && x@ == s,
            None => r is Err,
        },
        forall|s: SchemaV| #[trigger] holds_schema(bytes@, s) ==> decode_schema(bytes@) == Some(s),
{
    let fields = struct_fields(bytes, "table_name", "columns");
    proof {
        reveal_strlit("table_name");
        reveal_strlit("columns");
        assert("table_name"@ =~= table_name_key());
        assert("columns"@ =~= columns_key());
        assert forall|s: SchemaV| #[trigger] holds_schema(bytes@, s) implies fields matches Some((tn, cs))
            && opt_view(tn) == Some(JsonV::Str(s.table_name)) && opt_view(cs) == Some(
            JsonV::Compound(tree_text(sorted_columns_tree(s.columns))),
        ) by {
            lemma_schema_tree(s);
            assert(bytes@ == encode_utf8(tree_text(schema_tree(s))));
            let cells = seq![
                (columns_key(), JsonV::Compound(tree_text(sorted_columns_tree(s.columns)))),
                (table_name_key(), JsonV::Str(s.table_name)),
            ];
            assert(cells.drop_first() =~= seq![(table_name_key(), JsonV::Str(s.table_name))]);
            assert(columns_key().len() != table_name_key().len());
            assert(lookup(cells.drop_first(), table_name_key()) == Some(JsonV::Str(s.table_name)));
            assert(lookup(cells, table_name_key()) == Some(JsonV::Str(s.table_name)));
        }
    }
    let (tn, cs) = match fields {
        Some(f) => f,
        None => return Err(custom_error("invalid type: expected struct Schema")),
    };
    assert(decode_schema(bytes@) == schema_of(opt_view(tn), opt_view(cs)));
    let (table_name, text) = match (tn, cs) {
        (Some(Json::Str(t)), Some(Json::Compound(c))) => (t, c),
        _ => return Err(custom_error("invalid schema fields")),
    };
    let pa = parse_array(text.as_str().as_bytes());
    proof {
        assert forall|s: SchemaV| #[trigger] holds_schema(bytes@, s) implies pa matches Ok(a) && a@.map_values(
            |j: Json| j@,
        ) == s.columns.map_values(|c: ColumnV| JsonV::Compound(sorted_column_text(c))) by {
            lemma_schema_tree(s);
            let sarr = sorted_columns_tree(s.columns);
            assert(text@ == tree_text(sarr));
            assert(encode_utf8(text@) == encode_utf8(tree_text(sarr)));
            assert(sarr->Arr_0.map_values(|m: JsonTree| tree_cell(m)) =~= s.columns.map_values(
                |c: ColumnV| JsonV::Compound(sorted_column_text(c)),
            ));
        }
    }
    let a = match pa {
        Ok(a) => a,
        Err(x) => return Err(x),
    };
    let ghost av = a@.map_values(|j: Json| j@);
    let ghost expected = match decode_columns(av) {
        Some(cs) => Some(SchemaV { table_name: table_name@, columns: cs }),
        None => None,
    };
    assert(json_array(encode_utf8(text@)) == Some(av));
    assert(schema_of(Some(JsonV::Str(table_name@)), Some(JsonV::Compound(text@))) == expected);
    assert(decode_schema(bytes@) == expected);
    let mut columns: Vec<Column> = Vec::new();
    let mut i: usize = 0;
    while i < a.len()
        invariant
            i <= a.len(),
            av == a@.map_values(|j: Json| j@),
            decode_schema(bytes@) == expected,
            expected == match decode_columns(av) {
                Some(cs) => Some(SchemaV { table_name: table_name@, columns: cs }),
                None => None,
            },
            columns@.len() == i,
            forall|k: int| 0 <= k < i ==> (#[trigger] decode_column(av[k])) == Some(columns@[k]@),
            forall|s: SchemaV| #[trigger]
                holds_schema(bytes@, s) ==> av == s.columns.map_values(
                    |c: ColumnV| JsonV::Compound(sorted_column_text(c)),
                ) && table_name@ == s.table_name,
            forall|s: SchemaV, k: int|
                #![trigger holds_schema(bytes@, s), columns@[k]]
                holds_schema(bytes@, s) && 0 <= k < i ==> columns@[k]@ == s.columns[k],
        decreases a.len() - i,
    {
        let d = decode_column_value(&a[i]);
        assert(av[i as int] == a@[i as int]@);
        match d {
            Some(c) => {
                proof {
                    assert forall|s: SchemaV| #[trigger] holds_schema(bytes@, s) implies c@ == s.columns[i as int] by {
                        assert(av[i as int] == JsonV::Compound(sorted_column_text(s.columns[i as int])));
                    }
                }
                columns.push(c);
            },
            None => {
                assert(decode_column(av[i as int]) is None);
                assert(decode_columns(av) is None);
                proof {
                    assert forall|s: SchemaV| #[trigger] holds_schema(bytes@, s) implies false by {
                        assert(av[i as int] == JsonV::Compound(sorted_column_text(s.columns[i as int])));
                    }
                }
                return Err(custom_error("invalid column"));
            },
        }
        i = i + 1;
    }
    proof {
        assert(columns_view(columns@) =~= av.map_values(|v: JsonV| decode_column(v).unwrap()));
        assert forall|s: SchemaV| #[trigger] holds_schema(bytes@, s) implies decode_schema(bytes@) == Some(
            s,
        ) by {
            assert(columns_view(columns@) =~= s.columns);
        }
    }
    Ok(Schema { table_name: table_name.clone(), columns })
}

// ── The catalog ──────────────────────────────────────────────────────────────

/// `catalog:`
pub open spec fn catalog_prefix() -> Seq<char> {
    seq!['c', 'a', 't', 'a', 'l', 'o', 'g', ':']
}

/// The key under which the schema of `table_name` is stored:
/// `catalog:<table_name>` in UTF-8.
pub open spec fn catalog_key_of(table_name: Seq<char>) -> Seq<u8> {
    encode_utf8(catalog_prefix() + table_name)
}

/// The key under which the schema of `table_name` is stored.
pub fn catalog_key(table_name: &str) -> (r: Vec<u8>)
    ensures
        r@ == catalog_key_of(table_name@),
{
    let mut s = String::new();
    append_str(&mut s, "catalog:");
    append_str(&mut s, table_name);
    proof {
        reveal_strlit("catalog:");
        assert(s@ =~= catalog_prefix() + table_name@);
    }
    bytes_to_vec(s.as_str().as_bytes())
}

/// A failed catalog operation.
#[derive(Debug)]
pub enum CatalogError {
    TableAlreadyExists(String),
    TableNotFound(String),
    Storage(StorageError),
    Deserialise(serde_json::Error),
}

/// `l` lists, in increasing order of keys, the entries of `m` under `catalog:`.
pub open spec fn catalog_listing(m: Map<Seq<u8>, Seq<u8>>, l: Seq<(Seq<u8>, Seq<u8>)>) -> bool {
    lists_entries(m, |k: Seq<u8>| encode_utf8(catalog_prefix()).is_prefix_of(k), l)
}

/// The schemas of the tables, read and written through a store.
pub struct Catalog<'a> {
    storage: &'a mut Storage,
}

/// Stores a new schema under its table's name; fails if one is stored
/// there already.
pub fn write_schema(storage: &mut Storage, schema: Schema) -> (r: Result<(), CatalogError>)
    ensures
                match r {
            Ok(()) => !old(storage)@.contains_key(catalog_key_of(schema@.table_name))
                && final(storage)@ == old(storage)@.insert(
                catalog_key_of(schema@.table_name),
                encode_utf8(schema_text(schema@)),
            ),
            Err(CatalogError::TableAlreadyExists(n)) => n@ == schema@.table_name
                && old(storage)@.contains_key(catalog_key_of(schema@.table_name)) && final(storage)@ == old(storage)@,
            Err(CatalogError::Storage(_)) => true,
            Err(_) => false,
        },
{
    let key = catalog_key(schema.table_name.as_str());
    let found = match storage.get(key.as_slice()) {
        Ok(f) => f,
        Err(e) => return Err(CatalogError::Storage(e)),
    };
    if found.is_some() {
        return Err(CatalogError::TableAlreadyExists(schema.table_name));
    }
    let text = schema_json(&schema);
    match storage.put(key.as_slice(), text.as_str().as_bytes()) {
        Ok(()) => Ok(()),
        Err(e) => Err(CatalogError::Storage(e)),
    }
}

/// The schema stored for `table_name`. The text stored for a schema (see
/// `write_schema`) reads back as that schema, unless the store fails.
pub fn read_schema(storage: &Storage, table_name: &str) -> (r: Result<Schema, CatalogError>)
    ensures
        match r {
            Ok(s) => storage@.contains_key(catalog_key_of(table_name@)) && decode_schema(
                storage@[catalog_key_of(table_name@)],
            ) == Some(s@),
            Err(CatalogError::TableNotFound(n)) => n@ == table_name@ && !storage@.contains_key(
                catalog_key_of(table_name@),
            ),
            Err(CatalogError::Deserialise(_)) => storage@.contains_key(
                catalog_key_of(table_name@),
            ) && decode_schema(storage@[catalog_key_of(table_name@)]) is None,
            Err(CatalogError::Storage(_)) => true,
            Err(CatalogError::TableAlreadyExists(_)) => false,
        },
        forall|s: SchemaV|
            storage@.contains_key(catalog_key_of(table_name@)) && #[trigger] holds_schema(
                storage@[catalog_key_of(table_name@)],
                s,
            ) ==> (r matches Ok(x) && x@ == s) || r matches Err(CatalogError::Storage(_)),
{
    let key = catalog_key(table_name);
    let found = match storage.get(key.as_slice()) {
        Ok(f) => f,
        Err(e) => return Err(CatalogError::Storage(e)),
    };
    match found {
        Some(bytes) => match decode_schema_bytes(bytes.as_slice()) {
            Ok(s) => Ok(s),
            Err(e) => Err(CatalogError::Deserialise(e)),
        },
        None => Err(CatalogError::TableNotFound(table_name.to_owned())),
    }
}

/// Whether a schema is stored for `table_name`.
pub fn has_schema(storage: &Storage, table_name: &str) -> (r: Result<bool, CatalogError>)
    ensures
        match r {
            Ok(b) => b == storage@.contains_key(catalog_key_of(table_name@)),
            Err(e) => e is Storage,
        },
{
    let key = catalog_key(table_name);
    match storage.get(key.as_slice()) {
        Ok(f) => Ok(f.is_some()),
        Err(e) => Err(CatalogError::Storage(e)),
    }
}

/// Removes the schema of `table_name`; fails if there is none. The
/// table's rows are left in the store.
pub fn remove_schema(storage: &mut Storage, table_name: &str) -> (r: Result<(), CatalogError>)
    ensures
                match r {
            Ok(()) => old(storage)@.contains_key(catalog_key_of(table_name@)) && final(storage)@ == old(storage)@.remove(catalog_key_of(table_name@)),
            Err(CatalogError::TableNotFound(n)) => n@ == table_name@ && !old(storage)@.contains_key(catalog_key_of(table_name@)) && final(storage)@ == old(storage)@,
            Err(CatalogError::Storage(_)) => true,
            Err(_) => false,
        },
{
    let key = catalog_key(table_name);
    let existed = match storage.delete(key.as_slice()) {
        Ok(b) => b,
        Err(e) => return Err(CatalogError::Storage(e)),
    };
    if !existed {
        assert(old(storage)@.remove(key@) =~= old(storage)@);
        return Err(CatalogError::TableNotFound(table_name.to_owned()));
    }
    Ok(())
}

/// The names of the tables whose schemas are stored, in the order of
/// their keys; a name that is not valid UTF-8 is read with replacement
/// characters.
pub fn schema_names(storage: &Storage) -> (r: Result<Vec<String>, CatalogError>)
    ensures
        match r {
            Ok(names) => names@.len() == scan(storage@, encode_utf8(catalog_prefix())).len()
                && forall|i: int|
                0 <= i < names@.len() ==> #[trigger] names@[i]@ == utf8_lossy(
                    scan(storage@, encode_utf8(catalog_prefix()))[i].0.skip(8),
                ),
            Err(e) => e is Storage,
        },
{
    let prefix = catalog_key("");
    proof {
        reveal_strlit("");
        assert(catalog_prefix() + ""@ =~= catalog_prefix());
    }
    let pairs = match storage.scan_prefix(prefix.as_slice()) {
        Ok(p) => p,
        Err(e) => return Err(CatalogError::Storage(e)),
    };
    let ghost l = crate::storage::pairs_view(pairs@);
    let mut names: Vec<String> = Vec::new();
    let mut i: usize = 0;
    while i < pairs.len()
        invariant
            i <= pairs.len(),
            l == crate::storage::pairs_view(pairs@),
            catalog_listing(storage@, l),
            prefix@ == encode_utf8(catalog_prefix()),
            names@.len() == i,
            forall|j: int| 0 <= j < i ==> #[trigger] names@[j]@ == utf8_lossy(l[j].0.skip(8)),
        decreases pairs.len() - i,
    {
        let k = pairs[i].0.as_slice();
        proof {
            assert(l[i as int].0 == k@);
            assert(prefix@.is_prefix_of(k@));
            assert(encode_utf8(catalog_prefix()).len() == 8) by {
                reveal_with_fuel(encode_utf8, 9);
            }
        }
        let rest = crate::text::bytes_from(k, 8);
        names.push(lossy_string(rest.as_slice()));
        i = i + 1;
    }
    Ok(names)
}

// ── Laws of the catalog ──────────────────────────────────────────────────────

/// Different table names have different catalog keys.
pub proof fn law_catalog_keys_distinct(t: Seq<char>, u: Seq<char>)
    requires
        t != u,
    ensures
        catalog_key_of(t) != catalog_key_of(u),
{
    let a = catalog_prefix() + t;
    let b = catalog_prefix() + u;
    vstd::utf8::encode_utf8_decode_utf8(a);
    vstd::utf8::encode_utf8_decode_utf8(b);
    assert(a.skip(8) =~= t);
    assert(b.skip(8) =~= u);
}

/// Creating or dropping the schema of one table leaves the schema of every
/// other table as it was: present with the same text, or absent.
pub proof fn law_tables_kept_apart(m: Map<Seq<u8>, Seq<u8>>, t: Seq<char>, u: Seq<char>, text: Seq<u8>)
    requires
        t != u,
    ensures
        m.insert(catalog_key_of(t), text).contains_key(catalog_key_of(u)) == m.contains_key(
            catalog_key_of(u),
        ),
        m.contains_key(catalog_key_of(u)) ==> m.insert(catalog_key_of(t), text)[catalog_key_of(u)]
            == m[catalog_key_of(u)],
        m.remove(catalog_key_of(t)).contains_key(catalog_key_of(u)) == m.contains_key(
            catalog_key_of(u),
        ),
        m.contains_key(catalog_key_of(u)) ==> m.remove(catalog_key_of(t))[catalog_key_of(u)]
            == m[catalog_key_of(u)],
{
    law_catalog_keys_distinct(t, u);
}

/// Once a table's schema is created, the table exists (and a second create
/// of it cannot succeed); once dropped, it does not.
pub proof fn law_create_drop_exists(m: Map<Seq<u8>, Seq<u8>>, s: SchemaV)
    ensures
        m.insert(catalog_key_of(s.table_name), encode_utf8(schema_text(s))).contains_key(
            catalog_key_of(s.table_name),
        ),
        !m.remove(catalog_key_of(s.table_name)).contains_key(catalog_key_of(s.table_name)),
{
}

impl<'a> Catalog<'a> {
    /// What the store holds now.
    pub closed spec fn store(&self) -> Map<Seq<u8>, Seq<u8>> {
        self.storage@
    }

    /// The borrowed store; what it holds when the catalog is done with it is
    /// `*final(c.storage_ref())`.
    pub closed spec fn storage_ref(&self) -> &'a mut Storage {
        self.storage
    }

    pub fn new(storage: &'a mut Storage) -> (c: Catalog<'a>)
        ensures
            c.store() == old(storage)@,
            *final(c.storage_ref()) == *final(storage),
    {
        Catalog { storage }
    }

    /// Stores a new schema under its table's name; fails if one is stored
    /// there already.
    pub fn create_table(&mut self, schema: Schema) -> (r: Result<(), CatalogError>)
        ensures
            *final(final(self).storage_ref()) == *final(old(self).storage_ref()),
            match r {
                Ok(()) => !old(self).store().contains_key(catalog_key_of(schema@.table_name))
                    && final(self).store() == old(self).store().insert(
                    catalog_key_of(schema@.table_name),
                    encode_utf8(schema_text(schema@)),
                ),
                Err(CatalogError::TableAlreadyExists(n)) => n@ == schema@.table_name
                    && old(self).store().contains_key(catalog_key_of(schema@.table_name)) && final(self).store() == old(self).store(),
                Err(CatalogError::Storage(_)) => true,
                Err(_) => false,
            },
    {
        write_schema(self.storage, schema)
    }

    /// The schema stored for `table_name`. The text `create_table` stores for
    /// a schema reads back as that schema, unless the store fails.
    pub fn get_schema(&self, table_name: &str) -> (r: Result<Schema, CatalogError>)
        ensures
            match r {
                Ok(s) => self.store().contains_key(catalog_key_of(table_name@)) && decode_schema(
                    self.store()[catalog_key_of(table_name@)],
                ) == Some(s@),
                Err(CatalogError::TableNotFound(n)) => n@ == table_name@ && !self.store().contains_key(
                    catalog_key_of(table_name@),
                ),
                Err(CatalogError::Deserialise(_)) => self.store().contains_key(
                    catalog_key_of(table_name@),
                ) && decode_schema(self.store()[catalog_key_of(table_name@)]) is None,
                Err(CatalogError::Storage(_)) => true,
                Err(CatalogError::TableAlreadyExists(_)) => false,
            },
            forall|s: SchemaV|
                self.store().contains_key(catalog_key_of(table_name@)) && #[trigger] holds_schema(
                    self.store()[catalog_key_of(table_name@)],
                    s,
                ) ==> (r matches Ok(x) && x@ == s) || r matches Err(CatalogError::Storage(_)),
    {
        read_schema(self.storage, table_name)
    }

    /// Whether a schema is stored for `table_name`.
    pub fn table_exists(&self, table_name: &str) -> (r: Result<bool, CatalogError>)
        ensures
            match r {
                Ok(b) => b == self.store().contains_key(catalog_key_of(table_name@)),
                Err(e) => e is Storage,
            },
    {
        has_schema(self.storage, table_name)
    }

    /// Removes the schema of `table_name`; fails if there is none. The
    /// table's rows are left in the store.
    pub fn drop_table(&mut self, table_name: &str) -> (r: Result<(), CatalogError>)
        ensures
            *final(final(self).storage_ref()) == *final(old(self).storage_ref()),
            match r {
                Ok(()) => old(self).store().contains_key(catalog_key_of(table_name@)) && final(self).store() == old(self).store().remove(catalog_key_of(table_name@)),
                Err(CatalogError::TableNotFound(n)) => n@ == table_name@ && !old(self).store().contains_key(catalog_key_of(table_name@)) && final(self).store() == old(self).store(),
                Err(CatalogError::Storage(_)) => true,
                Err(_) => false,
            },
    {
        remove_schema(self.storage, table_name)
    }

    /// The names of the tables whose schemas are stored, in the order of
    /// their keys; a name that is not valid UTF-8 is read with replacement
    /// characters.
    pub fn list_tables(&self) -> (r: Result<Vec<String>, CatalogError>)
        ensures
            match r {
                Ok(names) => names@.len() == scan(self.store(), encode_utf8(catalog_prefix())).len()
                    && forall|i: int|
                    0 <= i < names@.len() ==> #[trigger] names@[i]@ == utf8_lossy(
                        scan(self.store(), encode_utf8(catalog_prefix()))[i].0.skip(8),
                    ),
                Err(e) => e is Storage,
            },
    {
        schema_names(self.storage)
    }
}

} // verus!
