//! Rows as the executor holds them: JSON objects as lists of entries in
//! increasing order of keys, the order of serde_json's map.
use crate::json::{
    chars_lt, entries_plain, entries_view, is_plain, keys_sorted, lemma_chars_lt_asymmetric,
    lemma_chars_lt_irreflexive, lemma_chars_lt_total, lemma_chars_lt_transitive, lookup, text_lt,
    Json, JsonNumber, JsonNumberV, JsonV,
};
use crate::text::{append_str, chars_of, decimal_string, int_decimal};
use vstd::prelude::*;

verus! {

/// A row: its entries, as texts and values.
pub type RowV = Seq<(Seq<char>, JsonV)>;

/// The views of a sequence of rows.
pub open spec fn table_view(v: Seq<Vec<(String, Json)>>) -> Seq<RowV> {
    v.map_values(|r: Vec<(String, Json)>| entries_view(r@))
}

// ── Inserting into a map ─────────────────────────────────────────────────────

/// The row after `k` is set to `v`: the entry of `k` is replaced, or a new
/// entry goes before the first key after `k`.
pub open spec fn insert_entry(row: RowV, k: Seq<char>, v: JsonV) -> RowV
    decreases row.len(),
{
    if row.len() == 0 {
        seq![(k, v)]
    } else if row[0].0 == k {
        row.update(0, (k, v))
    } else if chars_lt(k, row[0].0) {
        seq![(k, v)] + row
    } else {
        seq![row[0]] + insert_entry(row.drop_first(), k, v)
    }
}

/// The row after each of the entries `e` is set, in order.
pub open spec fn insert_entries(row: RowV, e: RowV) -> RowV
    decreases e.len(),
{
    if e.len() == 0 {
        row
    } else {
        insert_entry(insert_entries(row, e.drop_last()), e.last().0, e.last().1)
    }
}

/// Past entries whose keys come before `k`, setting `k` leaves them in front.
proof fn lemma_insert_skip(row: RowV, k: Seq<char>, v: JsonV, i: int)
    requires
        0 <= i <= row.len(),
        forall|j: int| 0 <= j < i ==> chars_lt(#[trigger] row[j].0, k),
    ensures
        insert_entry(row, k, v) == row.take(i) + insert_entry(row.skip(i), k, v),
    decreases i,
{
    if i == 0 {
        assert(row.skip(0) =~= row);
        assert(row.take(0) + row =~= row);
    } else {
        lemma_insert_skip(row.drop_first(), k, v, i - 1);
        assert(chars_lt(row[0].0, k));
        lemma_chars_lt_irreflexive(k);
        lemma_chars_lt_asymmetric(k, row[0].0);
        assert(row.drop_first().skip(i - 1) =~= row.skip(i));
        assert(seq![row[0]] + row.drop_first().take(i - 1) =~= row.take(i));
        assert(forall|j: int|
            0 <= j < i - 1 ==> #[trigger] row.drop_first()[j] == row[j + 1]);
        assert(insert_entry(row, k, v) == seq![row[0]] + insert_entry(row.drop_first(), k, v));
        assert(seq![row[0]] + (row.drop_first().take(i - 1) + insert_entry(row.skip(i), k, v))
            =~= row.take(i) + insert_entry(row.skip(i), k, v));
    }
}

/// A key below `k` and below every key of a row is below every key after `k`
/// is set.
pub proof fn lemma_insert_entry_bound(row: RowV, k: Seq<char>, v: JsonV, x: Seq<char>)
    requires
        forall|i: int| 0 <= i < row.len() ==> chars_lt(x, #[trigger] row[i].0),
        chars_lt(x, k),
    ensures
        forall|j: int|
            0 <= j < insert_entry(row, k, v).len() ==> chars_lt(x, #[trigger] insert_entry(row, k, v)[j].0),
    decreases row.len(),
{
    if row.len() > 0 && row[0].0 != k && !chars_lt(k, row[0].0) {
        assert forall|i: int| 0 <= i < row.drop_first().len() implies chars_lt(
            x,
            #[trigger] row.drop_first()[i].0,
        ) by {
            assert(row.drop_first()[i] == row[i + 1]);
        }
        lemma_insert_entry_bound(row.drop_first(), k, v, x);
        let r = insert_entry(row, k, v);
        assert forall|j: int| 0 <= j < r.len() implies chars_lt(x, #[trigger] r[j].0) by {
            if j > 0 {
                assert(r[j] == insert_entry(row.drop_first(), k, v)[j - 1]);
            }
        }
    }
}

/// Setting a key keeps the keys of a row in increasing order.
pub proof fn lemma_insert_entry_sorted(row: RowV, k: Seq<char>, v: JsonV)
    requires
        keys_sorted(row),
    ensures
        keys_sorted(insert_entry(row, k, v)),
    decreases row.len(),
{
    let r = insert_entry(row, k, v);
    if row.len() == 0 {
    } else if row[0].0 == k {
        assert forall|i: int, j: int| 0 <= i < j < r.len() implies chars_lt(r[i].0, r[j].0) by {
            if i == 0 {
                assert(chars_lt(row[0].0, row[j].0));
            } else {
                assert(chars_lt(row[i].0, row[j].0));
            }
        }
    } else if chars_lt(k, row[0].0) {
        assert forall|i: int, j: int| 0 <= i < j < r.len() implies chars_lt(r[i].0, r[j].0) by {
            if i == 0 {
                if j > 1 {
                    assert(chars_lt(row[0].0, row[j - 1].0));
                    lemma_chars_lt_transitive(k, row[0].0, row[j - 1].0);
                }
            } else {
                assert(chars_lt(row[i - 1].0, row[j - 1].0));
            }
        }
    } else {
        let rest = row.drop_first();
        assert(keys_sorted(rest)) by {
            assert forall|i: int, j: int| 0 <= i < j < rest.len() implies chars_lt(
                rest[i].0,
                rest[j].0,
            ) by {
                assert(chars_lt(row[i + 1].0, row[j + 1].0));
            }
        }
        lemma_insert_entry_sorted(rest, k, v);
        lemma_chars_lt_total(row[0].0, k);
        assert forall|i: int| 0 <= i < rest.len() implies chars_lt(row[0].0, #[trigger] rest[i].0) by {
            assert(chars_lt(row[0].0, row[i + 1].0));
        }
        lemma_insert_entry_bound(rest, k, v, row[0].0);
        let ir = insert_entry(rest, k, v);
        assert forall|i: int, j: int| 0 <= i < j < r.len() implies chars_lt(r[i].0, r[j].0) by {
            assert(r[j] == ir[j - 1]);
            if i > 0 {
                assert(r[i] == ir[i - 1]);
            }
        }
    }
}

/// Setting a plain value keeps every value of a row plain.
pub proof fn lemma_insert_entry_plain(row: RowV, k: Seq<char>, v: JsonV)
    requires
        entries_plain(row),
        is_plain(v),
    ensures
        entries_plain(insert_entry(row, k, v)),
    decreases row.len(),
{
    let r = insert_entry(row, k, v);
    if row.len() > 0 && row[0].0 != k && !chars_lt(k, row[0].0) {
        let rest = row.drop_first();
        assert(entries_plain(rest)) by {
            assert forall|i: int| 0 <= i < rest.len() implies is_plain(#[trigger] rest[i].1) by {
                assert(rest[i] == row[i + 1]);
            }
        }
        lemma_insert_entry_plain(rest, k, v);
        assert forall|j: int| 0 <= j < r.len() implies is_plain(#[trigger] r[j].1) by {
            if j > 0 {
                assert(r[j] == insert_entry(rest, k, v)[j - 1]);
            }
        }
    } else if row.len() > 0 && row[0].0 != k {
        assert forall|j: int| 0 <= j < r.len() implies is_plain(#[trigger] r[j].1) by {
            if j > 0 {
                assert(r[j] == row[j - 1]);
            }
        }
    }
}

/// Sets `k` to `v` in the row.
pub fn row_insert(row: &mut Vec<(String, Json)>, k: String, v: Json)
    ensures
        entries_view(final(row)@) == insert_entry(entries_view(old(row)@), k@, v@),
{
    let ghost e = entries_view(row@);
    let mut i: usize = 0;
    while i < row.len() && text_lt(row[i].0.as_str(), k.as_str())
        invariant
            i <= row.len(),
            e == entries_view(row@),
            forall|j: int| 0 <= j < i ==> chars_lt(#[trigger] e[j].0, k@),
        decreases row.len() - i,
    {
        assert(e[i as int].0 == row@[i as int].0@);
        i = i + 1;
    }
    proof {
        lemma_insert_skip(e, k@, v@, i as int);
    }
    let ghost kv = k@;
    let ghost vv = v@;
    if i < row.len() && row[i].0 == k {
        proof {
            assert(e.skip(i as int)[0] == e[i as int]);
            assert(insert_entry(e.skip(i as int), kv, vv) == e.skip(i as int).update(0, (kv, vv)));
        }
        row.set(i, (k, v));
        proof {
            assert(entries_view(row@) =~= e.take(i as int) + e.skip(i as int).update(
                0,
                (kv, vv),
            ));
        }
    } else {
        proof {
            if i < e.len() {
                assert(e.skip(i as int)[0] == e[i as int]);
                assert(e[i as int].0 != kv);
                assert(!chars_lt(e[i as int].0, kv));
                lemma_chars_lt_total(e[i as int].0, kv);
                assert(insert_entry(e.skip(i as int), kv, vv) == seq![(kv, vv)] + e.skip(
                    i as int,
                ));
            } else {
                assert(e.skip(i as int) =~= Seq::<(Seq<char>, JsonV)>::empty());
            }
        }
        row.insert(i, (k, v));
        proof {
            assert(entries_view(row@) =~= e.take(i as int) + (seq![(kv, vv)] + e.skip(
                i as int,
            )));
        }
    }
}

/// A copy of a row.
pub fn copy_row(row: &Vec<(String, Json)>) -> (r: Vec<(String, Json)>)
    ensures
        entries_view(r@) == entries_view(row@),
{
    let mut r: Vec<(String, Json)> = Vec::new();
    let mut i: usize = 0;
    while i < row.len()
        invariant
            i <= row.len(),
            entries_view(r@) == entries_view(row@).take(i as int),
        decreases row.len() - i,
    {
        let k = row[i].0.clone();
        let v = row[i].1.duplicate();
        let ghost before = r@;
        r.push((k, v));
        proof {
            assert(r@ == before.push((k, v)));
            assert(entries_view(r@) =~= entries_view(before).push((k@, v@)));
            assert(entries_view(row@).take(i + 1) =~= entries_view(row@).take(i as int).push(
                entries_view(row@)[i as int],
            ));
        }
        i = i + 1;
    }
    assert(entries_view(row@).take(row.len() as int) =~= entries_view(row@));
    r
}

/// Sets each of the entries `e` in the row, in order.
pub fn row_insert_all(row: &mut Vec<(String, Json)>, e: &Vec<(String, Json)>)
    ensures
        entries_view(final(row)@) == insert_entries(entries_view(old(row)@), entries_view(e@)),
{
    let ghost start = entries_view(row@);
    let ghost ev = entries_view(e@);
    let mut i: usize = 0;
    assert(ev.take(0) =~= Seq::<(Seq<char>, JsonV)>::empty());
    while i < e.len()
        invariant
            i <= e.len(),
            ev == entries_view(e@),
            entries_view(row@) == insert_entries(start, ev.take(i as int)),
        decreases e.len() - i,
    {
        row_insert(row, e[i].0.clone(), e[i].1.duplicate());
        assert(ev.take(i + 1).drop_last() =~= ev.take(i as int));
        i = i + 1;
    }
    assert(ev.take(e.len() as int) =~= ev);
}

// ── Qualified rows ───────────────────────────────────────────────────────────

/// `table.key` for each entry.
pub open spec fn qualified_entries(table: Seq<char>, row: RowV) -> RowV {
    row.map_values(|e: (Seq<char>, JsonV)| (table + seq!['.'] + e.0, e.1))
}

/// A row with each key prefixed by `table.`, gathered into a map again.
pub open spec fn qualify(table: Seq<char>, row: RowV) -> RowV {
    insert_entries(Seq::empty(), qualified_entries(table, row))
}

/// Prefixes every key of a row with `table_name.`, so that the rows of joined
/// tables keep apart.
pub fn qualify_row(table_name: &str, row: Vec<(String, Json)>) -> (r: Vec<(String, Json)>)
    ensures
        entries_view(r@) == qualify(table_name@, entries_view(row@)),
{
    let mut q: Vec<(String, Json)> = Vec::new();
    let mut i: usize = 0;
    while i < row.len()
        invariant
            i <= row.len(),
            q@.len() == i,
            forall|j: int|
                0 <= j < i ==> (#[trigger] entries_view(q@)[j]) == qualified_entries(
                    table_name@,
                    entries_view(row@),
                )[j],
        decreases row.len() - i,
    {
        let mut k = String::new();
        append_str(&mut k, table_name);
        append_str(&mut k, ".");
        append_str(&mut k, row[i].0.as_str());
        proof {
            reveal_strlit(".");
        }
        let v = row[i].1.duplicate();
        let ghost before = q@;
        q.push((k, v));
        proof {
            assert(q@ == before.push((k, v)));
            assert forall|j: int| 0 <= j < i + 1 implies (#[trigger] entries_view(q@)[j])
                == qualified_entries(table_name@, entries_view(row@))[j] by {
                if j < i {
                    assert(q@[j] == before[j]);
                    assert(entries_view(before)[j] == entries_view(q@)[j]);
                }
            }
        }
        i = i + 1;
    }
    assert(entries_view(q@) =~= qualified_entries(table_name@, entries_view(row@)));
    let mut r: Vec<(String, Json)> = Vec::new();
    assert(entries_view(r@) =~= Seq::<(Seq<char>, JsonV)>::empty());
    row_insert_all(&mut r, &q);
    r
}

// ── Looking up a column ──────────────────────────────────────────────────────

/// `k` ends with `suf`.
pub open spec fn has_suffix(k: Seq<char>, suf: Seq<char>) -> bool {
    suf.len() <= k.len() && k.skip(k.len() - suf.len()) == suf
}

/// The index of the first entry whose key ends with `suf`.
pub open spec fn first_suffix(row: RowV, suf: Seq<char>) -> Option<int>
    decreases row.len(),
{
    if row.len() == 0 {
        None
    } else if has_suffix(row[0].0, suf) {
        Some(0)
    } else {
        match first_suffix(row.drop_first(), suf) {
            Some(i) => Some(i + 1),
            None => None,
        }
    }
}

/// The value a column name finds in a row: the entry named exactly so, else
/// the first entry named `<table>.<column>`.
pub open spec fn resolve(row: RowV, column: Seq<char>) -> Option<JsonV> {
    match lookup(row, column) {
        Some(v) => Some(v),
        None => match first_suffix(row, seq!['.'] + column) {
            Some(i) => Some(row[i].1),
            None => None,
        },
    }
}

/// Whether `k` ends with `suf`.
pub fn ends_with(k: &str, suf: &Vec<char>) -> (r: bool)
    ensures
        r == has_suffix(k@, suf@),
{
    let c = chars_of(k);
    if suf.len() > c.len() {
        return false;
    }
    let off = c.len() - suf.len();
    let mut i: usize = 0;
    while i < suf.len()
        invariant
            i <= suf.len(),
            off + suf.len() == c.len(),
            c@ == k@,
            forall|j: int| 0 <= j < i ==> c@[off + j] == suf@[j],
        decreases suf.len() - i,
    {
        if c[off + i] != suf[i] {
            assert(c@.skip(off as int)[i as int] != suf@[i as int]);
            return false;
        }
        i = i + 1;
    }
    assert(c@.skip(off as int) =~= suf@);
    true
}

/// The index of the first entry of a row whose key ends with `suf`.
pub fn suffix_index(row: &Vec<(String, Json)>, suf: &Vec<char>) -> (r: Option<usize>)
    ensures
        match r {
            Some(i) => first_suffix(entries_view(row@), suf@) == Some(i as int) && i < row.len(),
            None => first_suffix(entries_view(row@), suf@) is None,
        },
{
    let ghost e = entries_view(row@);
    let mut i: usize = 0;
    assert(e.skip(0) =~= e);
    while i < row.len()
        invariant
            i <= row.len(),
            e == entries_view(row@),
            first_suffix(e, suf@) == match first_suffix(e.skip(i as int), suf@) {
                Some(o) => Some(o + i),
                None => None,
            },
        decreases row.len() - i,
    {
        assert(e.skip(i as int)[0] == e[i as int]);
        if ends_with(row[i].0.as_str(), suf) {
            assert(first_suffix(e.skip(i as int), suf@) == Some(0int));
            return Some(i);
        }
        assert(e.skip(i as int).drop_first() =~= e.skip(i + 1));
        i = i + 1;
    }
    assert(e.skip(i as int) =~= Seq::<(Seq<char>, JsonV)>::empty());
    None
}

/// `.column`
pub fn dotted(column: &str) -> (r: Vec<char>)
    ensures
        r@ == seq!['.'] + column@,
{
    let mut s = String::new();
    append_str(&mut s, ".");
    append_str(&mut s, column);
    proof {
        reveal_strlit(".");
        assert(s@ =~= seq!['.'] + column@);
    }
    chars_of(s.as_str())
}

/// The value a column name finds in a row.
pub fn resolve_column<'b>(row: &'b Vec<(String, Json)>, column: &str) -> (r: Option<&'b Json>)
    ensures
        match r {
            Some(j) => resolve(entries_view(row@), column@) == Some(j@),
            None => resolve(entries_view(row@), column@) is None,
        },
{
    match crate::json::find_entry(row, column) {
        Some(j) => Some(j),
        None => {
            let suf = dotted(column);
            match suffix_index(row, &suf) {
                Some(i) => Some(&row[i].1),
                None => None,
            }
        },
    }
}

// ── Showing values ───────────────────────────────────────────────────────────

/// How a value is shown in a result: numbers in decimal, strings as they
/// are, `NULL`, `true` or `false`, and anything else as its JSON text.
pub open spec fn display_json(v: JsonV) -> Seq<char> {
    match v {
        JsonV::Number(JsonNumberV::Int(i)) => int_decimal(i as int),
        JsonV::Number(JsonNumberV::Big(u)) => int_decimal(u as int),
        JsonV::Number(JsonNumberV::Float(t)) => t,
        JsonV::Str(s) => s,
        JsonV::Null => seq!['N', 'U', 'L', 'L'],
        JsonV::Bool(b) => if b {
            seq!['t', 'r', 'u', 'e']
        } else {
            seq!['f', 'a', 'l', 's', 'e']
        },
        JsonV::Compound(t) => t,
    }
}

/// The text a value is shown as.
pub fn display_value(v: &Json) -> (r: String)
    ensures
        r@ == display_json(v@),
{
    match v {
        Json::Number(JsonNumber::Int(i)) => decimal_string(*i as i128),
        Json::Number(JsonNumber::Big(u)) => decimal_string(*u as i128),
        Json::Number(JsonNumber::Float(t)) => t.clone(),
        Json::Str(s) => s.clone(),
        Json::Null => {
            let mut s = String::new();
            append_str(&mut s, "NULL");
            proof {
                reveal_strlit("NULL");
                assert(s@ =~= seq!['N', 'U', 'L', 'L']);
            }
            s
        },
        Json::Bool(b) => {
            let mut s = String::new();
            if *b {
                append_str(&mut s, "true");
                proof {
                    reveal_strlit("true");
                    assert(s@ =~= seq!['t', 'r', 'u', 'e']);
                }
            } else {
                append_str(&mut s, "false");
                proof {
                    reveal_strlit("false");
                    assert(s@ =~= seq!['f', 'a', 'l', 's', 'e']);
                }
            }
            s
        },
        Json::Compound(t) => t.clone(),
    }
}

} // verus!
