//! JSON values as rows and schemas hold them, and the serde_json calls that
//! read and write them.
//!
//! A stored row is a JSON object. Its values are kept flat: scalars as they
//! are, and an array or object (which only data written by other programs
//! holds) as its compact JSON text.
use serde_json::Value as JsonValue;
use vstd::prelude::*;
use vstd::utf8::encode_utf8;

verus! {

#[verifier::external_type_specification]
#[verifier::external_body]
pub struct ExJsonError(serde_json::Error);

#[verifier::external_type_specification]
#[verifier::external_body]
pub struct ExJsonValue(JsonValue);

#[verifier::external_type_specification]
#[verifier::external_body]
pub struct ExJsonNumberRepr(serde_json::Number);

/// A JSON number, in the three kinds serde_json keeps.
#[derive(Debug)]
pub enum JsonNumber {
    /// An integer that fits in an `i64`.
    Int(i64),
    /// An integer above `i64::MAX`.
    Big(u64),
    /// A floating-point number, by its text.
    Float(String),
}

/// A JSON value with any array or object kept as its text.
#[derive(Debug)]
pub enum Json {
    Null,
    Bool(bool),
    Number(JsonNumber),
    Str(String),
    Compound(String),
}

pub enum JsonNumberV {
    Int(i64),
    Big(u64),
    Float(Seq<char>),
}

pub enum JsonV {
    Null,
    Bool(bool),
    Number(JsonNumberV),
    Str(Seq<char>),
    Compound(Seq<char>),
}

impl View for JsonNumber {
    type V = JsonNumberV;

    open spec fn view(&self) -> JsonNumberV {
        match self {
            JsonNumber::Int(i) => JsonNumberV::Int(*i),
            JsonNumber::Big(u) => JsonNumberV::Big(*u),
            JsonNumber::Float(t) => JsonNumberV::Float(t@),
        }
    }
}

impl View for Json {
    type V = JsonV;

    open spec fn view(&self) -> JsonV {
        match self {
            Json::Null => JsonV::Null,
            Json::Bool(b) => JsonV::Bool(*b),
            Json::Number(n) => JsonV::Number(n@),
            Json::Str(s) => JsonV::Str(s@),
            Json::Compound(t) => JsonV::Compound(t@),
        }
    }
}

/// The entries of an object, as texts and values.
pub open spec fn entries_view(v: Seq<(String, Json)>) -> Seq<(Seq<char>, JsonV)> {
    v.map_values(|e: (String, Json)| (e.0@, e.1@))
}

/// The order of texts by character codes, the order of `String` (UTF-8 bytes
/// compare as their characters do).
pub open spec fn chars_lt(a: Seq<char>, b: Seq<char>) -> bool
    decreases a.len(),
{
    if a.len() == 0 {
        b.len() > 0
    } else if b.len() == 0 {
        false
    } else if a[0] < b[0] {
        true
    } else if a[0] == b[0] {
        chars_lt(a.drop_first(), b.drop_first())
    } else {
        false
    }
}

/// The keys of the entries increase strictly, as a serde_json map keeps them.
pub open spec fn keys_sorted(e: Seq<(Seq<char>, JsonV)>) -> bool {
    forall|i: int, j: int| 0 <= i < j < e.len() ==> chars_lt(e[i].0, e[j].0)
}

/// A value that is null, a boolean, an integer in the kind serde_json reads
/// it back as (`Int` up to `i64::MAX`, `Big` above), or a string.
pub open spec fn is_plain(v: JsonV) -> bool {
    match v {
        JsonV::Null | JsonV::Bool(_) | JsonV::Str(_) => true,
        JsonV::Number(JsonNumberV::Int(_)) => true,
        JsonV::Number(JsonNumberV::Big(u)) => u > i64::MAX,
        JsonV::Number(JsonNumberV::Float(_)) => false,
        JsonV::Compound(_) => false,
    }
}

/// Every value of the entries is plain.
pub open spec fn entries_plain(e: Seq<(Seq<char>, JsonV)>) -> bool {
    forall|i: int| 0 <= i < e.len() ==> is_plain(#[trigger] e[i].1)
}

/// -1, 0 or 1 as `x` is below, equal to or above `y`.
pub open spec fn int_order(x: i64, y: i64) -> i8 {
    if x < y {
        -1i8
    } else if x > y {
        1i8
    } else {
        0i8
    }
}

/// Integers of magnitude at most 2^53, which `f64` holds exactly.
pub open spec fn exact_in_f64(x: i64) -> bool {
    -0x20000000000000 <= x <= 0x20000000000000
}

/// The value of the first entry whose key is `k`.
pub open spec fn lookup(e: Seq<(Seq<char>, JsonV)>, k: Seq<char>) -> Option<JsonV>
    decreases e.len(),
{
    if e.len() == 0 {
        None
    } else if e[0].0 == k {
        Some(e[0].1)
    } else {
        lookup(e.drop_first(), k)
    }
}

/// The value of the first entry of `e` whose key is `key`.
pub fn find_entry<'b>(e: &'b Vec<(String, Json)>, key: &str) -> (r: Option<&'b Json>)
    ensures
        match r {
            Some(j) => lookup(entries_view(e@), key@) == Some(j@),
            None => lookup(entries_view(e@), key@) is None,
        },
{
    let ghost ev = entries_view(e@);
    let wanted = key.to_owned();
    let mut i: usize = 0;
    assert(ev.skip(0) =~= ev);
    while i < e.len()
        invariant
            i <= e.len(),
            ev == entries_view(e@),
            wanted@ == key@,
            lookup(ev, key@) == lookup(ev.skip(i as int), key@),
        decreases e.len() - i,
    {
        assert(ev.skip(i as int)[0] == ev[i as int]);
        if e[i].0 == wanted {
            return Some(&e[i].1);
        }
        assert(ev.skip(i as int).drop_first() =~= ev.skip(i + 1));
        i = i + 1;
    }
    None
}

// ── JSON texts that serde_json writes ────────────────────────────────────────

/// A JSON value made of strings, arrays and objects (entries in their order).
pub enum JsonTree {
    Str(Seq<char>),
    Arr(Seq<JsonTree>),
    Obj(Seq<(Seq<char>, JsonTree)>),
}

/// The compact JSON text of a value, as serde_json writes it: strings quoted
/// as `json_string` says, no spaces, entries in their order.
pub open spec fn tree_text(v: JsonTree) -> Seq<char>
    decreases v, 0int,
{
    match v {
        JsonTree::Str(s) => json_string(s),
        JsonTree::Arr(items) => seq!['['] + items_text(items, items.len() as int) + seq![']'],
        JsonTree::Obj(es) => seq!['{'] + members_text(es, es.len() as int) + seq!['}'],
    }
}

/// The texts of the first `n` items, separated by commas.
pub open spec fn items_text(items: Seq<JsonTree>, n: int) -> Seq<char>
    decreases items, n,
{
    if n <= 0 || n > items.len() {
        Seq::empty()
    } else if n == 1 {
        tree_text(items[0])
    } else {
        items_text(items, n - 1) + seq![','] + tree_text(items[n - 1])
    }
}

/// The texts `"key":value` of the first `n` entries, separated by commas.
pub open spec fn members_text(es: Seq<(Seq<char>, JsonTree)>, n: int) -> Seq<char>
    decreases es, n,
{
    if n <= 0 || n > es.len() {
        Seq::empty()
    } else if n == 1 {
        json_string(es[0].0) + seq![':'] + tree_text(es[0].1)
    } else {
        members_text(es, n - 1) + seq![','] + json_string(es[n - 1].0) + seq![':'] + tree_text(
            es[n - 1].1,
        )
    }
}

/// The value nests at most `d` arrays and objects (the value itself counts
/// as one where it is one).
pub open spec fn tree_within(v: JsonTree, d: int) -> bool
    decreases v, 0int,
{
    match v {
        JsonTree::Str(_) => true,
        JsonTree::Arr(items) => d > 0 && items_within(items, items.len() as int, d - 1),
        JsonTree::Obj(es) => d > 0 && members_within(es, es.len() as int, d - 1),
    }
}

/// The first `n` items nest at most `d` levels.
pub open spec fn items_within(items: Seq<JsonTree>, n: int, d: int) -> bool
    decreases items, n,
{
    if n <= 0 || n > items.len() {
        true
    } else {
        items_within(items, n - 1, d) && tree_within(items[n - 1], d)
    }
}

/// The values of the first `n` entries nest at most `d` levels.
pub open spec fn members_within(es: Seq<(Seq<char>, JsonTree)>, n: int, d: int) -> bool
    decreases es, n,
{
    if n <= 0 || n > es.len() {
        true
    } else {
        members_within(es, n - 1, d) && tree_within(es[n - 1].1, d)
    }
}

/// The entries with `(k, v)` set, as a serde_json map (a `BTreeMap`) keeps
/// them: keys in increasing order, a later value for a key replacing the
/// earlier one.
pub open spec fn insert_member(es: Seq<(Seq<char>, JsonTree)>, k: Seq<char>, v: JsonTree) -> Seq<
    (Seq<char>, JsonTree),
>
    decreases es.len(),
{
    if es.len() == 0 {
        seq![(k, v)]
    } else if es[0].0 == k {
        es.update(0, (k, v))
    } else if chars_lt(k, es[0].0) {
        seq![(k, v)] + es
    } else {
        seq![es[0]] + insert_member(es.drop_first(), k, v)
    }
}

/// The value as serde_json holds it once read: every object's entries set,
/// one after another, into a map.
pub open spec fn canon(v: JsonTree) -> JsonTree
    decreases v, 0int,
{
    match v {
        JsonTree::Str(s) => JsonTree::Str(s),
        JsonTree::Arr(items) => JsonTree::Arr(canon_items(items, items.len() as int)),
        JsonTree::Obj(es) => JsonTree::Obj(canon_members(es, es.len() as int)),
    }
}

/// The first `n` items, each as held once read.
pub open spec fn canon_items(items: Seq<JsonTree>, n: int) -> Seq<JsonTree>
    decreases items, n,
{
    if n <= 0 || n > items.len() {
        Seq::empty()
    } else {
        canon_items(items, n - 1).push(canon(items[n - 1]))
    }
}

/// The map that the first `n` entries make, each value as held once read.
pub open spec fn canon_members(es: Seq<(Seq<char>, JsonTree)>, n: int) -> Seq<
    (Seq<char>, JsonTree),
>
    decreases es, n,
{
    if n <= 0 || n > es.len() {
        Seq::empty()
    } else {
        insert_member(canon_members(es, n - 1), es[n - 1].0, canon(es[n - 1].1))
    }
}

/// What a value reads back as: a string as itself, an array or an object as
/// its text.
pub open spec fn tree_cell(v: JsonTree) -> JsonV {
    match v {
        JsonTree::Str(s) => JsonV::Str(s),
        _ => JsonV::Compound(tree_text(v)),
    }
}

/// What `serde_json::from_slice::<Map<String, Value>>` reads from the bytes:
/// the object's entries in the map's order, or `None` where it fails.
pub uninterp spec fn json_object(b: Seq<u8>) -> Option<Seq<(Seq<char>, JsonV)>>;

/// What `serde_json::from_slice::<Vec<Value>>` reads from the bytes.
pub uninterp spec fn json_array(b: Seq<u8>) -> Option<Seq<JsonV>>;

/// What `serde_json::to_vec` writes for the object with these entries.
pub uninterp spec fn json_object_bytes(e: Seq<(Seq<char>, JsonV)>) -> Seq<u8>;

/// A lowercase hexadecimal digit.
pub open spec fn hex_digit(d: u32) -> char {
    if d < 10 {
        (('0' as u32) + d) as char
    } else {
        (('a' as u32) + d - 10) as char
    }
}

/// How serde_json writes one character of a string: `"` and `\` after a
/// backslash, the control characters with a short escape where JSON has one
/// and as `\u00xx` otherwise, every other character as itself.
pub open spec fn escaped_char(c: char) -> Seq<char> {
    if c == '"' {
        seq!['\\', '"']
    } else if c == '\\' {
        seq!['\\', '\\']
    } else if c == '\x08' {
        seq!['\\', 'b']
    } else if c == '\t' {
        seq!['\\', 't']
    } else if c == '\n' {
        seq!['\\', 'n']
    } else if c == '\x0C' {
        seq!['\\', 'f']
    } else if c == '\r' {
        seq!['\\', 'r']
    } else if (c as u32) < 0x20 {
        seq!['\\', 'u', '0', '0', hex_digit((c as u32) / 16), hex_digit((c as u32) % 16)]
    } else {
        seq![c]
    }
}

/// The characters of a string, each as serde_json writes it.
pub open spec fn escaped(s: Seq<char>) -> Seq<char>
    decreases s.len(),
{
    if s.len() == 0 {
        Seq::empty()
    } else {
        escaped(s.drop_last()) + escaped_char(s.last())
    }
}

/// What `serde_json::to_string` writes for a string: the escaped text in
/// double quotes.
pub open spec fn json_string(s: Seq<char>) -> Seq<char> {
    seq!['"'] + escaped(s) + seq!['"']
}

/// How serde_json numbers compare as `f64` values (`Number::as_f64`):
/// -1, 0 or 1.
pub uninterp spec fn number_order(a: JsonNumberV, b: JsonNumberV) -> i8;

/// Whether two values are equal as serde_json's `Value`s are: two floats
/// when they compare equal as `f64` values, other values when they are the
/// same (a compound value by its text).
pub open spec fn json_same(a: JsonV, b: JsonV) -> bool {
    match (a, b) {
        (JsonV::Number(JsonNumberV::Float(x)), JsonV::Number(JsonNumberV::Float(y))) => number_order(
            JsonNumberV::Float(x),
            JsonNumberV::Float(y),
        ) == 0,
        _ => a == b,
    }
}

/// `serde_json::from_slice::<Map<String, Value>>`, each value converted.
/// Claimed: the result is `json_object` of the bytes; a map's keys come in
/// increasing order (the map is a `BTreeMap`); the compact text serde_json
/// writes for an object that nests at most 127 levels (its parser refuses
/// deeper input) reads back as the map its entries make, strings as
/// themselves and arrays and objects as the text `Value::to_string` writes
/// of them as read.
#[verifier::external_body]
pub(crate) fn parse_object(bytes: &[u8]) -> (r: Result<Vec<(String, Json)>, serde_json::Error>)
    ensures
        match json_object(bytes@) {
            Some(e) => r matches Ok(v) && entries_view(v@) == e,
            None => r is Err,
        },
        r matches Ok(v) ==> keys_sorted(entries_view(v@)),
        r is Err ==> forall|t: JsonTree|
            !(t is Obj && tree_within(t, 127) && bytes@ == #[trigger] encode_utf8(tree_text(t))),
        r matches Ok(v) ==> forall|t: JsonTree|
            t is Obj && bytes@ == #[trigger] encode_utf8(tree_text(t))
                ==> entries_view(v@) == canon(t)->Obj_0.map_values(
                |m: (Seq<char>, JsonTree)| (m.0, tree_cell(m.1)),
            ),
{
    let m: serde_json::Map<String, JsonValue> = serde_json::from_slice(bytes)?;
    Ok(m.into_iter().map(|(k, v)| (k, cell_of(v))).collect())
}

/// `serde_json::from_slice::<Vec<Value>>`, each value converted. Claimed: the
/// result is `json_array` of the bytes; the compact text serde_json writes for
/// an array that nests at most 127 levels reads back as its items, strings as
/// themselves and arrays and objects as the text `Value::to_string` writes of
/// them as read.
#[verifier::external_body]
pub(crate) fn parse_array(bytes: &[u8]) -> (r: Result<Vec<Json>, serde_json::Error>)
    ensures
        match json_array(bytes@) {
            Some(a) => r matches Ok(v) && v@.map_values(|j: Json| j@) == a,
            None => r is Err,
        },
        r is Err ==> forall|t: JsonTree|
            !(t is Arr && tree_within(t, 127) && bytes@ == #[trigger] encode_utf8(tree_text(t))),
        r matches Ok(v) ==> forall|t: JsonTree|
            t is Arr && bytes@ == #[trigger] encode_utf8(tree_text(t))
                ==> v@.map_values(|j: Json| j@) == canon(t)->Arr_0.map_values(|m: JsonTree| tree_cell(m)),
{
    let a: Vec<JsonValue> = serde_json::from_slice(bytes)?;
    Ok(a.into_iter().map(cell_of).collect())
}

/// The conversion of one serde_json value; only `parse_object` and
/// `parse_array` use it, and their contracts state what they return.
#[verifier::external_body]
fn cell_of(v: JsonValue) -> Json {
    match v {
        JsonValue::Null => Json::Null,
        JsonValue::Bool(b) => Json::Bool(b),
        JsonValue::Number(n) => Json::Number(
            match (n.as_i64(), n.as_u64()) {
                (Some(i), _) => JsonNumber::Int(i),
                (None, Some(u)) => JsonNumber::Big(u),
                _ => JsonNumber::Float(n.to_string()),
            },
        ),
        JsonValue::String(s) => Json::Str(s),
        other => Json::Compound(other.to_string()),
    }
}

/// The conversion of one number back to serde_json's; only `value_of` and
/// `compare_numbers` use it. A float's text is the one serde_json wrote.
#[verifier::external_body]
fn number_of(n: &JsonNumber) -> serde_json::Number {
    match n {
        JsonNumber::Int(i) => serde_json::Number::from(*i),
        JsonNumber::Big(u) => serde_json::Number::from(*u),
        JsonNumber::Float(t) => t.parse().unwrap_or(serde_json::Number::from(0)),
    }
}

/// The conversion of one value back; only `object_bytes` uses it. A compound
/// value's text is the one serde_json wrote.
#[verifier::external_body]
fn value_of(j: &Json) -> JsonValue {
    match j {
        Json::Null => JsonValue::Null,
        Json::Bool(b) => JsonValue::Bool(*b),
        Json::Number(n) => JsonValue::Number(number_of(n)),
        Json::Compound(t) => serde_json::from_str(t).unwrap_or(JsonValue::Null),
        Json::Str(s) => JsonValue::String(s.clone()),
    }
}

/// `serde_json::to_vec` of the object with these entries (a `Map` built from
/// them). Claimed: it succeeds (its only errors are from the writer, and a
/// `Vec` takes every write, or from a map key that is not a string, and a
/// `Map<String, Value>` has none); the bytes are `json_object_bytes` of the
/// entries; reading them back gives the entries again where their keys
/// increase strictly and their values are plain (integers and strings are
/// written exactly, and read back in the kind `is_plain` names).
#[verifier::external_body]
pub(crate) fn object_bytes(entries: &Vec<(String, Json)>) -> (r: Result<Vec<u8>, serde_json::Error>)
    ensures
        r is Ok,
        r matches Ok(b) ==> b@ == json_object_bytes(entries_view(entries@)),
        r matches Ok(b) ==> keys_sorted(entries_view(entries@)) && entries_plain(
            entries_view(entries@),
        ) ==> json_object(b@) == Some(entries_view(entries@)),
{
    let m: serde_json::Map<String, JsonValue> = entries.iter().map(
        |(k, v)| (k.clone(), value_of(v)),
    ).collect();
    serde_json::to_vec(&m)
}

/// `serde_json::to_string` of a string. Claimed: the text is `json_string`.
#[verifier::external_body]
pub(crate) fn quote_string(s: &str) -> (r: String)
    ensures
        r@ == json_string(s@),
{
    serde_json::to_string(s).unwrap_or_default()
}

/// A `serde_json::Error` with the given message (`serde::de::Error::custom`).
#[verifier::external_body]
pub(crate) fn custom_error(msg: &str) -> serde_json::Error {
    serde::de::Error::custom(msg)
}

/// How two numbers compare as `f64` values (`Number::as_f64` and
/// `partial_cmp`, an incomparable pair counting as equal). A float whose text
/// serde_json cannot read (one that only a value built by hand can hold; a
/// value read by serde_json holds the text it writes) counts as 0. Claimed: the answer
/// is `number_order`; for integers of magnitude at most 2^53, which convert to
/// `f64` exactly, it is the integers' order.
#[verifier::external_body]
pub(crate) fn compare_numbers(a: &JsonNumber, b: &JsonNumber) -> (r: i8)
    ensures
        r == number_order(a@, b@),
        -1 <= r <= 1,
        a@ matches JsonNumberV::Int(x) ==> b@ matches JsonNumberV::Int(y) ==> exact_in_f64(x)
            ==> exact_in_f64(y) ==> r == int_order(x, y),
{
    match number_of(a).as_f64().partial_cmp(&number_of(b).as_f64()) {
        Some(std::cmp::Ordering::Less) => -1,
        Some(std::cmp::Ordering::Greater) => 1,
        _ => 0,
    }
}

// ── Order of texts ───────────────────────────────────────────────────────────

pub proof fn lemma_chars_lt_irreflexive(a: Seq<char>)
    ensures
        !chars_lt(a, a),
    decreases a.len(),
{
    if a.len() > 0 {
        lemma_chars_lt_irreflexive(a.drop_first());
    }
}

pub proof fn lemma_chars_lt_asymmetric(a: Seq<char>, b: Seq<char>)
    ensures
        !(chars_lt(a, b) && chars_lt(b, a)),
    decreases a.len(),
{
    if a.len() > 0 && b.len() > 0 && a[0] == b[0] {
        lemma_chars_lt_asymmetric(a.drop_first(), b.drop_first());
    }
}

/// Of two different texts, one is before the other.
pub proof fn lemma_chars_lt_total(a: Seq<char>, b: Seq<char>)
    ensures
        a == b || chars_lt(a, b) || chars_lt(b, a),
    decreases a.len(),
{
    if a.len() > 0 && b.len() > 0 && a[0] == b[0] {
        lemma_chars_lt_total(a.drop_first(), b.drop_first());
        if a.drop_first() == b.drop_first() {
            assert(a =~= b) by {
                assert forall|i: int| 0 <= i < a.len() implies a[i] == b[i] by {
                    if i > 0 {
                        assert(a.drop_first()[i - 1] == b.drop_first()[i - 1]);
                    }
                }
            }
        }
    } else if a.len() == 0 && b.len() == 0 {
        assert(a =~= b);
    }
}

pub proof fn lemma_chars_lt_transitive(a: Seq<char>, b: Seq<char>, c: Seq<char>)
    requires
        chars_lt(a, b),
        chars_lt(b, c),
    ensures
        chars_lt(a, c),
    decreases a.len(),
{
    if a.len() > 0 && b.len() > 0 && c.len() > 0 && a[0] == b[0] && b[0] == c[0] {
        lemma_chars_lt_transitive(a.drop_first(), b.drop_first(), c.drop_first());
    }
}

/// Past a common beginning, two texts compare as what follows it does.
proof fn lemma_chars_lt_skip(a: Seq<char>, b: Seq<char>, i: int)
    requires
        0 <= i <= a.len(),
        i <= b.len(),
        forall|j: int| 0 <= j < i ==> a[j] == b[j],
    ensures
        chars_lt(a, b) == chars_lt(a.skip(i), b.skip(i)),
    decreases i,
{
    if i > 0 {
        lemma_chars_lt_skip(a.drop_first(), b.drop_first(), i - 1);
        assert(a.drop_first().skip(i - 1) =~= a.skip(i));
        assert(b.drop_first().skip(i - 1) =~= b.skip(i));
    } else {
        assert(a.skip(0) =~= a);
        assert(b.skip(0) =~= b);
    }
}

/// Whether `a` comes before `b` in the order of `String`.
pub fn text_lt(a: &str, b: &str) -> (r: bool)
    ensures
        r == chars_lt(a@, b@),
{
    let x = crate::text::chars_of(a);
    let y = crate::text::chars_of(b);
    let mut i: usize = 0;
    while i < x.len() && i < y.len() && x[i] == y[i]
        invariant
            i <= x.len(),
            i <= y.len(),
            x@ == a@,
            y@ == b@,
            forall|j: int| 0 <= j < i ==> x@[j] == y@[j],
        decreases x.len() - i,
    {
        i = i + 1;
    }
    proof {
        lemma_chars_lt_skip(x@, y@, i as int);
    }
    if i == x.len() {
        i < y.len()
    } else if i == y.len() {
        false
    } else {
        x[i] < y[i]
    }
}

impl JsonNumber {
    /// A copy of the number.
    pub fn duplicate(&self) -> (r: JsonNumber)
        ensures
            r@ == self@,
    {
        match self {
            JsonNumber::Int(i) => JsonNumber::Int(*i),
            JsonNumber::Big(u) => JsonNumber::Big(*u),
            JsonNumber::Float(t) => JsonNumber::Float(t.clone()),
        }
    }
}

impl Json {
    /// A copy of the value.
    pub fn duplicate(&self) -> (r: Json)
        ensures
            r@ == self@,
    {
        match self {
            Json::Null => Json::Null,
            Json::Bool(b) => Json::Bool(*b),
            Json::Number(n) => Json::Number(n.duplicate()),
            Json::Str(s) => Json::Str(s.clone()),
            Json::Compound(t) => Json::Compound(t.clone()),
        }
    }

    /// Whether two values are equal as serde_json's `Value`s are: numbers of
    /// the same kind by value (two floats as `f64` values, so `-0.0` equals
    /// `0.0`), compound values by their text.
    pub fn same(&self, other: &Json) -> (r: bool)
        ensures
            r == json_same(self@, other@),
    {
        match (self, other) {
            (Json::Null, Json::Null) => true,
            (Json::Bool(a), Json::Bool(b)) => *a == *b,
            (Json::Number(x), Json::Number(y)) => match (x, y) {
                (JsonNumber::Int(a), JsonNumber::Int(b)) => *a == *b,
                (JsonNumber::Big(a), JsonNumber::Big(b)) => *a == *b,
                (JsonNumber::Float(_), JsonNumber::Float(_)) => compare_numbers(x, y) == 0,
                _ => false,
            },
            (Json::Str(a), Json::Str(b)) => *a == *b,
            (Json::Compound(a), Json::Compound(b)) => *a == *b,
            _ => false,
        }
    }
}

} // verus!
