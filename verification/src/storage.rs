//! A persistent key-value store of byte strings, kept in a redb database.
//!
//! The store is modelled as a finite map from keys to values. Each operation
//! is one redb transaction on a single table; the database file is locked
//! while it is open, so between two operations nothing else changes it.
use redb::StorageError as RedbStorageError;
use vstd::prelude::*;

verus! {

#[verifier::external_type_specification]
#[verifier::external_body]
pub struct ExDatabase(redb::Database);

#[verifier::external_type_specification]
#[verifier::external_body]
pub struct ExDatabaseError(redb::DatabaseError);

#[verifier::external_type_specification]
#[verifier::external_body]
pub struct ExTransactionError(redb::TransactionError);

#[verifier::external_type_specification]
#[verifier::external_body]
pub struct ExTableError(redb::TableError);

#[verifier::external_type_specification]
#[verifier::external_body]
pub struct ExRedbStorageError(RedbStorageError);

#[verifier::external_type_specification]
#[verifier::external_body]
pub struct ExCommitError(redb::CommitError);

/// An error of the underlying database.
#[derive(Debug)]
pub enum StorageError {
    Database(redb::DatabaseError),
    Transaction(redb::TransactionError),
    Table(redb::TableError),
    Storage(RedbStorageError),
    Commit(redb::CommitError),
}

/// The name of the one table that holds every key.
pub const KV_TABLE: &'static str = "snail_kv";

/// What the table named `table` of the database holds: a map from keys to
/// values.
pub uninterp spec fn table_contents(db: redb::Database, table: Seq<char>) -> Map<Seq<u8>, Seq<u8>>;

// ── Byte-string order ────────────────────────────────────────────────────────

/// The lexicographic order of byte strings, the order of `[u8]`.
pub open spec fn bytes_lt(a: Seq<u8>, b: Seq<u8>) -> bool
    decreases a.len(),
{
    if a.len() == 0 {
        b.len() > 0
    } else if b.len() == 0 {
        false
    } else if a[0] < b[0] {
        true
    } else if a[0] == b[0] {
        bytes_lt(a.drop_first(), b.drop_first())
    } else {
        false
    }
}

/// `a <= b` in the lexicographic order.
pub open spec fn bytes_le(a: Seq<u8>, b: Seq<u8>) -> bool {
    a == b || bytes_lt(a, b)
}

/// The entries of a sequence of pairs, as pairs of byte strings.
pub open spec fn pairs_view(v: Seq<(Vec<u8>, Vec<u8>)>) -> Seq<(Seq<u8>, Seq<u8>)> {
    v.map_values(|e: (Vec<u8>, Vec<u8>)| (e.0@, e.1@))
}

/// `s` lists, in strictly increasing order of keys, exactly the entries of `m`
/// whose keys satisfy `pick`.
pub open spec fn lists_entries(
    m: Map<Seq<u8>, Seq<u8>>,
    pick: spec_fn(Seq<u8>) -> bool,
    s: Seq<(Seq<u8>, Seq<u8>)>,
) -> bool {
    &&& forall|i: int, j: int| 0 <= i < j < s.len() ==> bytes_lt(s[i].0, s[j].0)
    &&& forall|i: int|
        0 <= i < s.len() ==> m.contains_key(#[trigger] s[i].0) && m[s[i].0] == s[i].1 && pick(
            s[i].0,
        )
    &&& forall|k: Seq<u8>| m.contains_key(k) && pick(k) ==> exists|i: int| 0 <= i < s.len() && #[trigger] s[i].0 == k
}

/// A byte string is not after any string it begins.
pub proof fn lemma_prefix_le(p: Seq<u8>, k: Seq<u8>)
    requires
        p.is_prefix_of(k),
    ensures
        bytes_le(p, k),
    decreases p.len(),
{
    if p.len() > 0 {
        assert(p.drop_first().is_prefix_of(k.drop_first()));
        lemma_prefix_le(p.drop_first(), k.drop_first());
        if p.drop_first() == k.drop_first() {
            assert(p =~= k);
        }
    } else if k.len() == 0 {
        assert(p =~= k);
    }
}

/// The keys that begin with `p` form an interval: whatever lies between `p`
/// and such a key begins with `p` too.
pub proof fn lemma_prefix_between(p: Seq<u8>, a: Seq<u8>, b: Seq<u8>)
    requires
        bytes_le(p, a),
        bytes_le(a, b),
        p.is_prefix_of(b),
    ensures
        p.is_prefix_of(a),
    decreases p.len(),
{
    if p.len() > 0 && p != a && a != b {
        assert(a.len() > 0);
        assert(b.len() > 0 && b[0] == p[0]);
        assert(bytes_lt(p, a));
        assert(bytes_lt(a, b));
        assert(p[0] == a[0]);
        assert(a[0] == b[0]);
        assert(p.drop_first().is_prefix_of(b.drop_first()));
        assert(bytes_le(p.drop_first(), a.drop_first()));
        assert(bytes_le(a.drop_first(), b.drop_first()));
        lemma_prefix_between(p.drop_first(), a.drop_first(), b.drop_first());
        assert forall|k: int| 0 <= k < p.len() implies p[k] == a[k] by {
            if k > 0 {
                assert(p.drop_first()[k - 1] == a.drop_first()[k - 1]);
            }
        }
    } else if p.len() > 0 && a == b {
    }
}

/// Cutting a listing of the entries at or after `p` where the keys stop
/// beginning with `p` lists the entries whose keys begin with `p`.
proof fn lemma_prefix_block(m: Map<Seq<u8>, Seq<u8>>, p: Seq<u8>, s: Seq<(Seq<u8>, Seq<u8>)>, i: int)
    requires
        0 <= i <= s.len(),
        lists_entries(m, |k: Seq<u8>| bytes_le(p, k), s),
        forall|j: int| 0 <= j < i ==> p.is_prefix_of(#[trigger] s[j].0),
        i == s.len() || !p.is_prefix_of(s[i].0),
    ensures
        lists_entries(m, |k: Seq<u8>| p.is_prefix_of(k), s.take(i)),
{
    let t = s.take(i);
    assert forall|k: Seq<u8>| m.contains_key(k) && p.is_prefix_of(k) implies exists|j: int|
        0 <= j < t.len() && #[trigger] t[j].0 == k by {
        lemma_prefix_le(p, k);
        let j = choose|j: int| 0 <= j < s.len() && #[trigger] s[j].0 == k;
        if j >= i {
            if j > i {
                assert(bytes_lt(s[i].0, s[j].0));
            }
            lemma_prefix_between(p, s[i].0, k);
        }
        assert(t[j].0 == k);
    }
}

/// The keys that a listing names are the keys it lists, and there are as many.
proof fn lemma_listed_keys(m: Map<Seq<u8>, Seq<u8>>, p: Seq<u8>, s: Seq<(Seq<u8>, Seq<u8>)>)
    requires
        lists_entries(m, |k: Seq<u8>| p.is_prefix_of(k), s),
    ensures
        s.map_values(|e: (Seq<u8>, Seq<u8>)| e.0).to_set() == m.dom().filter(
            |k: Seq<u8>| p.is_prefix_of(k),
        ),
        s.len() == m.dom().filter(|k: Seq<u8>| p.is_prefix_of(k)).len(),
{
    let ks = s.map_values(|e: (Seq<u8>, Seq<u8>)| e.0);
    assert forall|k: Seq<u8>| ks.to_set().contains(k) <==> m.dom().filter(
        |k: Seq<u8>| p.is_prefix_of(k),
    ).contains(k) by {
        if ks.to_set().contains(k) {
            let j = choose|j: int| 0 <= j < ks.len() && ks[j] == k;
            assert(s[j].0 == k);
        }
        if m.dom().filter(|k: Seq<u8>| p.is_prefix_of(k)).contains(k) {
            let j = choose|j: int| 0 <= j < s.len() && #[trigger] s[j].0 == k;
            assert(ks[j] == k);
        }
    }
    assert(ks.to_set() =~= m.dom().filter(|k: Seq<u8>| p.is_prefix_of(k)));
    assert forall|i: int, j: int| 0 <= i < ks.len() && 0 <= j < ks.len() && i != j implies ks[i]
        != ks[j] by {
        if i < j {
            assert(bytes_lt(s[i].0, s[j].0));
            lemma_lt_irreflexive(s[i].0);
        } else {
            assert(bytes_lt(s[j].0, s[i].0));
            lemma_lt_irreflexive(s[j].0);
        }
    }
    ks.unique_seq_to_set();
}

pub proof fn lemma_lt_irreflexive(a: Seq<u8>)
    ensures
        !bytes_lt(a, a),
    decreases a.len(),
{
    if a.len() > 0 {
        lemma_lt_irreflexive(a.drop_first());
    }
}

/// `a < b` and `b < a` never both hold.
pub proof fn lemma_lt_asymmetric(a: Seq<u8>, b: Seq<u8>)
    ensures
        !(bytes_lt(a, b) && bytes_lt(b, a)),
    decreases a.len(),
{
    if a.len() > 0 && b.len() > 0 && a[0] == b[0] {
        lemma_lt_asymmetric(a.drop_first(), b.drop_first());
    }
}

/// The listing of the entries whose keys begin with `p`, in increasing order
/// of keys.
pub open spec fn scan(m: Map<Seq<u8>, Seq<u8>>, p: Seq<u8>) -> Seq<(Seq<u8>, Seq<u8>)> {
    choose|s: Seq<(Seq<u8>, Seq<u8>)>| #[trigger] prefix_listing(m, p, s)
}

/// `s` lists, in increasing order of keys, the entries of `m` whose keys begin
/// with `p`.
pub open spec fn prefix_listing(
    m: Map<Seq<u8>, Seq<u8>>,
    p: Seq<u8>,
    s: Seq<(Seq<u8>, Seq<u8>)>,
) -> bool {
    lists_entries(m, |k: Seq<u8>| p.is_prefix_of(k), s)
}

/// Two listings of the same entries in increasing order of keys are the same.
pub proof fn lemma_listing_unique(
    m: Map<Seq<u8>, Seq<u8>>,
    pick: spec_fn(Seq<u8>) -> bool,
    s1: Seq<(Seq<u8>, Seq<u8>)>,
    s2: Seq<(Seq<u8>, Seq<u8>)>,
)
    requires
        lists_entries(m, pick, s1),
        lists_entries(m, pick, s2),
    ensures
        s1 == s2,
    decreases s1.len(),
{
    if s1.len() == 0 {
        if s2.len() > 0 {
            assert(m.contains_key(s2[0].0) && pick(s2[0].0));
        }
        assert(s1 =~= s2);
    } else {
        assert(m.contains_key(s1[0].0) && pick(s1[0].0));
        assert(s2.len() > 0);
        let k1 = s1[0].0;
        let k2 = s2[0].0;
        assert(m.contains_key(k2) && pick(k2));
        let j = choose|j: int| 0 <= j < s2.len() && #[trigger] s2[j].0 == k1;
        let i = choose|i: int| 0 <= i < s1.len() && #[trigger] s1[i].0 == k2;
        if j > 0 && i > 0 {
            assert(bytes_lt(k2, k1));
            assert(bytes_lt(k1, k2));
            lemma_lt_asymmetric(k1, k2);
        }
        assert(k1 == k2);
        let pick2 = |k: Seq<u8>| pick(k) && k != k1;
        let t1 = s1.drop_first();
        let t2 = s2.drop_first();
        assert forall|a: int| 0 <= a < t1.len() implies m.contains_key(#[trigger] t1[a].0)
            && m[t1[a].0] == t1[a].1 && pick2(t1[a].0) by {
            assert(bytes_lt(s1[0].0, s1[a + 1].0));
            lemma_lt_irreflexive(k1);
        }
        assert forall|a: int| 0 <= a < t2.len() implies m.contains_key(#[trigger] t2[a].0)
            && m[t2[a].0] == t2[a].1 && pick2(t2[a].0) by {
            assert(bytes_lt(s2[0].0, s2[a + 1].0));
            lemma_lt_irreflexive(k1);
        }
        assert forall|k: Seq<u8>| m.contains_key(k) && pick2(k) implies exists|a: int|
            0 <= a < t1.len() && #[trigger] t1[a].0 == k by {
            let a = choose|a: int| 0 <= a < s1.len() && #[trigger] s1[a].0 == k;
            assert(t1[a - 1].0 == k);
        }
        assert forall|k: Seq<u8>| m.contains_key(k) && pick2(k) implies exists|a: int|
            0 <= a < t2.len() && #[trigger] t2[a].0 == k by {
            let a = choose|a: int| 0 <= a < s2.len() && #[trigger] s2[a].0 == k;
            assert(t2[a - 1].0 == k);
        }
        lemma_listing_unique(m, pick2, t1, t2);
        assert(t1.len() == t2.len());
        assert(s1.len() == s2.len());
        assert(s1[0].1 == m[k1] && s2[0].1 == m[k2]);
        assert(s1 =~= s2) by {
            assert(s1[0] == s2[0]);
            assert forall|a: int| 0 < a < s1.len() implies s1[a] == s2[a] by {
                assert(t1[a - 1] == t2[a - 1]);
            }
        }
    }
}

/// Of two different byte strings, one is before the other.
pub proof fn lemma_lt_total(a: Seq<u8>, b: Seq<u8>)
    ensures
        a == b || bytes_lt(a, b) || bytes_lt(b, a),
    decreases a.len(),
{
    if a.len() > 0 && b.len() > 0 && a[0] == b[0] {
        lemma_lt_total(a.drop_first(), b.drop_first());
        if a.drop_first() == b.drop_first() {
            assert(a =~= b) by {
                assert forall|i: int| 0 <= i < a.len() implies a[i] == b[i] by {
                    if i > 0 {
                        assert(a.drop_first()[i - 1] == b.drop_first()[i - 1]);
                    }
                }
            }
        }
    } else if a.len() == 0 && b.len() == 0 {
        assert(a =~= b);
    }
}

pub proof fn lemma_lt_transitive(a: Seq<u8>, b: Seq<u8>, c: Seq<u8>)
    requires
        bytes_lt(a, b),
        bytes_lt(b, c),
    ensures
        bytes_lt(a, c),
    decreases a.len(),
{
    if a.len() > 0 && b.len() > 0 && c.len() > 0 && a[0] == b[0] && b[0] == c[0] {
        lemma_lt_transitive(a.drop_first(), b.drop_first(), c.drop_first());
    }
}

/// The place of `x` among the keys of a listing: every key before it is
/// below `x`, and the key at it is not.
proof fn lemma_insert_position(s: Seq<(Seq<u8>, Seq<u8>)>, x: Seq<u8>) -> (j: int)
    ensures
        0 <= j <= s.len(),
        forall|i: int| 0 <= i < j ==> bytes_lt(#[trigger] s[i].0, x),
        j < s.len() ==> !bytes_lt(s[j].0, x),
    decreases s.len(),
{
    if s.len() == 0 || !bytes_lt(s[0].0, x) {
        0
    } else {
        let j = lemma_insert_position(s.drop_first(), x);
        assert forall|i: int| 0 <= i < j + 1 implies bytes_lt(#[trigger] s[i].0, x) by {
            if i > 0 {
                assert(s[i] == s.drop_first()[i - 1]);
            }
        }
        if j + 1 < s.len() {
            assert(s[j + 1] == s.drop_first()[j]);
        }
        j + 1
    }
}

/// The entries of `m` under the keys `ks`, listed in increasing order of keys.
proof fn lemma_listing_of_keys(m: Map<Seq<u8>, Seq<u8>>, ks: Set<Seq<u8>>) -> (s: Seq<
    (Seq<u8>, Seq<u8>),
>)
    requires
        ks.finite(),
        forall|k: Seq<u8>| ks.contains(k) ==> m.contains_key(k),
    ensures
        lists_entries(m, |k: Seq<u8>| ks.contains(k), s),
    decreases ks.len(),
{
    if ks.len() == 0 {
        let s = Seq::<(Seq<u8>, Seq<u8>)>::empty();
        assert forall|k: Seq<u8>| m.contains_key(k) && ks.contains(k) implies exists|i: int|
            0 <= i < s.len() && #[trigger] s[i].0 == k by {
            assert(ks.remove(k).len() == ks.len() - 1);
        }
        s
    } else {
        let x = ks.choose();
        assert(ks.contains(x));
        let rk = ks.remove(x);
        let rest = lemma_listing_of_keys(m, rk);
        let j = lemma_insert_position(rest, x);
        let s = rest.take(j) + seq![(x, m[x])] + rest.skip(j);
        assert(s.len() == rest.len() + 1);
        assert forall|i: int| 0 <= i < s.len() implies #[trigger] s[i] == (if i < j {
            rest[i]
        } else if i == j {
            (x, m[x])
        } else {
            rest[i - 1]
        }) by {}
        // the keys of `rest` after the place of `x` are above it
        assert forall|i: int| j <= i < rest.len() implies bytes_lt(x, #[trigger] rest[i].0) by {
            assert(rk.contains(rest[j].0));
            lemma_lt_total(rest[j].0, x);
            if i > j {
                lemma_lt_transitive(x, rest[j].0, rest[i].0);
            }
        }
        assert forall|a: int, b: int| 0 <= a < b < s.len() implies bytes_lt(s[a].0, s[b].0) by {
            if b < j {
                assert(bytes_lt(rest[a].0, rest[b].0));
            } else if b == j {
            } else if a < j {
                assert(bytes_lt(rest[a].0, rest[b - 1].0));
            } else if a == j {
            } else {
                assert(bytes_lt(rest[a - 1].0, rest[b - 1].0));
            }
        }
        assert forall|i: int| 0 <= i < s.len() implies m.contains_key(#[trigger] s[i].0)
            && m[s[i].0] == s[i].1 && ks.contains(s[i].0) by {
            if i < j {
                assert(rk.contains(rest[i].0));
            } else if i > j {
                assert(rk.contains(rest[i - 1].0));
            }
        }
        assert forall|k: Seq<u8>| m.contains_key(k) && ks.contains(k) implies exists|i: int|
            0 <= i < s.len() && #[trigger] s[i].0 == k by {
            if k == x {
                assert(s[j].0 == k);
            } else {
                assert(rk.contains(k));
                let i = choose|i: int| 0 <= i < rest.len() && #[trigger] rest[i].0 == k;
                if i < j {
                    assert(s[i].0 == k);
                } else {
                    assert(s[i + 1].0 == k);
                }
            }
        }
        s
    }
}

/// A store that holds finitely many keys can be listed under any prefix.
pub proof fn lemma_listing_exists(m: Map<Seq<u8>, Seq<u8>>, p: Seq<u8>)
    requires
        m.dom().finite(),
    ensures
        prefix_listing(m, p, scan(m, p)),
{
    let ks = m.dom().filter(|k: Seq<u8>| p.is_prefix_of(k));
    assert(ks.finite());
    let s = lemma_listing_of_keys(m, ks);
    assert(lists_entries(m, |k: Seq<u8>| ks.contains(k), s));
    assert forall|i: int| 0 <= i < s.len() implies m.contains_key(#[trigger] s[i].0) && m[s[i].0]
        == s[i].1 && p.is_prefix_of(s[i].0) by {
        assert(ks.contains(s[i].0));
    }
    assert forall|k: Seq<u8>| m.contains_key(k) && p.is_prefix_of(k) implies exists|i: int|
        0 <= i < s.len() && #[trigger] s[i].0 == k by {
        assert(ks.contains(k));
    }
    assert(prefix_listing(m, p, s));
}

// ── Laws of the store ────────────────────────────────────────────────────────

/// A read gives back a write: after `put(k, v)` the key `k` holds `v`, and
/// every other key holds what it held, or stays absent.
pub proof fn law_put_then_get(m: Map<Seq<u8>, Seq<u8>>, k: Seq<u8>, v: Seq<u8>, k2: Seq<u8>)
    ensures
        m.insert(k, v).contains_key(k),
        m.insert(k, v)[k] == v,
        k2 != k ==> m.insert(k, v).contains_key(k2) == m.contains_key(k2),
        k2 != k && m.contains_key(k2) ==> m.insert(k, v)[k2] == m[k2],
{
}

/// After `delete(k)` the key `k` is absent, and every other key holds what it
/// held, or stays absent.
pub proof fn law_delete_then_get(m: Map<Seq<u8>, Seq<u8>>, k: Seq<u8>, k2: Seq<u8>)
    ensures
        !m.remove(k).contains_key(k),
        k2 != k ==> m.remove(k).contains_key(k2) == m.contains_key(k2),
        k2 != k && m.contains_key(k2) ==> m.remove(k)[k2] == m[k2],
{
}

/// A scan finds what a write wrote: in a store of finitely many keys, after
/// `put(k, v)` a scan under any prefix of `k` lists the entry `(k, v)`.
pub proof fn law_put_then_scan(m: Map<Seq<u8>, Seq<u8>>, k: Seq<u8>, v: Seq<u8>, p: Seq<u8>) -> (i: int)
    requires
        m.dom().finite(),
        p.is_prefix_of(k),
    ensures
        0 <= i < scan(m.insert(k, v), p).len(),
        scan(m.insert(k, v), p)[i] == (k, v),
{
    let m2 = m.insert(k, v);
    assert(m2.dom() =~= m.dom().insert(k));
    lemma_listing_exists(m2, p);
    let s = scan(m2, p);
    assert(m2.contains_key(k) && p.is_prefix_of(k));
    let i = choose|i: int| 0 <= i < s.len() && #[trigger] s[i].0 == k;
    i
}

/// After `delete_prefix(p)`, in a store of finitely many keys, a scan under
/// `p` lists nothing.
pub proof fn law_delete_prefix_then_scan(m: Map<Seq<u8>, Seq<u8>>, p: Seq<u8>)
    requires
        m.dom().finite(),
    ensures
        scan(m.remove_keys(m.dom().filter(|k: Seq<u8>| p.is_prefix_of(k))), p).len() == 0,
{
    let gone = m.dom().filter(|k: Seq<u8>| p.is_prefix_of(k));
    let m2 = m.remove_keys(gone);
    assert(m2.dom() =~= m.dom().difference(gone));
    lemma_listing_exists(m2, p);
    let s = scan(m2, p);
    if s.len() > 0 {
        assert(m2.contains_key(s[0].0) && p.is_prefix_of(s[0].0));
        assert(gone.contains(s[0].0));
    }
}

// ── The database operations ──────────────────────────────────────────────────

/// `redb::Database::create`: opens (or creates) the database file at `path`.
/// Nothing is claimed of what an existing file holds.
#[verifier::external_body]
fn redb_create(path: &str) -> (r: Result<redb::Database, redb::DatabaseError>) {
    redb::Database::create(path)
}

/// One write transaction that opens the table `table` (`WriteTransaction::open_table`
/// creates it when it is missing) and commits. Claimed: the table's contents are
/// unchanged.
#[verifier::external_body]
fn redb_open_table(db: &mut redb::Database, table: &str) -> (r: Result<(), StorageError>)
    requires
        table@.len() > 0,
    ensures
        r is Ok ==> table_contents(*final(db), table@) == table_contents(*old(db), table@),
{
    let txn = db.begin_write().map_err(StorageError::Transaction)?;
    {
        let _ = txn.open_table(redb::TableDefinition::<&[u8], &[u8]>::new(table)).map_err(
            StorageError::Table,
        )?;
    }
    txn.commit().map_err(StorageError::Commit)
}

/// One read transaction with `ReadOnlyTable::get`. Claimed: on success, the
/// value stored under `key`, if any.
#[verifier::external_body]
fn redb_get(db: &redb::Database, table: &str, key: &[u8]) -> (r: Result<
    Option<Vec<u8>>,
    StorageError,
>)
    requires
        table@.len() > 0,
    ensures
        r matches Ok(v) ==> match v {
            Some(bytes) => table_contents(*db, table@).contains_key(key@) && table_contents(
                *db,
                table@,
            )[key@] == bytes@,
            None => !table_contents(*db, table@).contains_key(key@),
        },
{
    let txn = db.begin_read().map_err(StorageError::Transaction)?;
    let t = txn.open_table(redb::TableDefinition::<&[u8], &[u8]>::new(table)).map_err(
        StorageError::Table,
    )?;
    let v = t.get(key).map_err(StorageError::Storage)?;
    Ok(v.map(|g| g.value().to_vec()))
}

/// One write transaction with `Table::insert`, then commit. Claimed: on success
/// `key` maps to `value` and nothing else changed.
#[verifier::external_body]
fn redb_insert(db: &mut redb::Database, table: &str, key: &[u8], value: &[u8]) -> (r: Result<
    (),
    StorageError,
>)
    requires
        table@.len() > 0,
    ensures
        r is Ok ==> table_contents(*final(db), table@) == table_contents(*old(db), table@).insert(
            key@,
            value@,
        ),
{
    let txn = db.begin_write().map_err(StorageError::Transaction)?;
    {
        let mut t = txn.open_table(redb::TableDefinition::<&[u8], &[u8]>::new(table)).map_err(
            StorageError::Table,
        )?;
        t.insert(key, value).map_err(StorageError::Storage)?;
    }
    txn.commit().map_err(StorageError::Commit)
}

/// One write transaction with `Table::remove` for each key, then commit.
/// Claimed: on success the keys are gone and nothing else changed; the answer
/// for each key is whether it was present.
#[verifier::external_body]
fn redb_remove(db: &mut redb::Database, table: &str, keys: &Vec<Vec<u8>>) -> (r: Result<
    Vec<bool>,
    StorageError,
>)
    requires
        table@.len() > 0,
    ensures
        r matches Ok(found) ==> {
            &&& table_contents(*final(db), table@) == table_contents(*old(db), table@).remove_keys(
                keys@.map_values(|k: Vec<u8>| k@).to_set(),
            )
            &&& found@.len() == keys@.len()
            &&& forall|i: int|
                0 <= i < keys@.len() ==> #[trigger] found@[i] == (table_contents(
                    *old(db),
                    table@,
                ).contains_key(keys@[i]@) && forall|j: int| 0 <= j < i ==> keys@[j]@ != keys@[i]@)
        },
{
    let txn = db.begin_write().map_err(StorageError::Transaction)?;
    let mut found = Vec::new();
    {
        let mut t = txn.open_table(redb::TableDefinition::<&[u8], &[u8]>::new(table)).map_err(
            StorageError::Table,
        )?;
        for k in keys {
            found.push(t.remove(k.as_slice()).map_err(StorageError::Storage)?.is_some());
        }
    }
    txn.commit().map_err(StorageError::Commit)?;
    Ok(found)
}

/// One read transaction with `ReadOnlyTable::range(start..)`, collected.
/// Claimed: on success, the entries whose keys are at or after `start`, in
/// increasing order of keys (redb orders `&[u8]` keys as `[u8]` does).
#[verifier::external_body]
fn redb_range_from(db: &redb::Database, table: &str, start: &[u8]) -> (r: Result<
    Vec<(Vec<u8>, Vec<u8>)>,
    StorageError,
>)
    requires
        table@.len() > 0,
    ensures
        r matches Ok(v) ==> lists_entries(
            table_contents(*db, table@),
            |k: Seq<u8>| bytes_le(start@, k),
            pairs_view(v@),
        ),
{
    let txn = db.begin_read().map_err(StorageError::Transaction)?;
    let t = txn.open_table(redb::TableDefinition::<&[u8], &[u8]>::new(table)).map_err(
        StorageError::Table,
    )?;
    let range = t.range(start..).map_err(StorageError::Storage)?;
    range.map(|e| e.map(|(k, v)| (k.value().to_vec(), v.value().to_vec()))).collect::<
        Result<Vec<_>, _>,
    >().map_err(StorageError::Storage)
}

// ── The store ────────────────────────────────────────────────────────────────

/// A persistent map from byte strings to byte strings.
pub struct Storage {
    db: redb::Database,
}

impl View for Storage {
    type V = Map<Seq<u8>, Seq<u8>>;

    closed spec fn view(&self) -> Map<Seq<u8>, Seq<u8>> {
        table_contents(self.db, KV_TABLE@)
    }
}

impl Storage {
    /// Opens the store in the database file at `path`, creating the file when
    /// it is missing. What an existing file holds is kept.
    pub fn open(path: &str) -> (r: Result<Storage, StorageError>) {
        let mut db = match redb_create(path) {
            Ok(db) => db,
            Err(e) => {
                return Err(StorageError::Database(e));
            },
        };
        proof {
            reveal_strlit("snail_kv");
        }
        redb_open_table(&mut db, KV_TABLE)?;
        Ok(Storage { db })
    }

    /// The value stored under `key`.
    pub fn get(&self, key: &[u8]) -> (r: Result<Option<Vec<u8>>, StorageError>)
        ensures
            r matches Ok(v) ==> match v {
                Some(bytes) => self@.contains_key(key@) && self@[key@] == bytes@,
                None => !self@.contains_key(key@),
            },
    {
        proof {
            reveal_strlit("snail_kv");
        }
        redb_get(&self.db, KV_TABLE, key)
    }

    /// Stores `value` under `key`, replacing what was there.
    pub fn put(&mut self, key: &[u8], value: &[u8]) -> (r: Result<(), StorageError>)
        ensures
            r is Ok ==> final(self)@ == old(self)@.insert(key@, value@),
    {
        proof {
            reveal_strlit("snail_kv");
        }
        redb_insert(&mut self.db, KV_TABLE, key, value)
    }

    /// Removes `key`; the answer is whether it was present.
    pub fn delete(&mut self, key: &[u8]) -> (r: Result<bool, StorageError>)
        ensures
            r matches Ok(existed) ==> existed == old(self)@.contains_key(key@) && final(self)@
                == old(self)@.remove(key@),
    {
        proof {
            reveal_strlit("snail_kv");
        }
        let mut keys: Vec<Vec<u8>> = Vec::new();
        keys.push(crate::text::bytes_to_vec(key));
        let found = redb_remove(&mut self.db, KV_TABLE, &keys)?;
        proof {
            assert(keys@.map_values(|k: Vec<u8>| k@) =~= seq![key@]);
            assert(seq![key@].to_set() =~= set![key@]) by {
                assert(seq![key@][0] == key@);
            }
            assert(old(self)@.remove_keys(set![key@]) =~= old(self)@.remove(key@));
            assert(found@[0] == (old(self)@.contains_key(keys@[0]@)));
        }
        Ok(found[0])
    }

    /// The entries whose keys begin with `prefix`, in increasing order of keys.
    pub fn scan_prefix(&self, prefix: &[u8]) -> (r: Result<Vec<(Vec<u8>, Vec<u8>)>, StorageError>)
        ensures
            r matches Ok(v) ==> lists_entries(
                self@,
                |k: Seq<u8>| prefix@.is_prefix_of(k),
                pairs_view(v@),
            ) && pairs_view(v@) == scan(self@, prefix@),
    {
        proof {
            reveal_strlit("snail_kv");
        }
        let from = redb_range_from(&self.db, KV_TABLE, prefix)?;
        let mut results: Vec<(Vec<u8>, Vec<u8>)> = Vec::new();
        let mut i: usize = 0;
        assert(pairs_view(results@) =~= pairs_view(from@).take(0));
        while i < from.len()
            invariant
                i <= from.len(),
                lists_entries(self@, |k: Seq<u8>| bytes_le(prefix@, k), pairs_view(from@)),
                pairs_view(results@) == pairs_view(from@).take(i as int),
                forall|j: int| 0 <= j < i ==> prefix@.is_prefix_of(#[trigger] pairs_view(from@)[j].0),
            ensures
                i <= from.len(),
                pairs_view(results@) == pairs_view(from@).take(i as int),
                forall|j: int| 0 <= j < i ==> prefix@.is_prefix_of(#[trigger] pairs_view(from@)[j].0),
                i == from.len() || !prefix@.is_prefix_of(pairs_view(from@)[i as int].0),
            decreases from.len() - i,
        {
            if !crate::text::bytes_starts_with(from[i].0.as_slice(), prefix) {
                break;
            }
            let k = crate::text::bytes_to_vec(from[i].0.as_slice());
            let v = crate::text::bytes_to_vec(from[i].1.as_slice());
            let ghost before = results@;
            results.push((k, v));
            assert(pairs_view(results@) =~= pairs_view(before).push((k@, v@)));
            assert(pairs_view(from@).take(i + 1) =~= pairs_view(from@).take(i as int).push(
                pairs_view(from@)[i as int],
            ));
            assert(pairs_view(results@) =~= pairs_view(from@).take(i + 1));
            i = i + 1;
        }
        proof {
            lemma_prefix_block(self@, prefix@, pairs_view(from@), i as int);
            let pick = |k: Seq<u8>| prefix@.is_prefix_of(k);
            assert(lists_entries(self@, pick, pairs_view(results@)));
            assert(prefix_listing(self@, prefix@, pairs_view(results@)));
            let c = scan(self@, prefix@);
            assert(lists_entries(self@, pick, c));
            lemma_listing_unique(self@, pick, pairs_view(results@), c);
        }
        Ok(results)
    }

    /// Removes every key that begins with `prefix`; the answer is how many
    /// there were.
    pub fn delete_prefix(&mut self, prefix: &[u8]) -> (r: Result<usize, StorageError>)
        ensures
            r matches Ok(n) ==> final(self)@ == old(self)@.remove_keys(
                old(self)@.dom().filter(|k: Seq<u8>| prefix@.is_prefix_of(k)),
            ) && n == old(self)@.dom().filter(|k: Seq<u8>| prefix@.is_prefix_of(k)).len(),
    {
        let pairs = self.scan_prefix(prefix)?;
        let mut keys: Vec<Vec<u8>> = Vec::new();
        let mut i: usize = 0;
        while i < pairs.len()
            invariant
                i <= pairs.len(),
                keys@.len() == i,
                forall|j: int| 0 <= j < i ==> #[trigger] keys@[j]@ == pairs@[j].0@,
            decreases pairs.len() - i,
        {
            keys.push(crate::text::bytes_to_vec(pairs[i].0.as_slice()));
            i = i + 1;
        }
        if keys.len() == 0 {
            proof {
                lemma_listed_keys(old(self)@, prefix@, pairs_view(pairs@));
            }
            return Ok(0);
        }
        proof {
            reveal_strlit("snail_kv");
        }
        redb_remove(&mut self.db, KV_TABLE, &keys)?;
        proof {
            lemma_listed_keys(old(self)@, prefix@, pairs_view(pairs@));
            assert(keys@.map_values(|k: Vec<u8>| k@) =~= pairs_view(pairs@).map_values(
                |e: (Seq<u8>, Seq<u8>)| e.0,
            ));
        }
        Ok(keys.len())
    }
}

} // verus!
