use snail_core::storage::Storage;
use std::sync::atomic::{AtomicU64, Ordering};
use std::time::{SystemTime, UNIX_EPOCH};

static COUNTER: AtomicU64 = AtomicU64::new(0);

fn temp_path(tag: &str) -> String {
    let n = COUNTER.fetch_add(1, Ordering::SeqCst);
    let nanos = SystemTime::now().duration_since(UNIX_EPOCH).unwrap().as_nanos();
    format!("/tmp/snaildb_storage_{}_{}_{}.redb", tag, nanos, n)
}

#[test]
fn put_get_delete() {
    let mut s = Storage::open(&temp_path("pgd")).unwrap();
    assert_eq!(s.get(b"foo").unwrap(), None);
    s.put(b"foo", b"bar").unwrap();
    assert_eq!(s.get(b"foo").unwrap(), Some(b"bar".to_vec()));
    s.put(b"foo", b"baz").unwrap();
    assert_eq!(s.get(b"foo").unwrap(), Some(b"baz".to_vec()));
    assert!(s.delete(b"foo").unwrap());
    assert_eq!(s.get(b"foo").unwrap(), None);
    assert!(!s.delete(b"foo").unwrap());
}

#[test]
fn scan_prefix() {
    let mut s = Storage::open(&temp_path("scan")).unwrap();
    s.put(b"row:users:1", b"alice").unwrap();
    s.put(b"row:users:2", b"bob").unwrap();
    s.put(b"row:products:1", b"widget").unwrap();
    s.put(b"catalog:users", b"schema").unwrap();
    let r = s.scan_prefix(b"row:users:").unwrap();
    assert_eq!(r.len(), 2);
    assert_eq!(r[0].1, b"alice");
    assert_eq!(r[1].1, b"bob");
}

#[test]
fn delete_prefix() {
    let mut s = Storage::open(&temp_path("delp")).unwrap();
    s.put(b"row:users:1", b"alice").unwrap();
    s.put(b"row:users:2", b"bob").unwrap();
    s.put(b"row:products:1", b"widget").unwrap();
    let deleted = s.delete_prefix(b"row:users:").unwrap();
    assert_eq!(deleted, 2);
    assert_eq!(s.get(b"row:users:1").unwrap(), None);
    assert_eq!(s.get(b"row:products:1").unwrap(), Some(b"widget".to_vec()));
}

#[test]
fn persists_across_reopen() {
    let path = temp_path("persist");
    {
        let mut s = Storage::open(&path).unwrap();
        s.put(b"key1", b"value1").unwrap();
    }
    {
        let s = Storage::open(&path).unwrap();
        assert_eq!(s.get(b"key1").unwrap(), Some(b"value1".to_vec()));
    }
}

// ── Further cases ────────────────────────────────────────────────────────────

#[test]
fn scan_prefix_orders_by_bytes() {
    let mut s = Storage::open(&temp_path("order")).unwrap();
    s.put(b"p:b", b"2").unwrap();
    s.put(b"p:a", b"1").unwrap();
    s.put(b"p:", b"0").unwrap();
    s.put(b"q", b"x").unwrap();
    s.put(b"p", b"y").unwrap();
    let r = s.scan_prefix(b"p:").unwrap();
    let keys: Vec<Vec<u8>> = r.iter().map(|(k, _)| k.clone()).collect();
    assert_eq!(keys, vec![b"p:".to_vec(), b"p:a".to_vec(), b"p:b".to_vec()]);
}

#[test]
fn scan_empty_prefix_lists_everything() {
    let mut s = Storage::open(&temp_path("all")).unwrap();
    s.put(b"b", b"2").unwrap();
    s.put(b"a", b"1").unwrap();
    let r = s.scan_prefix(b"").unwrap();
    assert_eq!(r, vec![(b"a".to_vec(), b"1".to_vec()), (b"b".to_vec(), b"2".to_vec())]);
}

#[test]
fn delete_prefix_with_no_match() {
    let mut s = Storage::open(&temp_path("none")).unwrap();
    s.put(b"a", b"1").unwrap();
    assert_eq!(s.delete_prefix(b"zz").unwrap(), 0);
    assert_eq!(s.get(b"a").unwrap(), Some(b"1".to_vec()));
}

#[test]
fn empty_key_and_value() {
    let mut s = Storage::open(&temp_path("empty")).unwrap();
    s.put(b"", b"").unwrap();
    assert_eq!(s.get(b"").unwrap(), Some(Vec::new()));
}

#[test]
fn scan_after_write_and_after_delete_prefix() {
    let mut s = Storage::open(&temp_path("law")).unwrap();
    s.put(b"row:t:2", b"two").unwrap();
    s.put(b"row:t:1", b"one").unwrap();
    s.put(b"row:t:1", b"uno").unwrap();
    let r = s.scan_prefix(b"row:t:").unwrap();
    assert_eq!(r, vec![(b"row:t:1".to_vec(), b"uno".to_vec()), (b"row:t:2".to_vec(), b"two".to_vec())]);
    s.delete_prefix(b"row:t:").unwrap();
    assert!(s.scan_prefix(b"row:t:").unwrap().is_empty());
    assert_eq!(s.delete(b"row:t:1").unwrap(), false);
}
