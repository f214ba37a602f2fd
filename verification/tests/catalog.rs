use snail_core::catalog::{
    catalog_key, decode_schema_bytes, schema_json, Catalog, CatalogError, ColType, Column, Schema,
};
use snail_core::storage::Storage;
use std::sync::atomic::{AtomicU64, Ordering};
use std::time::{SystemTime, UNIX_EPOCH};

static COUNTER: AtomicU64 = AtomicU64::new(0);

fn temp_path(tag: &str) -> String {
    let n = COUNTER.fetch_add(1, Ordering::SeqCst);
    let nanos = SystemTime::now().duration_since(UNIX_EPOCH).unwrap().as_nanos();
    format!("/tmp/snaildb_catalog_{}_{}_{}.redb", tag, nanos, n)
}

fn make_schema(name: &str) -> Schema {
    Schema::new(
        name,
        vec![
            Column { name: "id".to_string(), col_type: ColType::Integer },
            Column { name: "name".to_string(), col_type: ColType::Text },
        ],
    )
}

#[test]
fn create_and_get_schema() {
    let mut storage = Storage::open(&temp_path("create")).unwrap();
    let mut catalog = Catalog::new(&mut storage);

    catalog.create_table(make_schema("users")).unwrap();
    let schema = catalog.get_schema("users").unwrap();
    assert_eq!(schema.table_name, "users");
    assert_eq!(schema.columns.len(), 2);
    assert_eq!(schema.columns[0].name, "id");
    assert_eq!(schema.columns[1].col_type, ColType::Text);
}

#[test]
fn duplicate_table_is_error() {
    let mut storage = Storage::open(&temp_path("dup")).unwrap();
    let mut catalog = Catalog::new(&mut storage);

    catalog.create_table(make_schema("users")).unwrap();
    let err = catalog.create_table(make_schema("users")).unwrap_err();
    assert!(matches!(err, CatalogError::TableAlreadyExists(_)));
}

#[test]
fn get_missing_table_is_error() {
    let mut storage = Storage::open(&temp_path("missing")).unwrap();
    let catalog = Catalog::new(&mut storage);

    let err = catalog.get_schema("ghost").unwrap_err();
    assert!(matches!(err, CatalogError::TableNotFound(_)));
}

#[test]
fn drop_table() {
    let mut storage = Storage::open(&temp_path("drop")).unwrap();
    let mut catalog = Catalog::new(&mut storage);

    catalog.create_table(make_schema("users")).unwrap();
    assert!(catalog.table_exists("users").unwrap());

    catalog.drop_table("users").unwrap();
    assert!(!catalog.table_exists("users").unwrap());

    let err = catalog.drop_table("users").unwrap_err();
    assert!(matches!(err, CatalogError::TableNotFound(_)));
}

#[test]
fn list_tables() {
    let mut storage = Storage::open(&temp_path("list")).unwrap();
    let mut catalog = Catalog::new(&mut storage);

    catalog.create_table(make_schema("users")).unwrap();
    catalog.create_table(make_schema("products")).unwrap();

    let mut tables = catalog.list_tables().unwrap();
    tables.sort();
    assert_eq!(tables, vec!["products", "users"]);
}

#[test]
fn column_index() {
    let schema = make_schema("users");
    assert_eq!(schema.column_index("id"), Some(0));
    assert_eq!(schema.column_index("name"), Some(1));
    assert_eq!(schema.column_index("age"), None);
}

// ── Further cases ────────────────────────────────────────────────────────────

#[test]
fn col_type_names() {
    assert_eq!(ColType::from_str("integer"), Some(ColType::Integer));
    assert_eq!(ColType::from_str("Int"), Some(ColType::Integer));
    assert_eq!(ColType::from_str("TEXT"), Some(ColType::Text));
    assert_eq!(ColType::from_str("varchar"), Some(ColType::Text));
    assert_eq!(ColType::from_str("BLOB"), None);
    assert_eq!(ColType::from_str(""), None);
}

#[test]
fn column_index_first_of_duplicates() {
    let schema = Schema::new(
        "t",
        vec![
            Column { name: "a".to_string(), col_type: ColType::Integer },
            Column { name: "b".to_string(), col_type: ColType::Text },
            Column { name: "a".to_string(), col_type: ColType::Text },
        ],
    );
    assert_eq!(schema.column_index("a"), Some(0));
    assert_eq!(schema.column_index("b"), Some(1));
}

#[test]
fn catalog_key_bytes() {
    assert_eq!(catalog_key("users"), b"catalog:users".to_vec());
    assert_eq!(catalog_key(""), b"catalog:".to_vec());
}

#[test]
fn schema_json_text() {
    let text = schema_json(&make_schema("users"));
    assert_eq!(
        text,
        "{\"table_name\":\"users\",\"columns\":[{\"name\":\"id\",\"col_type\":\"Integer\"},{\"name\":\"name\",\"col_type\":\"Text\"}]}"
    );
}

#[test]
fn schema_json_escapes_names() {
    let s = Schema::new("we\"ird", vec![]);
    assert_eq!(schema_json(&s), "{\"table_name\":\"we\\\"ird\",\"columns\":[]}");
}

#[test]
fn schema_round_trips_through_json() {
    let text = schema_json(&make_schema("users"));
    let back = decode_schema_bytes(text.as_bytes()).unwrap();
    assert_eq!(back.table_name, "users");
    assert_eq!(back.columns.len(), 2);
    assert_eq!(back.columns[0].name, "id");
    assert_eq!(back.columns[0].col_type, ColType::Integer);
    assert_eq!(back.columns[1].name, "name");
    assert_eq!(back.columns[1].col_type, ColType::Text);
}

#[test]
fn schema_decodes_in_any_key_order() {
    let text = "{\"columns\":[{\"col_type\":\"Text\",\"name\":\"x\"}],\"extra\":1,\"table_name\":\"t\"}";
    let back = decode_schema_bytes(text.as_bytes()).unwrap();
    assert_eq!(back.table_name, "t");
    assert_eq!(back.columns.len(), 1);
    assert_eq!(back.columns[0].name, "x");
    assert_eq!(back.columns[0].col_type, ColType::Text);
}

#[test]
fn bad_schema_bytes_are_errors() {
    assert!(decode_schema_bytes(b"not json").is_err());
    assert!(decode_schema_bytes(b"{\"table_name\":\"t\"}").is_err());
    assert!(decode_schema_bytes(b"{\"table_name\":1,\"columns\":[]}").is_err());
    let bad_type = "{\"table_name\":\"t\",\"columns\":[{\"name\":\"a\",\"col_type\":\"Blob\"}]}";
    assert!(decode_schema_bytes(bad_type.as_bytes()).is_err());
}

#[test]
fn undecodable_schema_is_deserialise_error() {
    let mut storage = Storage::open(&temp_path("corrupt")).unwrap();
    storage.put(b"catalog:t", b"{oops").unwrap();
    let catalog = Catalog::new(&mut storage);
    let err = catalog.get_schema("t").unwrap_err();
    assert!(matches!(err, CatalogError::Deserialise(_)));
}

#[test]
fn list_tables_in_key_order_with_lossy_names() {
    let mut storage = Storage::open(&temp_path("lossy")).unwrap();
    storage.put(b"catalog:b", b"{}").unwrap();
    storage.put(b"catalog:a\xff", b"{}").unwrap();
    storage.put(b"row:x:1", b"{}").unwrap();
    let catalog = Catalog::new(&mut storage);
    let tables = catalog.list_tables().unwrap();
    assert_eq!(tables, vec!["a\u{FFFD}".to_string(), "b".to_string()]);
}

#[test]
fn stored_schema_text_is_what_schema_json_writes() {
    let mut storage = Storage::open(&temp_path("stored")).unwrap();
    {
        let mut catalog = Catalog::new(&mut storage);
        catalog.create_table(make_schema("users")).unwrap();
    }
    let bytes = storage.get(b"catalog:users").unwrap().unwrap();
    assert_eq!(bytes, schema_json(&make_schema("users")).into_bytes());
}

#[test]
fn dropping_one_table_keeps_the_others() {
    let mut storage = Storage::open(&temp_path("apart")).unwrap();
    let mut catalog = Catalog::new(&mut storage);
    catalog.create_table(make_schema("users")).unwrap();
    catalog.create_table(make_schema("orders")).unwrap();
    catalog.drop_table("users").unwrap();
    assert!(!catalog.table_exists("users").unwrap());
    assert!(catalog.table_exists("orders").unwrap());
    let schema = catalog.get_schema("orders").unwrap();
    assert_eq!(schema.table_name, "orders");
    assert_eq!(schema.columns.len(), 2);
    assert_eq!(catalog_key("users"), b"catalog:users".to_vec());
    assert_ne!(catalog_key("users"), catalog_key("orders"));
}

#[test]
fn schema_in_sorted_key_order_decodes() {
    let text = "{\"columns\":[{\"col_type\":\"Integer\",\"name\":\"id\"}],\"table_name\":\"users\"}";
    let back = decode_schema_bytes(text.as_bytes()).unwrap();
    assert_eq!(back.table_name, "users");
    assert_eq!(back.columns.len(), 1);
    assert_eq!(back.columns[0].name, "id");
    assert_eq!(back.columns[0].col_type, ColType::Integer);
}

#[test]
fn schema_json_escapes_control_characters() {
    let s = Schema::new("a\nb\u{1}\\", vec![]);
    assert_eq!(schema_json(&s), "{\"table_name\":\"a\\nb\\u0001\\\\\",\"columns\":[]}");
}

#[test]
fn schema_in_array_form_decodes() {
    let text = "[\"users\",[[\"id\",\"Integer\"],{\"name\":\"n\",\"col_type\":{\"Text\":null}}]]";
    let back = decode_schema_bytes(text.as_bytes()).unwrap();
    assert_eq!(back.table_name, "users");
    assert_eq!(back.columns.len(), 2);
    assert_eq!(back.columns[0].name, "id");
    assert_eq!(back.columns[0].col_type, ColType::Integer);
    assert_eq!(back.columns[1].name, "n");
    assert_eq!(back.columns[1].col_type, ColType::Text);
    assert!(decode_schema_bytes(b"[\"users\"]").is_err());
    assert!(decode_schema_bytes(b"[\"users\",[],1]").is_err());
    assert!(decode_schema_bytes(b"[\"users\",[[\"id\"]]]").is_err());
    assert!(decode_schema_bytes(b"{\"table_name\":\"t\",\"columns\":[{\"name\":\"a\",\"col_type\":{\"Text\":1}}]}").is_err());
}
