//! Tests of the paged storage engine, the serializer, the primary
//! index and the document executor.

use keradb::{BufferPool, Config, Database, Document, Executor, Index, KeraDBError, Page,
    PageType, Pager, Serializer, Val};

fn obj(fields: Vec<(&str, Val)>) -> Val {
    Val::Obj(fields.into_iter().map(|(k, v)| (k.to_string(), v)).collect())
}

fn s(text: &str) -> Val {
    Val::Str(text.to_string())
}

fn get_int(v: &Val, key: &str) -> Option<i64> {
    match v.get(key) {
        Some(Val::Int(i)) => Some(*i),
        _ => None,
    }
}

fn get_str(v: &Val, key: &str) -> Option<String> {
    match v.get(key) {
        Some(Val::Str(t)) => Some(t.clone()),
        _ => None,
    }
}

#[test]
fn test_create_and_open() {
    let pager = Pager::create(4096);
    let bytes = pager.to_file_bytes();
    let pager = Pager::from_file_bytes(&bytes).unwrap();
    assert_eq!(pager.page_size(), 4096);
    assert_eq!(pager.page_count(), 0);
}

#[test]
fn test_write_and_read_page() {
    let mut pager = Pager::create(4096);
    let data = b"Hello, NoSQLite!".to_vec();
    let page = Page::new(0, PageType::Data, data.clone());
    pager.write_page(&page).unwrap();
    let read_page = pager.read_page(0).unwrap();
    assert!(matches!(read_page.page_type, PageType::Data));
    assert!(read_page.data.starts_with(&data));
}

#[test]
fn test_buffer_pool() {
    let mut pool = BufferPool::new(2);
    let page1 = Page::new(0, PageType::Data, vec![1, 2, 3]);
    let page2 = Page::new(1, PageType::Data, vec![4, 5, 6]);
    pool.put(page1);
    pool.put(page2);
    assert_eq!(pool.size(), 2);
    assert!(pool.get(0).is_some());
    assert!(pool.get(1).is_some());
    let page3 = Page::new(2, PageType::Data, vec![7, 8, 9]);
    pool.put(page3);
    assert_eq!(pool.size(), 2);
}

#[test]
fn test_serialize_document() {
    let doc = Document::new(obj(vec![("name", s("Alice")), ("age", Val::Int(30))]));
    let bytes = Serializer::serialize(&doc).unwrap();
    let deserialized = Serializer::deserialize(&bytes).unwrap();
    assert_eq!(doc.id, deserialized.id);
    assert!(keradb::vectypes::val_eq(&doc.data, &deserialized.data));
}

#[test]
fn test_index_operations() {
    let mut index = Index::new();
    index.insert("users", "id1".to_string(), 0, 0).unwrap();
    index.insert("users", "id2".to_string(), 0, 100).unwrap();
    assert_eq!(index.count("users"), 2);
    let entry = index.find("users", "id1").unwrap();
    assert_eq!(entry.doc_id, "id1");
    index.remove("users", "id1");
    assert_eq!(index.count("users"), 1);
}

#[test]
fn test_insert_and_find() {
    let pager = Pager::create(4096);
    let mut executor = Executor::new(pager, 10);
    let doc_data = obj(vec![("name", s("Alice")), ("age", Val::Int(30))]);
    let doc_id = executor.insert("users", doc_data).unwrap();
    let found = executor.find_by_id("users", &doc_id).unwrap();
    assert_eq!(get_str(&found.data, "name").unwrap(), "Alice");
}

#[test]
fn test_update() {
    let pager = Pager::create(4096);
    let mut executor = Executor::new(pager, 10);
    let doc_id = executor
        .insert("users", obj(vec![("name", s("Alice")), ("age", Val::Int(30))]))
        .unwrap();
    executor
        .update("users", &doc_id, obj(vec![("name", s("Alice")), ("age", Val::Int(31))]))
        .unwrap();
    let found = executor.find_by_id("users", &doc_id).unwrap();
    assert_eq!(get_int(&found.data, "age").unwrap(), 31);
}

#[test]
fn test_delete() {
    let pager = Pager::create(4096);
    let mut executor = Executor::new(pager, 10);
    let doc_id = executor.insert("users", obj(vec![("name", s("Alice"))])).unwrap();
    executor.delete("users", &doc_id).unwrap();
    assert!(executor.find_by_id("users", &doc_id).is_err());
}

#[test]
fn test_database_create_and_open() {
    let mut db = Database::create();
    let id = db.insert("users", obj(vec![("name", s("Alice"))])).unwrap();
    let image = db.file_image();
    drop(db);
    let mut db = Database::open_image(&image, Config::default()).unwrap();
    let doc = db.find_by_id("users", &id).unwrap();
    assert_eq!(get_str(&doc.data, "name").unwrap(), "Alice");
}

#[test]
fn test_full_crud_cycle() {
    let mut db = Database::create();
    let id1 = db
        .insert("users", obj(vec![("name", s("Alice")), ("age", Val::Int(30))]))
        .unwrap();
    let id2 = db
        .insert("users", obj(vec![("name", s("Bob")), ("age", Val::Int(25))]))
        .unwrap();
    let alice = db.find_by_id("users", &id1).unwrap();
    assert_eq!(get_str(&alice.data, "name").unwrap(), "Alice");
    db.update("users", &id1, obj(vec![("name", s("Alice")), ("age", Val::Int(31))]))
        .unwrap();
    let updated = db.find_by_id("users", &id1).unwrap();
    assert_eq!(get_int(&updated.data, "age").unwrap(), 31);
    assert_eq!(db.count("users"), 2);
    let all = db.find_all("users", None, None).unwrap();
    assert_eq!(all.len(), 2);
    db.delete("users", &id2).unwrap();
    assert_eq!(db.count("users"), 1);
    let collections = db.list_collections();
    assert_eq!(collections.len(), 1);
    assert_eq!(collections[0].0, "users");
    assert_eq!(collections[0].1, 1);
}

#[test]
fn scenario_create_insert_open_find() {
    let mut db = Database::create();
    let id1 = db
        .insert("users", obj(vec![("name", s("Alice")), ("age", Val::Int(30))]))
        .unwrap();
    let image = db.file_image();
    drop(db);
    let mut db = Database::open_image(&image, Config::default()).unwrap();
    let doc = db.find_by_id("users", &id1).unwrap();
    assert_eq!(get_int(&doc.data, "age").unwrap(), 30);
}

#[test]
fn scenario_duplicate_id_rejection() {
    let mut db = Database::create();
    let id = db
        .insert("c", obj(vec![("_id", s("x")), ("v", Val::Int(1))]))
        .unwrap();
    assert_eq!(id, "x");
    let second = db.insert("c", obj(vec![("_id", s("x")), ("v", Val::Int(2))]));
    assert!(matches!(second, Err(KeraDBError::DuplicateKey(_))));
    let doc = db.find_by_id("c", "x").unwrap();
    assert_eq!(get_int(&doc.data, "v").unwrap(), 1);
}

#[test]
fn scenario_checksum_detection() {
    let mut db = Database::create();
    let _id = db.insert("c", obj(vec![("k", s("v"))])).unwrap();
    let mut image = db.file_image();
    assert!(image.len() > 200);
    image[200] = 0xFF;
    // The page fails its integrity check on the next read.
    let pager = Pager::from_file_bytes(&image).unwrap();
    let read = pager.read_page(0);
    assert!(matches!(read, Err(KeraDBError::ChecksumMismatch)));
}

#[test]
fn test_generated_ids_have_uuid_shape() {
    let mut db = Database::create();
    let id = db.insert("users", obj(vec![("name", s("Alice"))])).unwrap();
    assert_eq!(id.len(), 36);
    assert_eq!(id.chars().filter(|c| *c == '-').count(), 4);
}

#[test]
fn test_insert_rejects_non_object() {
    let mut db = Database::create();
    let r = db.insert("users", Val::Int(5));
    assert!(matches!(r, Err(KeraDBError::InvalidDocument(_))));
    let r2 = db.insert("users", obj(vec![("_id", Val::Int(9))]));
    assert!(matches!(r2, Err(KeraDBError::InvalidDocument(_))));
}

#[test]
fn test_document_too_large_for_page() {
    let mut db = Database::create_with_config(Config {
        page_size: 64,
        cache_size: 4,
        auto_checkpoint: true,
    });
    let big = "x".repeat(500);
    let r = db.insert("c", obj(vec![("big", s(&big))]));
    assert!(matches!(r, Err(KeraDBError::StorageError(_))));
}

#[test]
fn test_open_rejects_bad_magic_and_version() {
    let db = Database::create();
    let image = db.file_image();
    let mut bad_magic = image.clone();
    bad_magic[0] = b'X';
    assert!(matches!(
        Database::open_image(&bad_magic, Config::default()),
        Err(KeraDBError::InvalidFormat(_))
    ));
    let mut bad_version = image.clone();
    bad_version[4] = 9;
    match Database::open_image(&bad_version, Config::default()) {
        Err(KeraDBError::VersionMismatch { expected, actual }) => {
            assert_eq!(expected, 1);
            assert_eq!(actual, 9);
        }
        _ => panic!("expected a version mismatch carrying both versions"),
    }
}

#[test]
fn test_delete_rewrites_page_as_free_and_zeroed() {
    let mut db = Database::create();
    let id = db.insert("c", obj(vec![("k", s("v"))])).unwrap();
    db.delete("c", &id).unwrap();
    let image = db.file_image();
    // One data page was allocated for the document; after the delete
    // its on-disk bytes carry the Free kind tag and an all-zero
    // payload behind a fresh checksum.
    let page_size = 4096usize;
    let header = 64usize;
    assert_eq!(image.len(), header + page_size);
    assert_eq!(image[header], 3, "freed page must carry the Free kind tag");
    for t in header + 5..header + page_size {
        assert_eq!(image[t], 0, "freed page payload must be zeroed");
    }
}

#[test]
fn test_deserialize_rejects_garbage() {
    let r = Serializer::deserialize(&[1, 2, 3]);
    assert!(matches!(r, Err(KeraDBError::Serialization(_))));
}

#[test]
fn test_find_missing_document() {
    let mut db = Database::create();
    let r = db.find_by_id("nowhere", "nope");
    assert!(matches!(r, Err(KeraDBError::DocumentNotFound(_))));
}

#[test]
fn test_json_round_trip() {
    let v = obj(vec![
        ("name", s("Alice \"quoted\" \\slash\n")),
        ("age", Val::Int(-42)),
        ("ok", Val::Bool(true)),
        ("nothing", Val::Null),
        ("list", Val::Arr(vec![Val::Int(1), s("two"), Val::Bool(false)])),
        ("nested", obj(vec![("k", Val::Int(0))])),
    ]);
    let bytes = keradb::jsontext::render_to_bytes(&v);
    let parsed = keradb::jsonparse::parse_document_bytes(&bytes).unwrap();
    assert!(keradb::vectypes::val_eq(&v, &parsed));
}

#[test]
fn test_persistence_round_trip_many() {
    let mut db = Database::create();
    let mut ids = Vec::new();
    for i in 0..20i64 {
        let id = db
            .insert("items", obj(vec![("n", Val::Int(i)), ("tag", s("keep"))]))
            .unwrap();
        ids.push((id, i));
    }
    let image = db.file_image();
    let mut db2 = Database::open_image(&image, Config::default()).unwrap();
    for (id, i) in ids {
        let doc = db2.find_by_id("items", &id).unwrap();
        assert_eq!(get_int(&doc.data, "n").unwrap(), i);
    }
    assert_eq!(db2.count("items"), 20);
}
