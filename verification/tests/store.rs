use keyring_store::store::Store;

#[test]
fn test_blob_round_trip() {
    let mut store = Store::open("/tmp/keyring_store_test_blob.redb").unwrap();
    let data = b"hello blob".to_vec();
    let h = store.put_blob(&data).unwrap();
    assert_eq!(h.len(), 32);
    assert_eq!(h, blake3::hash(&data).as_bytes().to_vec());
    assert_eq!(store.get_blob(&h).unwrap(), Some(data.clone()));
    assert!(store.has_blob(&h).unwrap());
    let absent = vec![0u8; 32];
    if absent != h {
        assert_eq!(store.get_blob(&absent).unwrap(), None);
    }
}

#[test]
fn test_blob_determinism() {
    let mut store = Store::open("/tmp/keyring_store_test_blob_det.redb").unwrap();
    let data = b"same bytes".to_vec();
    let h1 = store.put_blob(&data).unwrap();
    let h2 = store.put_blob(&data).unwrap();
    assert_eq!(h1, h2);
    assert_eq!(store.get_blob(&h1).unwrap(), Some(data));
}

#[test]
fn test_document_round_trip() {
    let mut store = Store::open("/tmp/keyring_store_test_doc.redb").unwrap();
    let id = "doc-rt".to_string();
    let meta = b"meta bytes".to_vec();
    let state = b"state bytes".to_vec();
    store.put_document(&id, &meta, &state).unwrap();
    assert_eq!(store.get_document(&id).unwrap(), Some((meta.clone(), state.clone())));
    assert_eq!(
        store.get_doc_hash(&id).unwrap(),
        Some(blake3::hash(&state).as_bytes().to_vec())
    );
}

#[test]
fn test_document_overwrite() {
    let mut store = Store::open("/tmp/keyring_store_test_doc_ow.redb").unwrap();
    let id = "doc-ow".to_string();
    store.put_document(&id, &b"m1".to_vec(), &b"s1".to_vec()).unwrap();
    store.put_document(&id, &b"m2".to_vec(), &b"s2".to_vec()).unwrap();
    assert_eq!(store.get_document(&id).unwrap(), Some((b"m2".to_vec(), b"s2".to_vec())));
    assert_eq!(
        store.get_doc_hash(&id).unwrap(),
        Some(blake3::hash(b"s2").as_bytes().to_vec())
    );
}

#[test]
fn test_delete_idempotent() {
    let mut store = Store::open("/tmp/keyring_store_test_del.redb").unwrap();
    let id = "doc-del".to_string();
    store.put_document(&id, &b"m".to_vec(), &b"s".to_vec()).unwrap();
    assert!(store.delete_document(&id).unwrap());
    assert!(!store.delete_document(&id).unwrap());
    assert_eq!(store.get_document(&id).unwrap(), None);
    assert_eq!(store.get_doc_hash(&id).unwrap(), None);
}

#[test]
fn test_list_and_hashes() {
    let mut store = Store::open("/tmp/keyring_store_test_list.redb").unwrap();
    store.put_document(&"b-doc".to_string(), &b"m".to_vec(), &b"sb".to_vec()).unwrap();
    store.put_document(&"a-doc".to_string(), &b"m".to_vec(), &b"sa".to_vec()).unwrap();
    let ids = store.list_documents().unwrap();
    assert_eq!(ids, vec!["a-doc".to_string(), "b-doc".to_string()]);

    let all = store.all_doc_hashes().unwrap();
    assert_eq!(all.len(), 2);
    assert_eq!(all[0].0, "a-doc");
    assert_eq!(all[0].1, blake3::hash(b"sa").as_bytes().to_vec());
    assert_eq!(all[1].0, "b-doc");
    assert_eq!(all[1].1, blake3::hash(b"sb").as_bytes().to_vec());

    let asked = vec!["b-doc".to_string(), "missing".to_string(), "a-doc".to_string()];
    let got = store.get_doc_hashes(&asked).unwrap();
    assert_eq!(got.len(), 2);
    assert_eq!(got[0].0, "b-doc");
    assert_eq!(got[1].0, "a-doc");
}
