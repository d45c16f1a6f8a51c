use keyring_store::dispatch::{handle_request, handle_frame};
use keyring_store::codec::encode_request;
use keyring_store::protocol::{Request, Response, Root, Change};
use keyring_store::store::Store;

fn digest(b: &[u8]) -> Vec<u8> {
    blake3::hash(b).as_bytes().to_vec()
}

#[test]
fn test_scenario_blob() {
    let mut store = Store::open("/tmp/keyring_store_test_disp_blob.redb").unwrap();
    let resp = handle_request(&mut store, Request::PutBlob { data: b"hello".to_vec() });
    assert_eq!(resp, Response::BlobStored { hash: digest(b"hello") });
    let resp = handle_request(&mut store, Request::GetBlob { hash: digest(b"hello") });
    assert_eq!(resp, Response::Blob { data: b"hello".to_vec() });
    let resp = handle_request(&mut store, Request::GetBlob { hash: vec![0u8; 32] });
    assert_eq!(resp, Response::NotFound);
    let resp = handle_request(&mut store, Request::HasBlob { hash: digest(b"hello") });
    assert_eq!(resp, Response::BlobExists { exists: true });
}

#[test]
fn test_scenario_document() {
    let mut store = Store::open("/tmp/keyring_store_test_disp_doc.redb").unwrap();
    let resp = handle_request(
        &mut store,
        Request::PutDocument {
            id: "a".to_string(),
            meta: b"m".to_vec(),
            crdt_state: b"s".to_vec(),
        },
    );
    assert_eq!(resp, Response::Okay);
    let resp = handle_request(&mut store, Request::GetDocument { id: "a".to_string() });
    assert_eq!(
        resp,
        Response::Document {
            id: "a".to_string(),
            meta: b"m".to_vec(),
            crdt_state: b"s".to_vec(),
        }
    );
    let resp = handle_request(&mut store, Request::ListDocuments);
    assert_eq!(resp, Response::DocumentList { ids: vec!["a".to_string()] });

    // roots over the stored set, and with missing ids elided
    let resp = handle_request(&mut store, Request::GetRoots { doc_ids: vec![] });
    assert_eq!(
        resp,
        Response::Roots {
            roots: vec![Root { doc_id: "a".to_string(), hash: digest(b"s") }],
        }
    );
    let resp = handle_request(
        &mut store,
        Request::GetRoots { doc_ids: vec!["a".to_string(), "missing".to_string()] },
    );
    assert_eq!(
        resp,
        Response::Roots {
            roots: vec![Root { doc_id: "a".to_string(), hash: digest(b"s") }],
        }
    );

    // changes against known roots
    let resp = handle_request(
        &mut store,
        Request::GetChanges { known_roots: vec![digest(b"s")] },
    );
    assert_eq!(resp, Response::Changes { changes: vec![] });
    let resp = handle_request(&mut store, Request::GetChanges { known_roots: vec![] });
    assert_eq!(
        resp,
        Response::Changes {
            changes: vec![Change {
                doc_id: "a".to_string(),
                data: b"s".to_vec(),
                hash: digest(b"s"),
            }],
        }
    );

    // delete twice, then the listing is empty
    let resp = handle_request(&mut store, Request::DeleteDocument { id: "a".to_string() });
    assert_eq!(resp, Response::Okay);
    let resp = handle_request(&mut store, Request::DeleteDocument { id: "a".to_string() });
    assert_eq!(resp, Response::NotFound);
    let resp = handle_request(&mut store, Request::ListDocuments);
    assert_eq!(resp, Response::DocumentList { ids: vec![] });
}

#[test]
fn test_scenario_apply_changes() {
    let mut store = Store::open("/tmp/keyring_store_test_disp_apply.redb").unwrap();
    // make sure "b" is absent even if the file is reused
    handle_request(&mut store, Request::DeleteDocument { id: "b".to_string() });
    let resp = handle_request(
        &mut store,
        Request::ApplyChanges {
            changes: vec![Change {
                doc_id: "b".to_string(),
                data: b"x".to_vec(),
                hash: digest(b"x"),
            }],
        },
    );
    assert_eq!(resp, Response::Okay);
    let resp = handle_request(&mut store, Request::GetDocument { id: "b".to_string() });
    assert_eq!(
        resp,
        Response::Document {
            id: "b".to_string(),
            meta: b"".to_vec(),
            crdt_state: b"x".to_vec(),
        }
    );

    // a change whose digest matches the stored state is skipped and keeps meta
    handle_request(
        &mut store,
        Request::PutDocument {
            id: "b".to_string(),
            meta: b"kept".to_vec(),
            crdt_state: b"x".to_vec(),
        },
    );
    let resp = handle_request(
        &mut store,
        Request::ApplyChanges {
            changes: vec![Change {
                doc_id: "b".to_string(),
                data: b"ignored".to_vec(),
                hash: digest(b"x"),
            }],
        },
    );
    assert_eq!(resp, Response::Okay);
    let resp = handle_request(&mut store, Request::GetDocument { id: "b".to_string() });
    assert_eq!(
        resp,
        Response::Document {
            id: "b".to_string(),
            meta: b"kept".to_vec(),
            crdt_state: b"x".to_vec(),
        }
    );
}

#[test]
fn test_frame_correlation() {
    let mut store = Store::open("/tmp/keyring_store_test_disp_frame.redb").unwrap();
    let rid: u64 = 0xDEAD_BEEF_0042;
    let payload = encode_request(rid, &Request::PutBlob { data: b"hello".to_vec() });
    let out = handle_frame(&mut store, &payload).expect("well-formed frame");
    // the response carries the request's correlation id
    let mut rid_bytes = [0u8; 8];
    rid_bytes.copy_from_slice(&out[0..8]);
    assert_eq!(u64::from_le_bytes(rid_bytes), rid);
    // and the response body is BlobStored with the digest
    let expected = bincode::serialize(&(rid, 2u32, digest(b"hello"))).unwrap();
    assert_eq!(out, expected);

    // garbled input ends the session
    assert!(handle_frame(&mut store, &[1, 2, 3]).is_none());
}
