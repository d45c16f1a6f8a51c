use keyring_store::codec::{encode_request, encode_response, decode_request, frame_header,
    parse_frame_len};
use keyring_store::protocol::{Request, Response, Root, Change};

fn round_trip(rid: u64, req: Request) -> (u64, Request) {
    let bytes = encode_request(rid, &req);
    decode_request(&bytes).expect("well-formed payload must decode")
}

#[test]
fn test_request_round_trips() {
    let cases: Vec<Request> = vec![
        Request::PutBlob { data: b"hello".to_vec() },
        Request::GetBlob { hash: vec![7u8; 32] },
        Request::HasBlob { hash: vec![9u8; 32] },
        Request::PutDocument {
            id: "a".to_string(),
            meta: b"m".to_vec(),
            crdt_state: b"s".to_vec(),
        },
        Request::GetDocument { id: "delta".to_string() },
        Request::DeleteDocument { id: "".to_string() },
        Request::ListDocuments,
        Request::GetRoots { doc_ids: vec!["a".to_string(), "b".to_string()] },
        Request::GetChanges { known_roots: vec![vec![1u8; 32], vec![2u8; 32]] },
        Request::ApplyChanges {
            changes: vec![Change {
                doc_id: "c".to_string(),
                data: b"x".to_vec(),
                hash: vec![3u8; 32],
            }],
        },
    ];
    let mut rid: u64 = 41;
    for req in cases {
        rid += 1;
        let (got_rid, got_req) = round_trip(rid, req.clone());
        assert_eq!(got_rid, rid);
        assert_eq!(got_req, req);
    }
}

#[test]
fn test_request_round_trip_unicode_id() {
    let req = Request::GetDocument { id: "döc/πθ".to_string() };
    let (rid, got) = round_trip(5, req.clone());
    assert_eq!(rid, 5);
    assert_eq!(got, req);
}

#[test]
fn test_decode_rejects_garbage() {
    assert!(decode_request(&[]).is_none());
    assert!(decode_request(&[1, 2, 3]).is_none());
    // a valid payload with trailing junk is refused
    let mut bytes = encode_request(1, &Request::ListDocuments);
    bytes.push(0);
    assert!(decode_request(&bytes).is_none());
    // an unknown tag is refused
    let mut unknown = Vec::new();
    unknown.extend_from_slice(&1u64.to_le_bytes());
    unknown.extend_from_slice(&99u32.to_le_bytes());
    assert!(decode_request(&unknown).is_none());
}

#[test]
fn test_request_encoding_matches_bincode() {
    let data = b"hello".to_vec();
    let ours = encode_request(7, &Request::PutBlob { data: data.clone() });
    let reference = bincode::serialize(&(7u64, 0u32, data.clone())).unwrap();
    assert_eq!(ours, reference);

    let ours = encode_request(
        9,
        &Request::PutDocument {
            id: "a".to_string(),
            meta: b"m".to_vec(),
            crdt_state: b"s".to_vec(),
        },
    );
    let reference =
        bincode::serialize(&(9u64, 3u32, "a".to_string(), b"m".to_vec(), b"s".to_vec())).unwrap();
    assert_eq!(ours, reference);

    let ours = encode_request(
        11,
        &Request::GetRoots { doc_ids: vec!["a".to_string(), "bb".to_string()] },
    );
    let reference =
        bincode::serialize(&(11u64, 7u32, vec!["a".to_string(), "bb".to_string()])).unwrap();
    assert_eq!(ours, reference);

    let ours = encode_request(
        13,
        &Request::ApplyChanges {
            changes: vec![Change {
                doc_id: "c".to_string(),
                data: b"x".to_vec(),
                hash: vec![3u8; 4],
            }],
        },
    );
    let reference = bincode::serialize(
        &(13u64, 9u32, vec![("c".to_string(), b"x".to_vec(), vec![3u8; 4])]),
    )
    .unwrap();
    assert_eq!(ours, reference);
}

#[test]
fn test_response_encoding_matches_bincode() {
    let ours = encode_response(3, &Response::Okay);
    let reference = bincode::serialize(&(3u64, 0u32)).unwrap();
    assert_eq!(ours, reference);

    let ours = encode_response(4, &Response::BlobExists { exists: true });
    let reference = bincode::serialize(&(4u64, 3u32, true)).unwrap();
    assert_eq!(ours, reference);

    let ours = encode_response(5, &Response::Error { message: "boom".to_string() });
    let reference = bincode::serialize(&(5u64, 10u32, "boom".to_string())).unwrap();
    assert_eq!(ours, reference);

    let ours = encode_response(
        6,
        &Response::Roots {
            roots: vec![Root { doc_id: "a".to_string(), hash: vec![1u8; 32] }],
        },
    );
    let reference =
        bincode::serialize(&(6u64, 7u32, vec![("a".to_string(), vec![1u8; 32])])).unwrap();
    assert_eq!(ours, reference);

    let ours = encode_response(
        8,
        &Response::SyncDiff { to_send: vec![b"p".to_vec()], to_request: vec![] },
    );
    let reference = bincode::serialize(
        &(8u64, 9u32, vec![b"p".to_vec()], Vec::<Vec<u8>>::new()),
    )
    .unwrap();
    assert_eq!(ours, reference);
}

#[test]
fn test_frame_header_round_trip() {
    for len in [0u32, 1, 255, 256, 65536, 0x01020304, u32::MAX] {
        let h = frame_header(len);
        assert_eq!(h.len(), 4);
        assert_eq!(h, len.to_be_bytes().to_vec());
        assert_eq!(parse_frame_len(&h), len);
    }
}
