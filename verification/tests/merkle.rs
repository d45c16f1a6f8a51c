use keyring_store::merkle::{compute_root, diff_roots};

#[test]
fn test_empty_root() {
    assert_eq!(compute_root(&[]), vec![0u8; 32]);
}

#[test]
fn test_single_root() {
    let h = blake3::hash(b"hello").as_bytes().to_vec();
    let root = compute_root(&[("doc1".into(), h.clone())]);
    assert_eq!(root, h);
}

#[test]
fn test_diff_roots() {
    let h1 = blake3::hash(b"a").as_bytes().to_vec();
    let h2 = blake3::hash(b"b").as_bytes().to_vec();
    let h3 = blake3::hash(b"c").as_bytes().to_vec();

    let local = vec![("doc1".to_string(), h1.clone()), ("doc2".to_string(), h2.clone())];
    let remote = vec![("doc2".to_string(), h2.clone()), ("doc3".to_string(), h3.clone())];

    let (send, request) = diff_roots(&local, &remote);
    assert_eq!(send, vec!["doc1"]);
    assert_eq!(request, vec!["doc3"]);
}

#[test]
fn test_root_permutation_invariant() {
    let h1 = blake3::hash(b"one").as_bytes().to_vec();
    let h2 = blake3::hash(b"two").as_bytes().to_vec();
    let h3 = blake3::hash(b"three").as_bytes().to_vec();
    let a = vec![
        ("x".to_string(), h1.clone()),
        ("y".to_string(), h2.clone()),
        ("z".to_string(), h3.clone()),
    ];
    let b = vec![
        ("z".to_string(), h3.clone()),
        ("x".to_string(), h1.clone()),
        ("y".to_string(), h2.clone()),
    ];
    assert_eq!(compute_root(&a), compute_root(&b));
}

#[test]
fn test_root_change_sensitivity() {
    let h1 = blake3::hash(b"one").as_bytes().to_vec();
    let h2 = blake3::hash(b"two").as_bytes().to_vec();
    let h2b = blake3::hash(b"two-changed").as_bytes().to_vec();
    let base = vec![("x".to_string(), h1.clone()), ("y".to_string(), h2.clone())];
    let changed = vec![("x".to_string(), h1.clone()), ("y".to_string(), h2b.clone())];
    let grown = vec![
        ("x".to_string(), h1.clone()),
        ("y".to_string(), h2.clone()),
        ("z".to_string(), h2b.clone()),
    ];
    let shrunk = vec![("x".to_string(), h1.clone())];
    let root = compute_root(&base);
    assert_ne!(root, compute_root(&changed));
    assert_ne!(root, compute_root(&grown));
    assert_ne!(root, compute_root(&shrunk));
}

#[test]
fn test_root_matches_manual_pairing() {
    // three leaves: root = H(H(a ++ b) ++ c) with the odd leaf promoted
    let ha = blake3::hash(b"pa").as_bytes().to_vec();
    let hb = blake3::hash(b"pb").as_bytes().to_vec();
    let hc = blake3::hash(b"pc").as_bytes().to_vec();
    let mut ab = ha.clone();
    ab.extend_from_slice(&hb);
    let hab = blake3::hash(&ab).as_bytes().to_vec();
    let mut top = hab.clone();
    top.extend_from_slice(&hc);
    let expected = blake3::hash(&top).as_bytes().to_vec();
    let pairs = vec![
        ("a".to_string(), ha.clone()),
        ("b".to_string(), hb.clone()),
        ("c".to_string(), hc.clone()),
    ];
    assert_eq!(compute_root(&pairs), expected);
}

#[test]
fn test_diff_symmetry_and_order() {
    let h1 = blake3::hash(b"1").as_bytes().to_vec();
    let h2 = blake3::hash(b"2").as_bytes().to_vec();
    let h2b = blake3::hash(b"2b").as_bytes().to_vec();
    let h3 = blake3::hash(b"3").as_bytes().to_vec();
    let local = vec![
        ("b".to_string(), h2.clone()),
        ("a".to_string(), h1.clone()),
        ("d".to_string(), h3.clone()),
    ];
    let remote = vec![("b".to_string(), h2b.clone()), ("c".to_string(), h3.clone())];
    let (send_ab, req_ab) = diff_roots(&local, &remote);
    let (send_ba, req_ba) = diff_roots(&remote, &local);
    assert_eq!(send_ab, req_ba);
    assert_eq!(req_ab, send_ba);
    assert_eq!(send_ab, vec!["a", "b", "d"]);
    assert_eq!(req_ab, vec!["b", "c"]);
    let mut sorted = send_ab.clone();
    sorted.sort();
    assert_eq!(send_ab, sorted);
}
