//! The request dispatcher: one handler invocation per decoded frame. Storage
//! failures become an `Error` response and the session goes on; what each
//! response means in terms of the store's state is pinned by `handler_ok`.

use vstd::prelude::*;
use vstd::utf8::encode_utf8;
use crate::digest::digest_of;
use crate::merkle::{str_ids, strictly_ascending};
use crate::order::{pairs_rep, ids_rep, bytes_eq_exec};
use crate::protocol::{Request, Response, Root, Change};
use crate::store::{Store, StoreModel, hash_selection};
use crate::codec::{decode_request, encode_response, req_payload, resp_payload};

verus! {

/// The views of a list of byte vectors.
pub open spec fn bytes_views(s: Seq<Vec<u8>>) -> Seq<Seq<u8>> {
    s.map_values(|v: Vec<u8>| v@)
}

/// The mathematical content of a list of `Root` records.
pub open spec fn roots_rep(rs: Seq<Root>) -> Seq<(Seq<u8>, Seq<u8>)> {
    rs.map_values(|r: Root| (encode_utf8(r.doc_id@), r.hash@))
}

/// The mathematical content of a list of `Change` records:
/// `(id bytes, data, advertised hash)` triples.
pub open spec fn changes_rep(cs: Seq<Change>) -> Seq<(Seq<u8>, Seq<u8>, Seq<u8>)> {
    cs.map_values(|c: Change| (encode_utf8(c.doc_id@), c.data@, c.hash@))
}

/// A correct `DocumentList` body: every stored id once, ascending.
pub open spec fn list_ok(m: StoreModel, ids: Seq<String>) -> bool {
    &&& strictly_ascending(str_ids(ids))
    &&& forall|i: int| 0 <= i < ids.len() ==> m.docs.contains_key(#[trigger] str_ids(ids)[i])
    &&& forall|k: Seq<u8>| #[trigger] m.docs.contains_key(k) ==> str_ids(ids).contains(k)
}

/// A correct full `Roots` body: every stored `(id, state digest)` pair once,
/// ascending by id.
pub open spec fn roots_all_ok(m: StoreModel, reps: Seq<(Seq<u8>, Seq<u8>)>) -> bool {
    &&& strictly_ascending(ids_rep(reps))
    &&& forall|i: int|
        0 <= i < reps.len() ==> m.hashes.contains_key(#[trigger] reps[i].0) && reps[i].1
            == m.hashes[reps[i].0]
    &&& forall|k: Seq<u8>| #[trigger] m.hashes.contains_key(k) ==> ids_rep(reps).contains(k)
}

/// A correct `Changes` body against the known-roots set: one change per
/// stored document whose digest the peer lacks, with its state and digest,
/// ascending by id, and nothing else.
pub open spec fn changes_ok(
    m: StoreModel,
    known: Seq<Seq<u8>>,
    cs: Seq<(Seq<u8>, Seq<u8>, Seq<u8>)>,
) -> bool {
    &&& strictly_ascending(cs.map_values(|c: (Seq<u8>, Seq<u8>, Seq<u8>)| c.0))
    &&& forall|i: int|
        0 <= i < cs.len() ==> m.hashes.contains_key(#[trigger] cs[i].0) && cs[i].2
            == m.hashes[cs[i].0] && cs[i].1 == m.data[cs[i].0] && !known.contains(cs[i].2)
    &&& forall|k: Seq<u8>|
        #[trigger] m.hashes.contains_key(k) && !known.contains(m.hashes[k]) ==> exists|i: int|
            0 <= i < cs.len() && #[trigger] cs[i].0 == k
}

/// One step of `ApplyChanges`: a change whose advertised digest equals the
/// stored one is skipped; otherwise the document is stored with empty
/// metadata and the incoming state.
pub open spec fn apply_change(m: StoreModel, c: (Seq<u8>, Seq<u8>, Seq<u8>)) -> StoreModel {
    if m.hashes.dom().contains(c.0) && m.hashes[c.0] == c.2 {
        m
    } else {
        m.with_doc(c.0, Seq::empty(), c.1)
    }
}

/// `ApplyChanges` folded over a batch, in order.
pub open spec fn apply_changes(m: StoreModel, cs: Seq<(Seq<u8>, Seq<u8>, Seq<u8>)>) -> StoreModel
    decreases cs.len(),
{
    if cs.len() == 0 {
        m
    } else {
        apply_changes(apply_change(m, cs[0]), cs.drop_first())
    }
}

proof fn lemma_apply_changes_push(
    m: StoreModel,
    cs: Seq<(Seq<u8>, Seq<u8>, Seq<u8>)>,
    c: (Seq<u8>, Seq<u8>, Seq<u8>),
)
    ensures
        apply_changes(m, cs.push(c)) == apply_change(apply_changes(m, cs), c),
    decreases cs.len(),
{
    if cs.len() == 0 {
        assert(cs.push(c)[0] == c);
        assert(cs.push(c).drop_first() =~= Seq::<(Seq<u8>, Seq<u8>, Seq<u8>)>::empty());
        assert(apply_changes(m, cs.push(c)) == apply_changes(
            apply_change(m, c),
            cs.push(c).drop_first(),
        ));
        assert(apply_changes(apply_change(m, c), cs.push(c).drop_first()) == apply_change(m, c));
        assert(apply_changes(m, cs) == m);
    } else {
        assert(cs.push(c)[0] == cs[0]);
        assert(cs.push(c).drop_first() =~= cs.drop_first().push(c));
        assert(apply_changes(m, cs.push(c)) == apply_changes(
            apply_change(m, cs[0]),
            cs.drop_first().push(c),
        ));
        lemma_apply_changes_push(apply_change(m, cs[0]), cs.drop_first(), c);
        assert(apply_changes(m, cs) == apply_changes(apply_change(m, cs[0]), cs.drop_first()));
    }
}

/// What each response means: for every request variant, how the response
/// relates to the store's state before and after the handler ran. An `Error`
/// response is always allowed for a storage failure; reads and failed
/// mutations leave the state as it was, and a failed `ApplyChanges` leaves
/// the state after some prefix of the batch.
pub open spec fn handler_ok(
    pre: StoreModel,
    req: Request,
    post: StoreModel,
    resp: Response,
) -> bool {
    match req {
        Request::PutBlob { data } => match resp {
            Response::BlobStored { hash } => hash@ == digest_of(data@) && hash@.len() == 32 && post
                == pre.with_blob(data@),
            Response::Error { .. } => post == pre,
            _ => false,
        },
        Request::GetBlob { hash } => post == pre && match resp {
            Response::Blob { data } => pre.blobs.contains_key(hash@) && data@ == pre.blobs[hash@],
            Response::NotFound => !pre.blobs.contains_key(hash@),
            Response::Error { .. } => true,
            _ => false,
        },
        Request::HasBlob { hash } => post == pre && match resp {
            Response::BlobExists { exists } => exists == pre.blobs.contains_key(hash@),
            Response::Error { .. } => true,
            _ => false,
        },
        Request::PutDocument { id, meta, crdt_state } => match resp {
            Response::Okay => post == pre.with_doc(encode_utf8(id@), meta@, crdt_state@),
            Response::Error { .. } => post == pre,
            _ => false,
        },
        Request::GetDocument { id } => post == pre && match resp {
            Response::Document { id: rid, meta, crdt_state } => rid@ == id@
                && pre.docs.contains_key(encode_utf8(id@)) && meta@ == pre.docs[encode_utf8(id@)]
                && crdt_state@ == pre.data[encode_utf8(id@)],
            Response::NotFound => !pre.docs.contains_key(encode_utf8(id@)),
            Response::Error { .. } => true,
            _ => false,
        },
        Request::DeleteDocument { id } => match resp {
            Response::Okay => pre.docs.contains_key(encode_utf8(id@)) && post == pre.without_doc(
                encode_utf8(id@),
            ),
            Response::NotFound => !pre.docs.contains_key(encode_utf8(id@)) && post
                == pre.without_doc(encode_utf8(id@)),
            Response::Error { .. } => post == pre,
            _ => false,
        },
        Request::ListDocuments => post == pre && match resp {
            Response::DocumentList { ids } => list_ok(pre, ids@),
            Response::Error { .. } => true,
            _ => false,
        },
        Request::GetRoots { doc_ids } => post == pre && match resp {
            Response::Roots { roots } => if doc_ids@.len() == 0 {
                roots_all_ok(pre, roots_rep(roots@))
            } else {
                roots_rep(roots@) == hash_selection(pre, str_ids(doc_ids@))
            },
            Response::Error { .. } => true,
            _ => false,
        },
        Request::GetChanges { known_roots } => post == pre && match resp {
            Response::Changes { changes } => changes_ok(
                pre,
                bytes_views(known_roots@),
                changes_rep(changes@),
            ),
            Response::Error { .. } => true,
            _ => false,
        },
        Request::ApplyChanges { changes } => match resp {
            Response::Okay => post == apply_changes(pre, changes_rep(changes@)),
            Response::Error { .. } => exists|i: int|
                0 <= i <= changes@.len() && post == apply_changes(
                    pre,
                    #[trigger] changes_rep(changes@).take(i),
                ),
            _ => false,
        },
    }
}

/// Whether `h` occurs among the byte vectors of `known`.
fn contains_bytes(known: &Vec<Vec<u8>>, h: &Vec<u8>) -> (r: bool)
    ensures
        r == bytes_views(known@).contains(h@),
{
    let mut i: usize = 0;
    while i < known.len()
        invariant
            i <= known@.len(),
            forall|j: int| 0 <= j < i ==> bytes_views(known@)[j] != h@,
        decreases known@.len() - i,
    {
        if bytes_eq_exec(known[i].as_slice(), h.as_slice()) {
            proof {
                assert(bytes_views(known@)[i as int] == h@);
            }
            return true;
        }
        i = i + 1;
    }
    proof {
        if bytes_views(known@).contains(h@) {
            let w = choose|w: int|
                0 <= w < bytes_views(known@).len() && bytes_views(known@)[w] == h@;
            assert(false);
        }
    }
    false
}

/// Handles one decoded request against the store and produces the response
/// for it. Storage failures surface as `Error` and leave no partial document
/// update behind.
pub fn handle_request(store: &mut Store, req: Request) -> (resp: Response)
    requires
        old(store)@.wf(),
    ensures
        final(store)@.wf(),
        handler_ok(old(store)@, req, final(store)@, resp),
{
    match req {
        Request::PutBlob { data } => match store.put_blob(&data) {
            Ok(hash) => Response::BlobStored { hash },
            Err(e) => Response::Error { message: e.message },
        },
        Request::GetBlob { hash } => match store.get_blob(&hash) {
            Ok(Some(data)) => Response::Blob { data },
            Ok(None) => Response::NotFound,
            Err(e) => Response::Error { message: e.message },
        },
        Request::HasBlob { hash } => match store.has_blob(&hash) {
            Ok(exists) => Response::BlobExists { exists },
            Err(e) => Response::Error { message: e.message },
        },
        Request::PutDocument { id, meta, crdt_state } => {
            match store.put_document(&id, &meta, &crdt_state) {
                Ok(()) => Response::Okay,
                Err(e) => Response::Error { message: e.message },
            }
        },
        Request::GetDocument { id } => match store.get_document(&id) {
            Ok(Some((meta, crdt_state))) => Response::Document { id, meta, crdt_state },
            Ok(None) => Response::NotFound,
            Err(e) => Response::Error { message: e.message },
        },
        Request::DeleteDocument { id } => match store.delete_document(&id) {
            Ok(true) => Response::Okay,
            Ok(false) => Response::NotFound,
            Err(e) => Response::Error { message: e.message },
        },
        Request::ListDocuments => match store.list_documents() {
            Ok(ids) => Response::DocumentList { ids },
            Err(e) => Response::Error { message: e.message },
        },
        Request::GetRoots { doc_ids } => handle_get_roots(&*store, &doc_ids),
        Request::GetChanges { known_roots } => handle_get_changes(&*store, &known_roots),
        Request::ApplyChanges { changes } => handle_apply_changes(store, &changes),
    }
}


/// `GetRoots`: all roots when `doc_ids` is empty, else the requested subset
/// in request order, missing ids left out.
fn handle_get_roots(store: &Store, doc_ids: &Vec<String>) -> (resp: Response)
    ensures
        match resp {
            Response::Roots { roots } => if doc_ids@.len() == 0 {
                roots_all_ok(store@, roots_rep(roots@))
            } else {
                roots_rep(roots@) == hash_selection(store@, str_ids(doc_ids@))
            },
            Response::Error { .. } => true,
            _ => false,
        },
{
    let looked_up = if doc_ids.len() == 0 {
        store.all_doc_hashes()
    } else {
        store.get_doc_hashes(doc_ids)
    };
    match looked_up {
        Err(e) => Response::Error { message: e.message },
        Ok(pairs) => {
            let mut roots: Vec<Root> = Vec::new();
            let mut i: usize = 0;
            while i < pairs.len()
                invariant
                    i <= pairs@.len(),
                    roots_rep(roots@) =~= pairs_rep(pairs@).take(i as int),
                decreases pairs@.len() - i,
            {
                let doc_id = pairs[i].0.clone();
                let hash = crate::merkle::clone_bytes(&pairs[i].1);
                let ghost prev = roots@;
                roots.push(Root { doc_id, hash });
                proof {
                    assert(roots_rep(roots@) =~= roots_rep(prev).push(pairs_rep(pairs@)[i as int]));
                    assert(pairs_rep(pairs@).take(i + 1) =~= pairs_rep(pairs@).take(i as int).push(
                        pairs_rep(pairs@)[i as int],
                    ));
                }
                i = i + 1;
            }
            proof {
                assert(roots_rep(roots@) =~= pairs_rep(pairs@));
            }
            Response::Roots { roots }
        },
    }
}

/// `GetChanges`: one change per stored document whose state digest is not
/// among the peer's known roots; metadata is not transmitted.
#[verifier::rlimit(100)]
#[verifier::spinoff_prover]
fn handle_get_changes(store: &Store, known_roots: &Vec<Vec<u8>>) -> (resp: Response)
    requires
        store@.wf(),
    ensures
        match resp {
            Response::Changes { changes } => changes_ok(
                store@,
                bytes_views(known_roots@),
                changes_rep(changes@),
            ),
            Response::Error { .. } => true,
            _ => false,
        },
{
    match store.all_doc_hashes() {
        Err(e) => Response::Error { message: e.message },
        Ok(all) => {
            let ghost m = store@;
            let ghost kreps = bytes_views(known_roots@);
            let ghost areps = pairs_rep(all@);
            let mut changes: Vec<Change> = Vec::new();
            let mut i: usize = 0;
            while i < all.len()
                invariant
                    i <= all@.len(),
                    m == store@,
                    store@.wf(),
                    kreps == bytes_views(known_roots@),
                    areps == pairs_rep(all@),
                    roots_all_ok(m, areps),
                    forall|t: int|
                        0 <= t < changes@.len() ==> m.hashes.contains_key(
                            #[trigger] changes_rep(changes@)[t].0,
                        ) && changes_rep(changes@)[t].2 == m.hashes[changes_rep(changes@)[t].0]
                            && changes_rep(changes@)[t].1 == m.data[changes_rep(changes@)[t].0]
                            && !kreps.contains(changes_rep(changes@)[t].2),
                    forall|j: int|
                        0 <= j < i && !kreps.contains(#[trigger] areps[j].1) ==> exists|t: int|
                            0 <= t < changes@.len() && #[trigger] changes_rep(changes@)[t].0
                                == areps[j].0,
                    forall|t: int|
                        0 <= t < changes@.len() ==> exists|j: int|
                            0 <= j < i && #[trigger] changes_rep(changes@)[t].0 == areps[j].0,
                    forall|t: int, u: int|
                        0 <= t < u < changes@.len() ==> crate::order::bytes_lt(
                            #[trigger] changes_rep(changes@)[t].0,
                            #[trigger] changes_rep(changes@)[u].0,
                        ),
                decreases all@.len() - i,
            {
                let ghost idb = areps[i as int].0;
                proof {
                    assert(areps[i as int] == pairs_rep(all@)[i as int]);
                    assert(areps[i as int].1 == all@[i as int].1@);
                }
                let in_known = contains_bytes(known_roots, &all[i].1);
                if !in_known {
                    match store.get_document(&all[i].0) {
                        Err(e) => {
                            return Response::Error { message: e.message };
                        },
                        Ok(None) => {
                            proof {
                                assert(m.hashes.contains_key(idb));
                                assert(m.docs.contains_key(idb));
                                assert(false);
                            }
                        },
                        Ok(Some((_meta, crdt_state))) => {
                            let doc_id = all[i].0.clone();
                            let hash = crate::merkle::clone_bytes(&all[i].1);
                            let ghost prev = changes@;
                            changes.push(Change { doc_id, data: crdt_state, hash });
                            proof {
                                assert(changes_rep(changes@) =~= changes_rep(prev).push(
                                    (idb, m.data[idb], m.hashes[idb]),
                                ));
                                assert forall|t: int, u: int|
                                    0 <= t < u < changes@.len() implies crate::order::bytes_lt(
                                    #[trigger] changes_rep(changes@)[t].0,
                                    #[trigger] changes_rep(changes@)[u].0,
                                ) by {
                                    if u < prev.len() {
                                        assert(crate::order::bytes_lt(
                                            changes_rep(prev)[t].0,
                                            changes_rep(prev)[u].0,
                                        ));
                                    } else {
                                        let j = choose|j: int|
                                            0 <= j < i && #[trigger] changes_rep(prev)[t].0
                                                == areps[j].0;
                                        assert(crate::order::bytes_lt(
                                            ids_rep(areps)[j],
                                            ids_rep(areps)[i as int],
                                        ));
                                        assert(changes_rep(changes@)[u].0 == idb);
                                    }
                                }
                                assert forall|j: int|
                                    0 <= j < i + 1 && !kreps.contains(
                                        #[trigger] areps[j].1,
                                    ) implies exists|t: int|
                                    0 <= t < changes@.len() && #[trigger] changes_rep(
                                        changes@,
                                    )[t].0 == areps[j].0 by {
                                    if j < i {
                                        let t = choose|t: int|
                                            0 <= t < prev.len() && #[trigger] changes_rep(
                                                prev,
                                            )[t].0 == areps[j].0;
                                        assert(changes_rep(changes@)[t].0 == areps[j].0);
                                    } else {
                                        assert(changes_rep(changes@)[changes@.len() - 1].0
                                            == areps[i as int].0);
                                    }
                                }
                            }
                        },
                    }
                } else {
                    proof {
                        assert(kreps.contains(areps[i as int].1));
                        assert forall|j: int|
                            0 <= j < i + 1 && !kreps.contains(
                                #[trigger] areps[j].1,
                            ) implies exists|t: int|
                            0 <= t < changes@.len() && #[trigger] changes_rep(changes@)[t].0
                                == areps[j].0 by {
                            assert(j < i);
                        }
                    }
                }
                i = i + 1;
            }
            proof {
                assert forall|k: Seq<u8>|
                    #[trigger] m.hashes.contains_key(k) && !kreps.contains(
                        m.hashes[k],
                    ) implies exists|t: int|
                    0 <= t < changes_rep(changes@).len() && #[trigger] changes_rep(changes@)[t].0
                        == k by {
                    assert(ids_rep(areps).contains(k));
                    let j = choose|j: int| 0 <= j < ids_rep(areps).len() && ids_rep(areps)[j] == k;
                    assert(areps[j].0 == k);
                    assert(areps[j].1 == m.hashes[k]);
                }
                let ids = changes_rep(changes@).map_values(|c: (Seq<u8>, Seq<u8>, Seq<u8>)| c.0);
                assert forall|t: int, u: int|
                    0 <= t < u < ids.len() implies crate::order::bytes_lt(ids[t], ids[u]) by {
                    assert(crate::order::bytes_lt(
                        changes_rep(changes@)[t].0,
                        changes_rep(changes@)[u].0,
                    ));
                }
            }
            Response::Changes { changes }
        },
    }
}

/// `ApplyChanges`: applies the batch in order; a change whose advertised
/// digest matches the stored one is skipped to keep the local metadata, and
/// an applied change stores the incoming state under empty metadata. On a
/// storage failure the store is left after some prefix of the batch.
fn handle_apply_changes(store: &mut Store, changes: &Vec<Change>) -> (resp: Response)
    requires
        old(store)@.wf(),
    ensures
        final(store)@.wf(),
        match resp {
            Response::Okay => final(store)@ == apply_changes(old(store)@, changes_rep(changes@)),
            Response::Error { .. } => exists|i: int|
                0 <= i <= changes@.len() && final(store)@ == apply_changes(
                    old(store)@,
                    #[trigger] changes_rep(changes@).take(i),
                ),
            _ => false,
        },
{
    let ghost crep = changes_rep(changes@);
    let ghost m0 = old(store)@;
    let empty_meta: Vec<u8> = Vec::new();
    let mut i: usize = 0;
    while i < changes.len()
        invariant
            i <= changes@.len(),
            store@.wf(),
            crep == changes_rep(changes@),
            m0 == old(store)@,
            store@ == apply_changes(m0, crep.take(i as int)),
            empty_meta@ == Seq::<u8>::empty(),
        decreases changes@.len() - i,
    {
        let ghost before = store@;
        let ghost c = crep[i as int];
        let skip_it: bool;
        match store.get_doc_hash(&changes[i].doc_id) {
            Err(e) => {
                proof {
                    assert(final(store)@ == apply_changes(
                        m0,
                        changes_rep(changes@).take(i as int),
                    ));
                }
                return Response::Error { message: e.message };
            },
            Ok(Some(existing)) => {
                skip_it = bytes_eq_exec(existing.as_slice(), changes[i].hash.as_slice());
            },
            Ok(None) => {
                skip_it = false;
            },
        }
        proof {
            assert(skip_it == (before.hashes.dom().contains(c.0) && before.hashes[c.0] == c.2));
        }
        if !skip_it {
            match store.put_document(&changes[i].doc_id, &empty_meta, &changes[i].data) {
                Ok(()) => {},
                Err(e) => {
                    proof {
                        assert(final(store)@ == apply_changes(
                            m0,
                            changes_rep(changes@).take(i as int),
                        ));
                    }
                    return Response::Error { message: e.message };
                },
            }
        }
        proof {
            assert(crep.take(i + 1) =~= crep.take(i as int).push(c));
            lemma_apply_changes_push(m0, crep.take(i as int), c);
            assert(store@ == apply_change(before, c));
        }
        i = i + 1;
    }
    proof {
        assert(crep.take(changes@.len() as int) =~= crep);
        assert(final(store)@ == apply_changes(old(store)@, changes_rep(changes@)));
    }
    Response::Okay
}


/// Handles one frame payload: decodes `(ref_id, request)`, runs the handler,
/// and encodes the response under the same `ref_id` — the correlation id of
/// every response is the correlation id of its request. `None` means the
/// payload is not a well-formed request frame; the session then ends and the
/// store is untouched.
pub fn handle_frame(store: &mut Store, payload: &[u8]) -> (r: Option<Vec<u8>>)
    requires
        old(store)@.wf(),
    ensures
        final(store)@.wf(),
        r matches Some(out) ==> exists|rid: u64, req: Request, resp: Response|
            payload@ == #[trigger] req_payload(rid, req) && out@ == #[trigger] resp_payload(
                rid,
                resp,
            ) && handler_ok(old(store)@, req, final(store)@, resp),
        r is None ==> final(store)@ == old(store)@ && !(exists|rid: u64, m: Request|
            payload@ == #[trigger] req_payload(rid, m)),
{
    match decode_request(payload) {
        None => None,
        Some((rid, req)) => {
            let ghost greq = req;
            let resp = handle_request(store, req);
            let out = encode_response(rid, &resp);
            proof {
                assert(payload@ == req_payload(rid, greq));
                assert(out@ == resp_payload(rid, resp));
                assert(handler_ok(old(store)@, greq, store@, resp));
            }
            Some(out)
        },
    }
}

} // verus!
