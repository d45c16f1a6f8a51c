//! The wire encoding: a fixed-schema binary serialization with little-endian
//! fixed-width integers, `u32` variant tags in declaration order, `u64` byte
//! lengths before strings, byte strings and lists, and one `u8` per bool.
//! A frame is the payload behind a 4-byte big-endian length.
//!
//! `enc_*` are the encodings as mathematical functions; the executable
//! encoder produces exactly those bytes, and the decoder accepts exactly
//! them: whatever it returns re-encodes to its input, and every well-formed
//! payload is accepted.

use vstd::prelude::*;
use vstd::bytes::{spec_u32_to_le_bytes, spec_u64_to_le_bytes, spec_u32_from_le_bytes,
    spec_u64_from_le_bytes, u32_to_le_bytes, u64_to_le_bytes, u32_from_le_bytes,
    u64_from_le_bytes, lemma_auto_spec_u32_to_from_le_bytes, lemma_auto_spec_u64_to_from_le_bytes};
use vstd::utf8::{encode_utf8, valid_utf8};
use crate::protocol::{Request, Response, Root, Change};

verus! {

pub open spec fn enc_u32(x: u32) -> Seq<u8> {
    spec_u32_to_le_bytes(x)
}

pub open spec fn enc_u64(x: u64) -> Seq<u8> {
    spec_u64_to_le_bytes(x)
}

pub open spec fn enc_bytes(b: Seq<u8>) -> Seq<u8> {
    enc_u64(b.len() as u64) + b
}

pub open spec fn enc_str(s: Seq<char>) -> Seq<u8> {
    enc_bytes(encode_utf8(s))
}

pub open spec fn enc_bool(b: bool) -> Seq<u8> {
    if b {
        seq![1u8]
    } else {
        seq![0u8]
    }
}

/// The items of a list, encoded one after the other.
pub open spec fn enc_list<A>(items: Seq<A>, f: spec_fn(A) -> Seq<u8>) -> Seq<u8>
    decreases items.len(),
{
    if items.len() == 0 {
        Seq::empty()
    } else {
        f(items[0]) + enc_list(items.drop_first(), f)
    }
}

/// A list: its length, then its items.
pub open spec fn enc_vec<A>(items: Seq<A>, f: spec_fn(A) -> Seq<u8>) -> Seq<u8> {
    enc_u64(items.len() as u64) + enc_list(items, f)
}

pub open spec fn enc_change(c: Change) -> Seq<u8> {
    enc_str(c.doc_id@) + (enc_bytes(c.data@) + enc_bytes(c.hash@))
}

pub open spec fn enc_root(r: Root) -> Seq<u8> {
    enc_str(r.doc_id@) + enc_bytes(r.hash@)
}

pub open spec fn enc_change_fn() -> spec_fn(Change) -> Seq<u8> {
    |c: Change| enc_change(c)
}

pub open spec fn enc_bytes_fn() -> spec_fn(Vec<u8>) -> Seq<u8> {
    |v: Vec<u8>| enc_bytes(v@)
}

pub open spec fn enc_str_fn() -> spec_fn(String) -> Seq<u8> {
    |s: String| enc_str(s@)
}

pub open spec fn enc_root_fn() -> spec_fn(Root) -> Seq<u8> {
    |r: Root| enc_root(r)
}

/// The tag of a request variant, in declaration order.
pub open spec fn req_tag(r: Request) -> u32 {
    match r {
        Request::PutBlob { .. } => 0,
        Request::GetBlob { .. } => 1,
        Request::HasBlob { .. } => 2,
        Request::PutDocument { .. } => 3,
        Request::GetDocument { .. } => 4,
        Request::DeleteDocument { .. } => 5,
        Request::ListDocuments => 6,
        Request::GetRoots { .. } => 7,
        Request::GetChanges { .. } => 8,
        Request::ApplyChanges { .. } => 9,
    }
}

/// The encoded fields of a request, after its tag.
pub open spec fn req_body(r: Request) -> Seq<u8> {
    match r {
        Request::PutBlob { data } => enc_bytes(data@),
        Request::GetBlob { hash } => enc_bytes(hash@),
        Request::HasBlob { hash } => enc_bytes(hash@),
        Request::PutDocument { id, meta, crdt_state } => enc_str(id@) + (enc_bytes(meta@)
            + enc_bytes(crdt_state@)),
        Request::GetDocument { id } => enc_str(id@),
        Request::DeleteDocument { id } => enc_str(id@),
        Request::ListDocuments => Seq::empty(),
        Request::GetRoots { doc_ids } => enc_vec(doc_ids@, enc_str_fn()),
        Request::GetChanges { known_roots } => enc_vec(known_roots@, enc_bytes_fn()),
        Request::ApplyChanges { changes } => enc_vec(changes@, enc_change_fn()),
    }
}

/// The encoding of a request, without the leading correlation id.
pub open spec fn req_enc(r: Request) -> Seq<u8> {
    enc_u32(req_tag(r)) + req_body(r)
}

/// Field-for-field agreement of two requests, up to views: same variant,
/// and every field holds the same value.
pub open spec fn req_equiv(a: Request, b: Request) -> bool {
    match (a, b) {
        (Request::PutBlob { data: d1 }, Request::PutBlob { data: d2 }) => d1@ == d2@,
        (Request::GetBlob { hash: h1 }, Request::GetBlob { hash: h2 }) => h1@ == h2@,
        (Request::HasBlob { hash: h1 }, Request::HasBlob { hash: h2 }) => h1@ == h2@,
        (
            Request::PutDocument { id: i1, meta: m1, crdt_state: s1 },
            Request::PutDocument { id: i2, meta: m2, crdt_state: s2 },
        ) => i1@ == i2@ && m1@ == m2@ && s1@ == s2@,
        (Request::GetDocument { id: i1 }, Request::GetDocument { id: i2 }) => i1@ == i2@,
        (Request::DeleteDocument { id: i1 }, Request::DeleteDocument { id: i2 }) => i1@ == i2@,
        (Request::ListDocuments, Request::ListDocuments) => true,
        (Request::GetRoots { doc_ids: x }, Request::GetRoots { doc_ids: y }) => x@.len()
            == y@.len() && (forall|i: int|
            #![trigger x@[i]]
            0 <= i < x@.len() ==> x@[i]@ == y@[i]@),
        (Request::GetChanges { known_roots: x }, Request::GetChanges { known_roots: y }) => x@.len()
            == y@.len() && (forall|i: int|
            #![trigger x@[i]]
            0 <= i < x@.len() ==> x@[i]@ == y@[i]@),
        (Request::ApplyChanges { changes: x }, Request::ApplyChanges { changes: y }) => x@.len()
            == y@.len() && (forall|i: int|
            #![trigger x@[i]]
            0 <= i < x@.len() ==> x@[i].doc_id@ == y@[i].doc_id@ && x@[i].data@ == y@[i].data@
                && x@[i].hash@ == y@[i].hash@),
        _ => false,
    }
}

/// The encoding of a response, without the leading correlation id.
pub open spec fn resp_enc(r: Response) -> Seq<u8> {
    match r {
        Response::Okay => enc_u32(0),
        Response::Blob { data } => enc_u32(1) + enc_bytes(data@),
        Response::BlobStored { hash } => enc_u32(2) + enc_bytes(hash@),
        Response::BlobExists { exists } => enc_u32(3) + enc_bool(exists),
        Response::Document { id, meta, crdt_state } => enc_u32(4) + enc_str(id@) + enc_bytes(meta@)
            + enc_bytes(crdt_state@),
        Response::DocumentList { ids } => enc_u32(5) + enc_vec(ids@, enc_str_fn()),
        Response::NotFound => enc_u32(6),
        Response::Roots { roots } => enc_u32(7) + enc_vec(roots@, enc_root_fn()),
        Response::Changes { changes } => enc_u32(8) + enc_vec(changes@, enc_change_fn()),
        Response::SyncDiff { to_send, to_request } => enc_u32(9) + enc_vec(
            to_send@,
            enc_bytes_fn(),
        ) + enc_vec(to_request@, enc_bytes_fn()),
        Response::Error { message } => enc_u32(10) + enc_str(message@),
    }
}

/// A request payload: the correlation id, then the request.
pub open spec fn req_payload(rid: u64, r: Request) -> Seq<u8> {
    enc_u64(rid) + req_enc(r)
}

/// A response payload: the correlation id, then the response.
pub open spec fn resp_payload(rid: u64, r: Response) -> Seq<u8> {
    enc_u64(rid) + resp_enc(r)
}

proof fn lemma_enc_list_push<A>(items: Seq<A>, f: spec_fn(A) -> Seq<u8>, x: A)
    ensures
        enc_list(items.push(x), f) == enc_list(items, f) + f(x),
    decreases items.len(),
{
    if items.len() == 0 {
        assert(items.push(x)[0] == x);
        assert(items.push(x).drop_first() =~= Seq::<A>::empty());
        assert(enc_list(items.push(x), f) == f(x) + enc_list(items.push(x).drop_first(), f));
        assert(enc_list(items.push(x).drop_first(), f) == Seq::<u8>::empty());
        assert(f(x) + Seq::<u8>::empty() =~= f(x));
        assert(enc_list(items, f) == Seq::<u8>::empty());
        assert(Seq::<u8>::empty() + f(x) =~= f(x));
    } else {
        assert(items.push(x)[0] == items[0]);
        assert(items.push(x).drop_first() =~= items.drop_first().push(x));
        lemma_enc_list_push(items.drop_first(), f, x);
        assert(enc_list(items.push(x), f) == f(items[0]) + (enc_list(items.drop_first(), f) + f(
            x,
        )));
        assert(f(items[0]) + (enc_list(items.drop_first(), f) + f(x)) =~= (f(items[0]) + enc_list(
            items.drop_first(),
            f,
        )) + f(x));
    }
}

proof fn lemma_enc_list_min_len<A>(items: Seq<A>, f: spec_fn(A) -> Seq<u8>)
    requires
        forall|a: A| #[trigger] f(a).len() >= 1,
    ensures
        enc_list(items, f).len() >= items.len(),
    decreases items.len(),
{
    if items.len() > 0 {
        lemma_enc_list_min_len(items.drop_first(), f);
    }
}

fn put_u64(out: &mut Vec<u8>, x: u64)
    ensures
        final(out)@ == old(out)@ + enc_u64(x),
{
    let mut b = u64_to_le_bytes(x);
    out.append(&mut b);
}

fn put_u32(out: &mut Vec<u8>, x: u32)
    ensures
        final(out)@ == old(out)@ + enc_u32(x),
{
    let mut b = u32_to_le_bytes(x);
    out.append(&mut b);
}

fn put_slice(out: &mut Vec<u8>, b: &[u8])
    ensures
        final(out)@ == old(out)@ + b@,
{
    let mut i: usize = 0;
    while i < b.len()
        invariant
            i <= b@.len(),
            out@ =~= old(out)@ + b@.take(i as int),
        decreases b@.len() - i,
    {
        out.push(b[i]);
        proof {
            assert(old(out)@ + b@.take(i + 1) =~= (old(out)@ + b@.take(i as int)).push(
                b@[i as int],
            ));
        }
        i = i + 1;
    }
    proof {
        assert(old(out)@ + b@.take(b@.len() as int) =~= old(out)@ + b@);
    }
}

fn put_bytes(out: &mut Vec<u8>, b: &[u8])
    ensures
        final(out)@ == old(out)@ + enc_bytes(b@),
{
    put_u64(out, b.len() as u64);
    put_slice(out, b);
    proof {
        assert(old(out)@ + enc_bytes(b@) =~= (old(out)@ + enc_u64(b@.len() as u64)) + b@);
    }
}

fn put_string(out: &mut Vec<u8>, s: &String)
    ensures
        final(out)@ == old(out)@ + enc_str(s@),
{
    put_bytes(out, s.as_str().as_bytes());
}

fn put_bool(out: &mut Vec<u8>, b: bool)
    ensures
        final(out)@ == old(out)@ + enc_bool(b),
{
    if b {
        out.push(1u8);
    } else {
        out.push(0u8);
    }
    proof {
        assert(final(out)@ =~= old(out)@ + enc_bool(b));
    }
}

fn put_vec_bytes(out: &mut Vec<u8>, items: &Vec<Vec<u8>>)
    ensures
        final(out)@ == old(out)@ + enc_vec(items@, enc_bytes_fn()),
{
    put_u64(out, items.len() as u64);
    let ghost base = out@;
    let mut i: usize = 0;
    while i < items.len()
        invariant
            i <= items@.len(),
            out@ =~= base + enc_list(items@.take(i as int), enc_bytes_fn()),
        decreases items@.len() - i,
    {
        put_bytes(out, items[i].as_slice());
        proof {
            assert(items@.take(i + 1) =~= items@.take(i as int).push(items@[i as int]));
            lemma_enc_list_push(items@.take(i as int), enc_bytes_fn(), items@[i as int]);
            assert(out@ =~= base + enc_list(items@.take(i + 1), enc_bytes_fn()));
        }
        i = i + 1;
    }
    proof {
        assert(items@.take(items@.len() as int) =~= items@);
        assert(final(out)@ =~= old(out)@ + enc_vec(items@, enc_bytes_fn()));
    }
}

fn put_vec_string(out: &mut Vec<u8>, items: &Vec<String>)
    ensures
        final(out)@ == old(out)@ + enc_vec(items@, enc_str_fn()),
{
    put_u64(out, items.len() as u64);
    let ghost base = out@;
    let mut i: usize = 0;
    while i < items.len()
        invariant
            i <= items@.len(),
            out@ =~= base + enc_list(items@.take(i as int), enc_str_fn()),
        decreases items@.len() - i,
    {
        put_string(out, &items[i]);
        proof {
            assert(items@.take(i + 1) =~= items@.take(i as int).push(items@[i as int]));
            lemma_enc_list_push(items@.take(i as int), enc_str_fn(), items@[i as int]);
            assert(out@ =~= base + enc_list(items@.take(i + 1), enc_str_fn()));
        }
        i = i + 1;
    }
    proof {
        assert(items@.take(items@.len() as int) =~= items@);
        assert(final(out)@ =~= old(out)@ + enc_vec(items@, enc_str_fn()));
    }
}

fn put_change(out: &mut Vec<u8>, c: &Change)
    ensures
        final(out)@ == old(out)@ + enc_change(*c),
{
    put_string(out, &c.doc_id);
    put_bytes(out, c.data.as_slice());
    put_bytes(out, c.hash.as_slice());
    proof {
        assert(final(out)@ =~= old(out)@ + enc_change(*c));
    }
}

fn put_vec_change(out: &mut Vec<u8>, items: &Vec<Change>)
    ensures
        final(out)@ == old(out)@ + enc_vec(items@, enc_change_fn()),
{
    put_u64(out, items.len() as u64);
    let ghost base = out@;
    let mut i: usize = 0;
    while i < items.len()
        invariant
            i <= items@.len(),
            out@ =~= base + enc_list(items@.take(i as int), enc_change_fn()),
        decreases items@.len() - i,
    {
        put_change(out, &items[i]);
        proof {
            assert(items@.take(i + 1) =~= items@.take(i as int).push(items@[i as int]));
            lemma_enc_list_push(items@.take(i as int), enc_change_fn(), items@[i as int]);
            assert(out@ =~= base + enc_list(items@.take(i + 1), enc_change_fn()));
        }
        i = i + 1;
    }
    proof {
        assert(items@.take(items@.len() as int) =~= items@);
        assert(final(out)@ =~= old(out)@ + enc_vec(items@, enc_change_fn()));
    }
}

fn put_vec_root(out: &mut Vec<u8>, items: &Vec<Root>)
    ensures
        final(out)@ == old(out)@ + enc_vec(items@, enc_root_fn()),
{
    put_u64(out, items.len() as u64);
    let ghost base = out@;
    let mut i: usize = 0;
    while i < items.len()
        invariant
            i <= items@.len(),
            out@ =~= base + enc_list(items@.take(i as int), enc_root_fn()),
        decreases items@.len() - i,
    {
        put_string(out, &items[i].doc_id);
        put_bytes(out, items[i].hash.as_slice());
        proof {
            assert(out@ =~= (base + enc_list(items@.take(i as int), enc_root_fn())) + enc_root(
                items@[i as int],
            ));
            assert(items@.take(i + 1) =~= items@.take(i as int).push(items@[i as int]));
            lemma_enc_list_push(items@.take(i as int), enc_root_fn(), items@[i as int]);
            assert(out@ =~= base + enc_list(items@.take(i + 1), enc_root_fn()));
        }
        i = i + 1;
    }
    proof {
        assert(items@.take(items@.len() as int) =~= items@);
        assert(final(out)@ =~= old(out)@ + enc_vec(items@, enc_root_fn()));
    }
}

/// Encodes a request payload: the correlation id, then the tagged request.
pub fn encode_request(ref_id: u64, req: &Request) -> (out: Vec<u8>)
    ensures
        out@ == req_payload(ref_id, *req),
{
    let mut out: Vec<u8> = Vec::new();
    put_u64(&mut out, ref_id);
    let ghost base = out@;
    match req {
        Request::PutBlob { data } => {
            put_u32(&mut out, 0);
            put_bytes(&mut out, data.as_slice());
        },
        Request::GetBlob { hash } => {
            put_u32(&mut out, 1);
            put_bytes(&mut out, hash.as_slice());
        },
        Request::HasBlob { hash } => {
            put_u32(&mut out, 2);
            put_bytes(&mut out, hash.as_slice());
        },
        Request::PutDocument { id, meta, crdt_state } => {
            put_u32(&mut out, 3);
            put_string(&mut out, id);
            put_bytes(&mut out, meta.as_slice());
            put_bytes(&mut out, crdt_state.as_slice());
        },
        Request::GetDocument { id } => {
            put_u32(&mut out, 4);
            put_string(&mut out, id);
        },
        Request::DeleteDocument { id } => {
            put_u32(&mut out, 5);
            put_string(&mut out, id);
        },
        Request::ListDocuments => {
            put_u32(&mut out, 6);
        },
        Request::GetRoots { doc_ids } => {
            put_u32(&mut out, 7);
            put_vec_string(&mut out, doc_ids);
        },
        Request::GetChanges { known_roots } => {
            put_u32(&mut out, 8);
            put_vec_bytes(&mut out, known_roots);
        },
        Request::ApplyChanges { changes } => {
            put_u32(&mut out, 9);
            put_vec_change(&mut out, changes);
        },
    }
    proof {
        assert(out@ =~= req_payload(ref_id, *req));
    }
    out
}

/// Encodes a response payload: the correlation id, then the tagged response.
pub fn encode_response(ref_id: u64, resp: &Response) -> (out: Vec<u8>)
    ensures
        out@ == resp_payload(ref_id, *resp),
{
    let mut out: Vec<u8> = Vec::new();
    put_u64(&mut out, ref_id);
    match resp {
        Response::Okay => {
            put_u32(&mut out, 0);
        },
        Response::Blob { data } => {
            put_u32(&mut out, 1);
            put_bytes(&mut out, data.as_slice());
        },
        Response::BlobStored { hash } => {
            put_u32(&mut out, 2);
            put_bytes(&mut out, hash.as_slice());
        },
        Response::BlobExists { exists } => {
            put_u32(&mut out, 3);
            put_bool(&mut out, *exists);
        },
        Response::Document { id, meta, crdt_state } => {
            put_u32(&mut out, 4);
            put_string(&mut out, id);
            put_bytes(&mut out, meta.as_slice());
            put_bytes(&mut out, crdt_state.as_slice());
        },
        Response::DocumentList { ids } => {
            put_u32(&mut out, 5);
            put_vec_string(&mut out, ids);
        },
        Response::NotFound => {
            put_u32(&mut out, 6);
        },
        Response::Roots { roots } => {
            put_u32(&mut out, 7);
            put_vec_root(&mut out, roots);
        },
        Response::Changes { changes } => {
            put_u32(&mut out, 8);
            put_vec_change(&mut out, changes);
        },
        Response::SyncDiff { to_send, to_request } => {
            put_u32(&mut out, 9);
            put_vec_bytes(&mut out, to_send);
            put_vec_bytes(&mut out, to_request);
        },
        Response::Error { message } => {
            put_u32(&mut out, 10);
            put_string(&mut out, message);
        },
    }
    proof {
        assert(out@ =~= resp_payload(ref_id, *resp));
    }
    out
}

/// `e` sits in `b` at `pos`.
pub open spec fn tail_starts(b: Seq<u8>, pos: int, e: Seq<u8>) -> bool {
    0 <= pos && pos + e.len() <= b.len() && b.subrange(pos, pos + e.len()) == e
}

/// Everything from `pos` on is exactly `rest`.
pub open spec fn tail_is(b: Seq<u8>, pos: int, rest: Seq<u8>) -> bool {
    0 <= pos <= b.len() && b.subrange(pos, b.len() as int) == rest
}

proof fn lemma_step(b: Seq<u8>, pos: int, e: Seq<u8>, rest: Seq<u8>)
    requires
        tail_is(b, pos, e + rest),
    ensures
        tail_starts(b, pos, e),
        tail_is(b, pos + e.len(), rest),
{
    assert(b.subrange(pos, b.len() as int).len() == e.len() + rest.len());
    assert(b.subrange(pos, pos + e.len() as int) =~= e) by {
        assert forall|i: int| 0 <= i < e.len() implies b.subrange(pos, pos + e.len() as int)[i]
            == e[i] by {
            assert(b.subrange(pos, b.len() as int)[i] == (e + rest)[i]);
        }
    }
    assert(b.subrange(pos + e.len(), b.len() as int) =~= rest) by {
        assert forall|i: int| 0 <= i < rest.len() implies b.subrange(
            pos + e.len(),
            b.len() as int,
        )[i] == rest[i] by {
            assert(b.subrange(pos, b.len() as int)[e.len() + i] == (e + rest)[e.len() + i]);
        }
    }
}

/// Copies `buf[from..to]` out.
fn copy_range(buf: &[u8], from: usize, to: usize) -> (r: Vec<u8>)
    requires
        from <= to <= buf@.len(),
    ensures
        r@ == buf@.subrange(from as int, to as int),
{
    let mut out: Vec<u8> = Vec::new();
    let mut i: usize = from;
    while i < to
        invariant
            from <= i <= to <= buf@.len(),
            out@ =~= buf@.subrange(from as int, i as int),
        decreases to - i,
    {
        out.push(buf[i]);
        proof {
            assert(buf@.subrange(from as int, i + 1) =~= buf@.subrange(from as int, i as int).push(
                buf@[i as int],
            ));
        }
        i = i + 1;
    }
    proof {
        assert(out@ =~= buf@.subrange(from as int, to as int));
    }
    out
}

fn dec_u64(buf: &[u8], pos: usize) -> (r: Option<(u64, usize)>)
    ensures
        r matches Some(p) ==> pos + 8 <= buf@.len() && p.1 == pos + 8 && buf@.subrange(
            pos as int,
            pos + 8,
        ) == enc_u64(p.0),
        pos + 8 <= buf@.len() ==> r is Some,
{
    proof {
        lemma_auto_spec_u64_to_from_le_bytes();
    }
    if buf.len() < 8 || pos > buf.len() - 8 {
        return None;
    }
    let bytes = copy_range(buf, pos, pos + 8);
    let x = u64_from_le_bytes(bytes.as_slice());
    proof {
        assert(spec_u64_to_le_bytes(spec_u64_from_le_bytes(bytes@)) == bytes@);
    }
    Some((x, pos + 8))
}

fn dec_u32(buf: &[u8], pos: usize) -> (r: Option<(u32, usize)>)
    ensures
        r matches Some(p) ==> pos + 4 <= buf@.len() && p.1 == pos + 4 && buf@.subrange(
            pos as int,
            pos + 4,
        ) == enc_u32(p.0),
        pos + 4 <= buf@.len() ==> r is Some,
{
    proof {
        lemma_auto_spec_u32_to_from_le_bytes();
    }
    if buf.len() < 4 || pos > buf.len() - 4 {
        return None;
    }
    let bytes = copy_range(buf, pos, pos + 4);
    let x = u32_from_le_bytes(bytes.as_slice());
    proof {
        assert(spec_u32_to_le_bytes(spec_u32_from_le_bytes(bytes@)) == bytes@);
    }
    Some((x, pos + 4))
}

fn dec_bytes(buf: &[u8], pos: usize) -> (r: Option<(Vec<u8>, usize)>)
    ensures
        r matches Some(p) ==> pos <= p.1 <= buf@.len() && buf@.subrange(pos as int, p.1 as int)
            == enc_bytes(p.0@),
        forall|bs: Seq<u8>|
            tail_starts(buf@, pos as int, #[trigger] enc_bytes(bs)) ==> (r matches Some(p) && p.1
                == pos + enc_bytes(bs).len() && p.0@ == bs),
{
    proof {
        lemma_auto_spec_u64_to_from_le_bytes();
    }
    match dec_u64(buf, pos) {
        None => {
            proof {
                assert forall|bs: Seq<u8>|
                    tail_starts(buf@, pos as int, #[trigger] enc_bytes(bs)) implies false by {
                    assert(enc_bytes(bs).len() >= 8);
                }
            }
            None
        },
        Some((n, p1)) => {
            if n > (buf.len() - p1) as u64 {
                proof {
                    assert forall|bs: Seq<u8>|
                        tail_starts(buf@, pos as int, #[trigger] enc_bytes(bs)) implies false by {
                        let whole = buf@.subrange(pos as int, pos + enc_bytes(bs).len());
                        assert(whole.subrange(0, whole.len() as int) =~= whole);
                        assert(whole == enc_u64(bs.len() as u64) + bs);
                        lemma_step(whole, 0, enc_u64(bs.len() as u64), bs);
                        assert(buf@.subrange(pos as int, pos + 8) =~= enc_u64(bs.len() as u64));
                        assert(n == bs.len() as u64);
                        assert(pos + 8 + bs.len() <= buf@.len());
                    }
                }
                None
            } else {
                let end = p1 + (n as usize);
                let v = copy_range(buf, p1, end);
                proof {
                    assert(buf@.subrange(pos as int, end as int) =~= enc_u64(n) + v@) by {
                        assert(buf@.subrange(pos as int, pos + 8) == enc_u64(n));
                        assert forall|i: int|
                            0 <= i < end - pos implies buf@.subrange(pos as int, end as int)[i]
                            == (enc_u64(n) + v@)[i] by {
                            if i >= 8 {
                                assert(v@[i - 8] == buf@.subrange(p1 as int, end as int)[i - 8]);
                            } else {
                                assert(enc_u64(n)[i] == buf@.subrange(pos as int, pos + 8)[i]);
                            }
                        }
                    }
                    assert(v@.len() as u64 == n);
                    assert(enc_bytes(v@) == enc_u64(n) + v@);
                    assert forall|bs: Seq<u8>|
                        tail_starts(buf@, pos as int, #[trigger] enc_bytes(bs)) implies end == pos
                        + enc_bytes(bs).len() && v@ == bs by {
                        let whole = buf@.subrange(pos as int, pos + enc_bytes(bs).len());
                        assert(whole.subrange(0, whole.len() as int) =~= whole);
                        assert(whole == enc_u64(bs.len() as u64) + bs);
                        lemma_step(whole, 0, enc_u64(bs.len() as u64), bs);
                        assert(buf@.subrange(pos as int, pos + 8) =~= enc_u64(bs.len() as u64));
                        assert(n == bs.len() as u64);
                        assert(v@ =~= bs) by {
                            assert(whole.subrange(8, whole.len() as int) == bs);
                            assert forall|i: int| 0 <= i < bs.len() implies v@[i] == bs[i] by {
                                assert(v@[i] == buf@[p1 + i]);
                                assert(whole[8 + i] == buf@[pos + 8 + i]);
                                assert(whole.subrange(8, whole.len() as int)[i] == whole[8 + i]);
                            }
                        }
                    }
                }
                Some((v, end))
            }
        },
    }
}

fn dec_string(buf: &[u8], pos: usize) -> (r: Option<(String, usize)>)
    ensures
        r matches Some(p) ==> pos <= p.1 <= buf@.len() && buf@.subrange(pos as int, p.1 as int)
            == enc_str(p.0@),
        forall|cs: Seq<char>|
            tail_starts(buf@, pos as int, #[trigger] enc_str(cs)) ==> (r matches Some(p) && p.1
                == pos + enc_str(cs).len() && p.0@ == cs),
{
    broadcast use vstd::utf8::encode_utf8_valid_utf8;

    match dec_bytes(buf, pos) {
        None => {
            proof {
                assert forall|cs: Seq<char>|
                    tail_starts(buf@, pos as int, #[trigger] enc_str(cs)) implies false by {
                    assert(tail_starts(buf@, pos as int, enc_bytes(encode_utf8(cs))));
                }
            }
            None
        },
        Some((v, end)) => {
            match utf8_to_str(&v) {
                Some(s) => {
                    proof {
                        assert forall|cs: Seq<char>|
                            tail_starts(buf@, pos as int, #[trigger] enc_str(cs)) implies end == pos
                            + enc_str(cs).len() && s@ == cs by {
                            assert(tail_starts(buf@, pos as int, enc_bytes(encode_utf8(cs))));
                            assert(v@ == encode_utf8(cs));
                            assert(encode_utf8(s@) == encode_utf8(cs));
                            vstd::utf8::encode_utf8_decode_utf8(s@);
                            vstd::utf8::encode_utf8_decode_utf8(cs);
                        }
                    }
                    Some((s, end))
                },
                None => {
                    proof {
                        assert forall|cs: Seq<char>|
                            tail_starts(buf@, pos as int, #[trigger] enc_str(cs)) implies false by {
                            lemma_auto_spec_u64_to_from_le_bytes();
                            assert(tail_starts(buf@, pos as int, enc_bytes(encode_utf8(cs))));
                            assert(end == pos + enc_bytes(encode_utf8(cs)).len());
                            assert(buf@.subrange(pos as int, end as int) == enc_bytes(
                                encode_utf8(cs),
                            ));
                            let whole = buf@.subrange(pos as int, end as int);
                            assert(whole.subrange(0, whole.len() as int) =~= whole);
                            assert(whole == enc_u64(encode_utf8(cs).len() as u64) + encode_utf8(
                                cs,
                            ));
                            lemma_step(
                                whole,
                                0,
                                enc_u64(encode_utf8(cs).len() as u64),
                                encode_utf8(cs),
                            );
                            assert(buf@.subrange(pos as int, end as int) == enc_bytes(v@));
                            assert(enc_bytes(v@) == enc_u64(v@.len() as u64) + v@);
                            assert(whole == enc_u64(v@.len() as u64) + v@);
                            lemma_step(whole, 0, enc_u64(v@.len() as u64), v@);
                            assert(v@ =~= encode_utf8(cs));
                            assert(valid_utf8(v@));
                        }
                    }
                    None
                },
            }
        },
    }
}

/// The result of `core::str::from_utf8` is declared so it can be matched on.
#[verifier::external_type_specification]
#[verifier::external_body]
pub struct ExUtf8Error(core::str::Utf8Error);

/// Relies on `core::str::from_utf8`: succeeds exactly on valid UTF-8, and
/// the returned string's byte encoding is the input.
#[verifier::external_body]
fn utf8_to_str(v: &Vec<u8>) -> (r: Option<String>)
    ensures
        r matches Some(s) ==> encode_utf8(s@) == v@,
        r is None ==> !valid_utf8(v@),
{
    match core::str::from_utf8(v.as_slice()) {
        Ok(s) => Some(s.to_owned()),
        Err(_) => None,
    }
}

fn dec_change(buf: &[u8], pos: usize) -> (r: Option<(Change, usize)>)
    ensures
        r matches Some(p) ==> pos <= p.1 <= buf@.len() && buf@.subrange(pos as int, p.1 as int)
            == enc_change(p.0),
        forall|c: Change|
            tail_starts(buf@, pos as int, #[trigger] enc_change(c)) ==> (r matches Some(p) && p.1
                == pos + enc_change(c).len() && p.0.doc_id@ == c.doc_id@ && p.0.data@ == c.data@
                && p.0.hash@ == c.hash@),
{
    let parsed_id = dec_string(buf, pos);
    proof {
        assert forall|c: Change|
            tail_starts(buf@, pos as int, #[trigger] enc_change(c)) implies tail_starts(
            buf@,
            pos as int,
            enc_str(c.doc_id@),
        ) && tail_starts(
            buf@,
            pos + enc_str(c.doc_id@).len(),
            enc_bytes(c.data@),
        ) && tail_starts(
            buf@,
            pos + enc_str(c.doc_id@).len() + enc_bytes(c.data@).len(),
            enc_bytes(c.hash@),
        ) by {
            let whole = buf@.subrange(pos as int, pos + enc_change(c).len());
            let l1 = enc_str(c.doc_id@).len() as int;
            let l2 = enc_bytes(c.data@).len() as int;
            let l3 = enc_bytes(c.hash@).len() as int;
            assert(whole.subrange(0, whole.len() as int) =~= whole);
            assert(whole == enc_str(c.doc_id@) + (enc_bytes(c.data@) + enc_bytes(c.hash@)));
            lemma_step(whole, 0, enc_str(c.doc_id@), enc_bytes(c.data@) + enc_bytes(c.hash@));
            lemma_step(whole, l1, enc_bytes(c.data@), enc_bytes(c.hash@));
            assert(buf@.subrange(pos as int, pos + l1) =~= whole.subrange(0, l1));
            assert(buf@.subrange(pos + l1, pos + l1 + l2) =~= whole.subrange(l1, l1 + l2));
            assert(buf@.subrange(pos + l1 + l2, pos + l1 + l2 + l3) =~= whole.subrange(
                l1 + l2,
                l1 + l2 + l3,
            ));
        }
    }
    match parsed_id {
        None => None,
        Some((doc_id, p1)) => {
            match dec_bytes(buf, p1) {
                None => None,
                Some((data, p2)) => {
                    match dec_bytes(buf, p2) {
                        None => None,
                        Some((hash, p3)) => {
                            let ghost idv = doc_id@;
                            let ghost dv = data@;
                            let ghost hv = hash@;
                            let c = Change { doc_id, data, hash };
                            proof {
                                assert(enc_change(c) == enc_str(idv) + (enc_bytes(dv) + enc_bytes(
                                    hv,
                                )));
                                assert(buf@.subrange(pos as int, p3 as int) =~= enc_str(idv) + (
                                enc_bytes(dv) + enc_bytes(hv))) by {
                                    assert forall|i: int|
                                        0 <= i < p3 - pos implies buf@.subrange(
                                        pos as int,
                                        p3 as int,
                                    )[i] == (enc_str(idv) + (enc_bytes(dv) + enc_bytes(hv)))[i] by {
                                        let l1 = enc_str(idv).len() as int;
                                        let l2 = enc_bytes(dv).len() as int;
                                        if i < l1 {
                                            assert(buf@.subrange(pos as int, p1 as int)[i]
                                                == enc_str(idv)[i]);
                                        } else if i < l1 + l2 {
                                            assert(buf@.subrange(p1 as int, p2 as int)[i - l1]
                                                == enc_bytes(dv)[i - l1]);
                                        } else {
                                            assert(buf@.subrange(p2 as int, p3 as int)[i - l1 - l2]
                                                == enc_bytes(hv)[i - l1 - l2]);
                                        }
                                    }
                                }
                            }
                            Some((c, p3))
                        },
                    }
                },
            }
        },
    }
}

fn dec_list_bytes(buf: &[u8], pos: usize, n: u64) -> (r: Option<(Vec<Vec<u8>>, usize)>)
    ensures
        r matches Some(p) ==> pos <= p.1 <= buf@.len() && buf@.subrange(pos as int, p.1 as int)
            == enc_list(p.0@, enc_bytes_fn()) && p.0@.len() == n,
        forall|bs: Seq<Vec<u8>>|
            bs.len() == n && tail_starts(buf@, pos as int, #[trigger] enc_list(bs, enc_bytes_fn()))
                ==> (r matches Some(p) && p.1 == pos + enc_list(bs, enc_bytes_fn()).len() && (forall|i: int|
                #![trigger bs[i]]
                0 <= i < bs.len() ==> p.0@[i]@ == bs[i]@)),
    decreases n,
{
    if n == 0 {
        if pos > buf.len() {
            proof {
                assert forall|bs: Seq<Vec<u8>>|
                    bs.len() == n && tail_starts(buf@, pos as int, #[trigger] enc_list(
                        bs,
                        enc_bytes_fn(),
                    )) implies false by {
                }
            }
            return None;
        }
        let out: Vec<Vec<u8>> = Vec::new();
        proof {
            assert(buf@.subrange(pos as int, pos as int) =~= enc_list(out@, enc_bytes_fn()));
        }
        return Some((out, pos));
    }
    proof {
        assert forall|bs: Seq<Vec<u8>>|
            bs.len() == n && tail_starts(buf@, pos as int, #[trigger] enc_list(
                bs,
                enc_bytes_fn(),
            )) implies tail_starts(buf@, pos as int, enc_bytes(bs[0]@)) && tail_starts(
            buf@,
            pos + enc_bytes(bs[0]@).len(),
            enc_list(bs.drop_first(), enc_bytes_fn()),
        ) by {
            let f = enc_bytes_fn();
            let whole = buf@.subrange(pos as int, pos + enc_list(bs, f).len());
            assert(enc_list(bs, f) == f(bs[0]) + enc_list(bs.drop_first(), f));
            assert(whole.subrange(0, whole.len() as int) =~= whole);
            assert(whole == enc_bytes(bs[0]@) + enc_list(bs.drop_first(), f));
            lemma_step(whole, 0, enc_bytes(bs[0]@), enc_list(bs.drop_first(), f));
            let l1 = enc_bytes(bs[0]@).len() as int;
            let l2 = enc_list(bs.drop_first(), f).len() as int;
            assert(buf@.subrange(pos as int, pos + l1) =~= whole.subrange(0, l1));
            assert(buf@.subrange(pos + l1, pos + l1 + l2) =~= whole.subrange(l1, l1 + l2));
        }
    }
    match dec_bytes(buf, pos) {
        None => None,
        Some((v, p1)) => {
            match dec_list_bytes(buf, p1, n - 1) {
                None => None,
                Some((vs_rest, end)) => {
                    let mut vs = vs_rest;
                    vs.insert(0, v);
                    proof {
                        assert(vs@[0] == v);
                        assert(vs@.drop_first() =~= vs_rest@);
                        let f = enc_bytes_fn();
                        assert(enc_list(vs@, f) == f(vs@[0]) + enc_list(vs@.drop_first(), f));
                        assert(enc_list(vs@.drop_first(), f) == enc_list(vs_rest@, f));
                        let e1 = enc_bytes(v@);
                        let e2 = enc_list(vs_rest@, f);
                        assert(buf@.subrange(pos as int, end as int) =~= e1 + e2) by {
                            assert forall|i: int|
                                0 <= i < end - pos implies buf@.subrange(pos as int, end as int)[i]
                                == (e1 + e2)[i] by {
                                let l1 = e1.len() as int;
                                if i < l1 {
                                    assert(buf@.subrange(pos as int, p1 as int)[i] == e1[i]);
                                } else {
                                    assert(buf@.subrange(p1 as int, end as int)[i - l1] == e2[i
                                        - l1]);
                                }
                            }
                        }
                        assert forall|bs: Seq<Vec<u8>>|
                            bs.len() == n && tail_starts(buf@, pos as int, #[trigger] enc_list(
                                bs,
                                enc_bytes_fn(),
                            )) implies end == pos + enc_list(bs, enc_bytes_fn()).len() && (forall|i: int|
                            #![trigger bs[i]]
                            0 <= i < bs.len() ==> vs@[i]@ == bs[i]@) by {
                            assert(tail_starts(
                                buf@,
                                pos + enc_bytes(bs[0]@).len(),
                                enc_list(bs.drop_first(), enc_bytes_fn()),
                            ));
                            assert(p1 == pos + enc_bytes(bs[0]@).len());
                            assert(enc_list(bs, enc_bytes_fn()).len() == enc_bytes(bs[0]@).len() + enc_list(
                                bs.drop_first(),
                                enc_bytes_fn(),
                            ).len());
                            assert forall|i: int| #![trigger bs[i]] 0 <= i < bs.len() implies
                                vs@[i]@ == bs[i]@ by {
                                if i == 0 {
                                    assert(v@ == bs[0]@);
                                    assert(vs@[0] == v);
                                } else {
                                    assert(bs.drop_first()[i - 1] == bs[i]);
                                    assert(vs@[i] == vs_rest@[i - 1]);
                                    assert(vs@[i]@ == bs[i]@);
                                }
                            }
                        }
                    }
                    Some((vs, end))
                },
            }
        },
    }
}

fn dec_list_string(buf: &[u8], pos: usize, n: u64) -> (r: Option<(Vec<String>, usize)>)
    ensures
        r matches Some(p) ==> pos <= p.1 <= buf@.len() && buf@.subrange(pos as int, p.1 as int)
            == enc_list(p.0@, enc_str_fn()) && p.0@.len() == n,
        forall|bs: Seq<String>|
            bs.len() == n && tail_starts(buf@, pos as int, #[trigger] enc_list(bs, enc_str_fn()))
                ==> (r matches Some(p) && p.1 == pos + enc_list(bs, enc_str_fn()).len() && (forall|i: int|
                #![trigger bs[i]]
                0 <= i < bs.len() ==> p.0@[i]@ == bs[i]@)),
    decreases n,
{
    if n == 0 {
        if pos > buf.len() {
            proof {
                assert forall|bs: Seq<String>|
                    bs.len() == n && tail_starts(buf@, pos as int, #[trigger] enc_list(
                        bs,
                        enc_str_fn(),
                    )) implies false by {
                }
            }
            return None;
        }
        let out: Vec<String> = Vec::new();
        proof {
            assert(buf@.subrange(pos as int, pos as int) =~= enc_list(out@, enc_str_fn()));
        }
        return Some((out, pos));
    }
    proof {
        assert forall|bs: Seq<String>|
            bs.len() == n && tail_starts(buf@, pos as int, #[trigger] enc_list(
                bs,
                enc_str_fn(),
            )) implies tail_starts(buf@, pos as int, enc_str(bs[0]@)) && tail_starts(
            buf@,
            pos + enc_str(bs[0]@).len(),
            enc_list(bs.drop_first(), enc_str_fn()),
        ) by {
            let f = enc_str_fn();
            let whole = buf@.subrange(pos as int, pos + enc_list(bs, f).len());
            assert(enc_list(bs, f) == f(bs[0]) + enc_list(bs.drop_first(), f));
            assert(whole.subrange(0, whole.len() as int) =~= whole);
            assert(whole == enc_str(bs[0]@) + enc_list(bs.drop_first(), f));
            lemma_step(whole, 0, enc_str(bs[0]@), enc_list(bs.drop_first(), f));
            let l1 = enc_str(bs[0]@).len() as int;
            let l2 = enc_list(bs.drop_first(), f).len() as int;
            assert(buf@.subrange(pos as int, pos + l1) =~= whole.subrange(0, l1));
            assert(buf@.subrange(pos + l1, pos + l1 + l2) =~= whole.subrange(l1, l1 + l2));
        }
    }
    match dec_string(buf, pos) {
        None => None,
        Some((v, p1)) => {
            match dec_list_string(buf, p1, n - 1) {
                None => None,
                Some((vs_rest, end)) => {
                    let mut vs = vs_rest;
                    vs.insert(0, v);
                    proof {
                        assert(vs@[0] == v);
                        assert(vs@.drop_first() =~= vs_rest@);
                        let f = enc_str_fn();
                        assert(enc_list(vs@, f) == f(vs@[0]) + enc_list(vs@.drop_first(), f));
                        assert(enc_list(vs@.drop_first(), f) == enc_list(vs_rest@, f));
                        let e1 = enc_str(v@);
                        let e2 = enc_list(vs_rest@, f);
                        assert(buf@.subrange(pos as int, end as int) =~= e1 + e2) by {
                            assert forall|i: int|
                                0 <= i < end - pos implies buf@.subrange(pos as int, end as int)[i]
                                == (e1 + e2)[i] by {
                                let l1 = e1.len() as int;
                                if i < l1 {
                                    assert(buf@.subrange(pos as int, p1 as int)[i] == e1[i]);
                                } else {
                                    assert(buf@.subrange(p1 as int, end as int)[i - l1] == e2[i
                                        - l1]);
                                }
                            }
                        }
                        assert forall|bs: Seq<String>|
                            bs.len() == n && tail_starts(buf@, pos as int, #[trigger] enc_list(
                                bs,
                                enc_str_fn(),
                            )) implies end == pos + enc_list(bs, enc_str_fn()).len() && (forall|i: int|
                            #![trigger bs[i]]
                            0 <= i < bs.len() ==> vs@[i]@ == bs[i]@) by {
                            assert(tail_starts(
                                buf@,
                                pos + enc_str(bs[0]@).len(),
                                enc_list(bs.drop_first(), enc_str_fn()),
                            ));
                            assert(p1 == pos + enc_str(bs[0]@).len());
                            assert(enc_list(bs, enc_str_fn()).len() == enc_str(bs[0]@).len() + enc_list(
                                bs.drop_first(),
                                enc_str_fn(),
                            ).len());
                            assert forall|i: int| #![trigger bs[i]] 0 <= i < bs.len() implies
                                vs@[i]@ == bs[i]@ by {
                                if i == 0 {
                                    assert(v@ == bs[0]@);
                                    assert(vs@[0] == v);
                                } else {
                                    assert(bs.drop_first()[i - 1] == bs[i]);
                                    assert(vs@[i] == vs_rest@[i - 1]);
                                    assert(vs@[i]@ == bs[i]@);
                                }
                            }
                        }
                    }
                    Some((vs, end))
                },
            }
        },
    }
}

fn dec_list_change(buf: &[u8], pos: usize, n: u64) -> (r: Option<(Vec<Change>, usize)>)
    ensures
        r matches Some(p) ==> pos <= p.1 <= buf@.len() && buf@.subrange(pos as int, p.1 as int)
            == enc_list(p.0@, enc_change_fn()) && p.0@.len() == n,
        forall|bs: Seq<Change>|
            bs.len() == n && tail_starts(buf@, pos as int, #[trigger] enc_list(bs, enc_change_fn()))
                ==> (r matches Some(p) && p.1 == pos + enc_list(bs, enc_change_fn()).len() && (forall|i: int|
                #![trigger bs[i]]
                0 <= i < bs.len() ==> p.0@[i].doc_id@ == bs[i].doc_id@ && p.0@[i].data@ == bs[i].data@ && p.0@[i].hash@ == bs[i].hash@)),
    decreases n,
{
    if n == 0 {
        if pos > buf.len() {
            proof {
                assert forall|bs: Seq<Change>|
                    bs.len() == n && tail_starts(buf@, pos as int, #[trigger] enc_list(
                        bs,
                        enc_change_fn(),
                    )) implies false by {
                }
            }
            return None;
        }
        let out: Vec<Change> = Vec::new();
        proof {
            assert(buf@.subrange(pos as int, pos as int) =~= enc_list(out@, enc_change_fn()));
        }
        return Some((out, pos));
    }
    proof {
        assert forall|bs: Seq<Change>|
            bs.len() == n && tail_starts(buf@, pos as int, #[trigger] enc_list(
                bs,
                enc_change_fn(),
            )) implies tail_starts(buf@, pos as int, enc_change(bs[0])) && tail_starts(
            buf@,
            pos + enc_change(bs[0]).len(),
            enc_list(bs.drop_first(), enc_change_fn()),
        ) by {
            let f = enc_change_fn();
            let whole = buf@.subrange(pos as int, pos + enc_list(bs, f).len());
            assert(enc_list(bs, f) == f(bs[0]) + enc_list(bs.drop_first(), f));
            assert(whole.subrange(0, whole.len() as int) =~= whole);
            assert(whole == enc_change(bs[0]) + enc_list(bs.drop_first(), f));
            lemma_step(whole, 0, enc_change(bs[0]), enc_list(bs.drop_first(), f));
            let l1 = enc_change(bs[0]).len() as int;
            let l2 = enc_list(bs.drop_first(), f).len() as int;
            assert(buf@.subrange(pos as int, pos + l1) =~= whole.subrange(0, l1));
            assert(buf@.subrange(pos + l1, pos + l1 + l2) =~= whole.subrange(l1, l1 + l2));
        }
    }
    match dec_change(buf, pos) {
        None => None,
        Some((v, p1)) => {
            match dec_list_change(buf, p1, n - 1) {
                None => None,
                Some((vs_rest, end)) => {
                    let mut vs = vs_rest;
                    vs.insert(0, v);
                    proof {
                        assert(vs@[0] == v);
                        assert(vs@.drop_first() =~= vs_rest@);
                        let f = enc_change_fn();
                        assert(enc_list(vs@, f) == f(vs@[0]) + enc_list(vs@.drop_first(), f));
                        assert(enc_list(vs@.drop_first(), f) == enc_list(vs_rest@, f));
                        let e1 = enc_change(v);
                        let e2 = enc_list(vs_rest@, f);
                        assert(buf@.subrange(pos as int, end as int) =~= e1 + e2) by {
                            assert forall|i: int|
                                0 <= i < end - pos implies buf@.subrange(pos as int, end as int)[i]
                                == (e1 + e2)[i] by {
                                let l1 = e1.len() as int;
                                if i < l1 {
                                    assert(buf@.subrange(pos as int, p1 as int)[i] == e1[i]);
                                } else {
                                    assert(buf@.subrange(p1 as int, end as int)[i - l1] == e2[i
                                        - l1]);
                                }
                            }
                        }
                        assert forall|bs: Seq<Change>|
                            bs.len() == n && tail_starts(buf@, pos as int, #[trigger] enc_list(
                                bs,
                                enc_change_fn(),
                            )) implies end == pos + enc_list(bs, enc_change_fn()).len() && (forall|i: int|
                            #![trigger bs[i]]
                            0 <= i < bs.len() ==> vs@[i].doc_id@ == bs[i].doc_id@ && vs@[i].data@ == bs[i].data@ && vs@[i].hash@ == bs[i].hash@) by {
                            assert(tail_starts(
                                buf@,
                                pos + enc_change(bs[0]).len(),
                                enc_list(bs.drop_first(), enc_change_fn()),
                            ));
                            assert(p1 == pos + enc_change(bs[0]).len());
                            assert(enc_list(bs, enc_change_fn()).len() == enc_change(bs[0]).len() + enc_list(
                                bs.drop_first(),
                                enc_change_fn(),
                            ).len());
                            assert forall|i: int| #![trigger bs[i]] 0 <= i < bs.len() implies
                                vs@[i].doc_id@ == bs[i].doc_id@ && vs@[i].data@ == bs[i].data@ && vs@[i].hash@ == bs[i].hash@ by {
                                if i == 0 {
                                    assert(v.doc_id@ == bs[0].doc_id@ && v.data@ == bs[0].data@ && v.hash@ == bs[0].hash@);
                                    assert(vs@[0] == v);
                                } else {
                                    assert(bs.drop_first()[i - 1] == bs[i]);
                                    assert(vs@[i] == vs_rest@[i - 1]);
                                    assert(vs@[i].doc_id@ == bs[i].doc_id@ && vs@[i].data@ == bs[i].data@ && vs@[i].hash@ == bs[i].hash@);
                                }
                            }
                        }
                    }
                    Some((vs, end))
                },
            }
        },
    }
}


proof fn lemma_cat(b: Seq<u8>, lo: int, mid: int, hi: int)
    requires
        0 <= lo <= mid <= hi <= b.len(),
    ensures
        b.subrange(lo, hi) == b.subrange(lo, mid) + b.subrange(mid, hi),
{
    assert(b.subrange(lo, hi) =~= b.subrange(lo, mid) + b.subrange(mid, hi));
}

proof fn lemma_tail_is_starts(b: Seq<u8>, pos: int, e: Seq<u8>)
    requires
        tail_is(b, pos, e),
    ensures
        tail_starts(b, pos, e),
        pos + e.len() == b.len(),
{
    assert(b.subrange(pos, pos + e.len()) =~= b.subrange(pos, b.len() as int));
}

proof fn lemma_shape(b: Seq<u8>, rid: u64, m: Request)
    requires
        b == req_payload(rid, m),
    ensures
        b.len() >= 12,
        b.subrange(0, 8) == enc_u64(rid),
        b.subrange(8, 12) == enc_u32(req_tag(m)),
        tail_is(b, 8, req_enc(m)),
        tail_is(b, 12, req_body(m)),
        b.len() == 12 + req_body(m).len(),
{
    lemma_auto_spec_u64_to_from_le_bytes();
    lemma_auto_spec_u32_to_from_le_bytes();
    assert(b.subrange(0, b.len() as int) =~= b);
    assert(b == enc_u64(rid) + (enc_u32(req_tag(m)) + req_body(m))) by {
        assert(enc_u64(rid) + (enc_u32(req_tag(m)) + req_body(m)) =~= enc_u64(rid) + req_enc(m));
    }
    lemma_step(b, 0, enc_u64(rid), enc_u32(req_tag(m)) + req_body(m));
    assert(tail_is(b, 8, req_enc(m))) by {
        assert(b.subrange(8, b.len() as int) =~= enc_u32(req_tag(m)) + req_body(m));
    }
    lemma_step(b, 8, enc_u32(req_tag(m)), req_body(m));
}

/// Decodes a request payload. Whatever comes back re-encodes to exactly the
/// input bytes, and every well-formed payload is accepted with its
/// correlation id: feeding an encoded `(ref_id, request)` back through this
/// decoder yields that ref id and a request with the identical encoding.
pub fn decode_request(buf: &[u8]) -> (r: Option<(u64, Request)>)
    ensures
        r matches Some(p) ==> buf@ == req_payload(p.0, p.1),
        forall|rid: u64, m: Request|
            buf@ == #[trigger] req_payload(rid, m) ==> (r matches Some(p) && p.0 == rid && req_enc(
                p.1,
            ) == req_enc(m) && req_equiv(p.1, m)),
{
    proof {
        lemma_auto_spec_u64_to_from_le_bytes();
        lemma_auto_spec_u32_to_from_le_bytes();
    }
    let ghost b = buf@;
    let blen: usize = buf.len();
    proof {
        assert(b.len() == blen);
    }
    let rid: u64;
    match dec_u64(buf, 0) {
        None => {
            proof {
                assert forall|rid2: u64, m: Request|
                    b == #[trigger] req_payload(rid2, m) implies false by {
                    lemma_shape(b, rid2, m);
                }
            }
            return None;
        },
        Some((x, _p)) => {
            rid = x;
        },
    }
    let tag: u32;
    match dec_u32(buf, 8) {
        None => {
            proof {
                assert forall|rid2: u64, m: Request|
                    b == #[trigger] req_payload(rid2, m) implies false by {
                    lemma_shape(b, rid2, m);
                }
            }
            return None;
        },
        Some((t, _p)) => {
            tag = t;
        },
    }
    proof {
        assert forall|rid2: u64, m: Request|
            b == #[trigger] req_payload(rid2, m) implies rid2 == rid && req_tag(m) == tag
            && tail_is(b, 12, req_body(m)) && b.len() == 12 + req_body(m).len() by {
            lemma_shape(b, rid2, m);
        }
    }

    if tag == 0 {
        return match dec_bytes(buf, 12) {
            None => {
                proof {
                    assert forall|rid2: u64, m: Request|
                        b == #[trigger] req_payload(rid2, m) implies false by {
                        lemma_shape(b, rid2, m);
                        match m {
                            Request::PutBlob { data: x } => {
                                lemma_tail_is_starts(b, 12, enc_bytes(x@));
                            },
                            _ => {
                                assert(req_tag(m) != 0);
                            },
                        }
                    }
                }
                None
            },
            Some((x, end)) => {
                if end == buf.len() {
                    let ghost dv = x@;
                    let req = Request::PutBlob { data: x };
                    proof {
                        lemma_cat(b, 8, 12, b.len() as int);
                        assert(b.subrange(0, b.len() as int) =~= b);
                        lemma_cat(b, 0, 8, b.len() as int);
                        assert(b.subrange(12, b.len() as int) == enc_bytes(dv));
                        assert(req_body(req) == enc_bytes(dv));
                        assert(b == req_payload(rid, req));
                        assert forall|rid2: u64, m: Request|
                            b == #[trigger] req_payload(rid2, m) implies rid2 == rid && req_enc(m)
                            == req_enc(req) && req_equiv(req, m) by {
                            lemma_shape(b, rid2, m);
                            lemma_shape(b, rid, req);
                            match m {
                                Request::PutBlob { data: y } => {
                                    lemma_tail_is_starts(b, 12, enc_bytes(y@));
                                    assert(dv == y@);
                                },
                                _ => {
                                    assert(req_tag(m) != 0);
                                },
                            }
                        }
                    }
                    Some((rid, req))
                } else {
                    proof {
                        assert forall|rid2: u64, m: Request|
                            b == #[trigger] req_payload(rid2, m) implies false by {
                            lemma_shape(b, rid2, m);
                            match m {
                                Request::PutBlob { data: y } => {
                                    lemma_tail_is_starts(b, 12, enc_bytes(y@));
                                },
                                _ => {
                                    assert(req_tag(m) != 0);
                                },
                            }
                        }
                    }
                    None
                }
            },
        };
    }

    if tag == 1 {
        return match dec_bytes(buf, 12) {
            None => {
                proof {
                    assert forall|rid2: u64, m: Request|
                        b == #[trigger] req_payload(rid2, m) implies false by {
                        lemma_shape(b, rid2, m);
                        match m {
                            Request::GetBlob { hash: x } => {
                                lemma_tail_is_starts(b, 12, enc_bytes(x@));
                            },
                            _ => {
                                assert(req_tag(m) != 1);
                            },
                        }
                    }
                }
                None
            },
            Some((x, end)) => {
                if end == buf.len() {
                    let ghost dv = x@;
                    let req = Request::GetBlob { hash: x };
                    proof {
                        lemma_cat(b, 8, 12, b.len() as int);
                        assert(b.subrange(0, b.len() as int) =~= b);
                        lemma_cat(b, 0, 8, b.len() as int);
                        assert(b.subrange(12, b.len() as int) == enc_bytes(dv));
                        assert(req_body(req) == enc_bytes(dv));
                        assert(b == req_payload(rid, req));
                        assert forall|rid2: u64, m: Request|
                            b == #[trigger] req_payload(rid2, m) implies rid2 == rid && req_enc(m)
                            == req_enc(req) && req_equiv(req, m) by {
                            lemma_shape(b, rid2, m);
                            lemma_shape(b, rid, req);
                            match m {
                                Request::GetBlob { hash: y } => {
                                    lemma_tail_is_starts(b, 12, enc_bytes(y@));
                                    assert(dv == y@);
                                },
                                _ => {
                                    assert(req_tag(m) != 1);
                                },
                            }
                        }
                    }
                    Some((rid, req))
                } else {
                    proof {
                        assert forall|rid2: u64, m: Request|
                            b == #[trigger] req_payload(rid2, m) implies false by {
                            lemma_shape(b, rid2, m);
                            match m {
                                Request::GetBlob { hash: y } => {
                                    lemma_tail_is_starts(b, 12, enc_bytes(y@));
                                },
                                _ => {
                                    assert(req_tag(m) != 1);
                                },
                            }
                        }
                    }
                    None
                }
            },
        };
    }

    if tag == 2 {
        return match dec_bytes(buf, 12) {
            None => {
                proof {
                    assert forall|rid2: u64, m: Request|
                        b == #[trigger] req_payload(rid2, m) implies false by {
                        lemma_shape(b, rid2, m);
                        match m {
                            Request::HasBlob { hash: x } => {
                                lemma_tail_is_starts(b, 12, enc_bytes(x@));
                            },
                            _ => {
                                assert(req_tag(m) != 2);
                            },
                        }
                    }
                }
                None
            },
            Some((x, end)) => {
                if end == buf.len() {
                    let ghost dv = x@;
                    let req = Request::HasBlob { hash: x };
                    proof {
                        lemma_cat(b, 8, 12, b.len() as int);
                        assert(b.subrange(0, b.len() as int) =~= b);
                        lemma_cat(b, 0, 8, b.len() as int);
                        assert(b.subrange(12, b.len() as int) == enc_bytes(dv));
                        assert(req_body(req) == enc_bytes(dv));
                        assert(b == req_payload(rid, req));
                        assert forall|rid2: u64, m: Request|
                            b == #[trigger] req_payload(rid2, m) implies rid2 == rid && req_enc(m)
                            == req_enc(req) && req_equiv(req, m) by {
                            lemma_shape(b, rid2, m);
                            lemma_shape(b, rid, req);
                            match m {
                                Request::HasBlob { hash: y } => {
                                    lemma_tail_is_starts(b, 12, enc_bytes(y@));
                                    assert(dv == y@);
                                },
                                _ => {
                                    assert(req_tag(m) != 2);
                                },
                            }
                        }
                    }
                    Some((rid, req))
                } else {
                    proof {
                        assert forall|rid2: u64, m: Request|
                            b == #[trigger] req_payload(rid2, m) implies false by {
                            lemma_shape(b, rid2, m);
                            match m {
                                Request::HasBlob { hash: y } => {
                                    lemma_tail_is_starts(b, 12, enc_bytes(y@));
                                },
                                _ => {
                                    assert(req_tag(m) != 2);
                                },
                            }
                        }
                    }
                    None
                }
            },
        };
    }

    if tag == 3 {
        proof {
            assert forall|rid2: u64, m: Request|
                b == #[trigger] req_payload(rid2, m) implies (match m {
                Request::PutDocument { id, meta, crdt_state } => tail_starts(b, 12, enc_str(id@))
                    && tail_starts(b, 12 + enc_str(id@).len() as int, enc_bytes(meta@)) && tail_starts(
                    b,
                    12 + enc_str(id@).len() as int + enc_bytes(meta@).len() as int,
                    enc_bytes(crdt_state@),
                ) && b.len() == 12 + enc_str(id@).len() + enc_bytes(meta@).len() + enc_bytes(
                    crdt_state@,
                ).len(),
                _ => false,
            }) by {
                lemma_shape(b, rid2, m);
                match m {
                    Request::PutDocument { id, meta, crdt_state } => {
                        lemma_step(b, 12, enc_str(id@), enc_bytes(meta@) + enc_bytes(crdt_state@));
                        lemma_step(
                            b,
                            12 + enc_str(id@).len() as int,
                            enc_bytes(meta@),
                            enc_bytes(crdt_state@),
                        );
                        lemma_tail_is_starts(
                            b,
                            12 + enc_str(id@).len() as int + enc_bytes(meta@).len() as int,
                            enc_bytes(crdt_state@),
                        );
                    },
                    _ => {
                        assert(req_tag(m) != 3);
                    },
                }
            }
        }
        return match dec_string(buf, 12) {
            None => None,
            Some((id, q1)) => match dec_bytes(buf, q1) {
                None => None,
                Some((meta, q2)) => match dec_bytes(buf, q2) {
                    None => None,
                    Some((state, end)) => {
                        if end == buf.len() {
                            let ghost iv = id@;
                            let ghost mv = meta@;
                            let ghost sv = state@;
                            let req = Request::PutDocument { id, meta, crdt_state: state };
                            proof {
                                lemma_cat(b, q1 as int, q2 as int, b.len() as int);
                                lemma_cat(b, 12, q1 as int, b.len() as int);
                                lemma_cat(b, 8, 12, b.len() as int);
                                assert(b.subrange(0, b.len() as int) =~= b);
                                lemma_cat(b, 0, 8, b.len() as int);
                                assert(b.subrange(12, b.len() as int) == enc_str(iv) + (enc_bytes(
                                    mv,
                                ) + enc_bytes(sv)));
                                assert(req_body(req) == enc_str(iv) + (enc_bytes(mv) + enc_bytes(
                                    sv,
                                )));
                                assert(b == req_payload(rid, req));
                                assert forall|rid2: u64, m: Request|
                                    b == #[trigger] req_payload(rid2, m) implies rid2 == rid
                                    && req_enc(m) == req_enc(req) && req_equiv(req, m) by {
                                    lemma_shape(b, rid2, m);
                                    lemma_shape(b, rid, req);
                                    match m {
                                        Request::PutDocument { id: i2, meta: m2, crdt_state: s2 } => {
                                            assert(iv == i2@);
                                            assert(mv == m2@);
                                            assert(sv == s2@);
                                        },
                                        _ => {
                                            assert(req_tag(m) != 3);
                                        },
                                    }
                                }
                            }
                            Some((rid, req))
                        } else {
                            None
                        }
                    },
                },
            },
        };
    }

    if tag == 4 {
        return match dec_string(buf, 12) {
            None => {
                proof {
                    assert forall|rid2: u64, m: Request|
                        b == #[trigger] req_payload(rid2, m) implies false by {
                        lemma_shape(b, rid2, m);
                        match m {
                            Request::GetDocument { id: x } => {
                                lemma_tail_is_starts(b, 12, enc_str(x@));
                            },
                            _ => {
                                assert(req_tag(m) != 4);
                            },
                        }
                    }
                }
                None
            },
            Some((x, end)) => {
                if end == buf.len() {
                    let ghost dv = x@;
                    let req = Request::GetDocument { id: x };
                    proof {
                        lemma_cat(b, 8, 12, b.len() as int);
                        assert(b.subrange(0, b.len() as int) =~= b);
                        lemma_cat(b, 0, 8, b.len() as int);
                        assert(b.subrange(12, b.len() as int) == enc_str(dv));
                        assert(req_body(req) == enc_str(dv));
                        assert(b == req_payload(rid, req));
                        assert forall|rid2: u64, m: Request|
                            b == #[trigger] req_payload(rid2, m) implies rid2 == rid && req_enc(m)
                            == req_enc(req) && req_equiv(req, m) by {
                            lemma_shape(b, rid2, m);
                            lemma_shape(b, rid, req);
                            match m {
                                Request::GetDocument { id: y } => {
                                    lemma_tail_is_starts(b, 12, enc_str(y@));
                                    assert(dv == y@);
                                },
                                _ => {
                                    assert(req_tag(m) != 4);
                                },
                            }
                        }
                    }
                    Some((rid, req))
                } else {
                    proof {
                        assert forall|rid2: u64, m: Request|
                            b == #[trigger] req_payload(rid2, m) implies false by {
                            lemma_shape(b, rid2, m);
                            match m {
                                Request::GetDocument { id: y } => {
                                    lemma_tail_is_starts(b, 12, enc_str(y@));
                                },
                                _ => {
                                    assert(req_tag(m) != 4);
                                },
                            }
                        }
                    }
                    None
                }
            },
        };
    }

    if tag == 5 {
        return match dec_string(buf, 12) {
            None => {
                proof {
                    assert forall|rid2: u64, m: Request|
                        b == #[trigger] req_payload(rid2, m) implies false by {
                        lemma_shape(b, rid2, m);
                        match m {
                            Request::DeleteDocument { id: x } => {
                                lemma_tail_is_starts(b, 12, enc_str(x@));
                            },
                            _ => {
                                assert(req_tag(m) != 5);
                            },
                        }
                    }
                }
                None
            },
            Some((x, end)) => {
                if end == buf.len() {
                    let ghost dv = x@;
                    let req = Request::DeleteDocument { id: x };
                    proof {
                        lemma_cat(b, 8, 12, b.len() as int);
                        assert(b.subrange(0, b.len() as int) =~= b);
                        lemma_cat(b, 0, 8, b.len() as int);
                        assert(b.subrange(12, b.len() as int) == enc_str(dv));
                        assert(req_body(req) == enc_str(dv));
                        assert(b == req_payload(rid, req));
                        assert forall|rid2: u64, m: Request|
                            b == #[trigger] req_payload(rid2, m) implies rid2 == rid && req_enc(m)
                            == req_enc(req) && req_equiv(req, m) by {
                            lemma_shape(b, rid2, m);
                            lemma_shape(b, rid, req);
                            match m {
                                Request::DeleteDocument { id: y } => {
                                    lemma_tail_is_starts(b, 12, enc_str(y@));
                                    assert(dv == y@);
                                },
                                _ => {
                                    assert(req_tag(m) != 5);
                                },
                            }
                        }
                    }
                    Some((rid, req))
                } else {
                    proof {
                        assert forall|rid2: u64, m: Request|
                            b == #[trigger] req_payload(rid2, m) implies false by {
                            lemma_shape(b, rid2, m);
                            match m {
                                Request::DeleteDocument { id: y } => {
                                    lemma_tail_is_starts(b, 12, enc_str(y@));
                                },
                                _ => {
                                    assert(req_tag(m) != 5);
                                },
                            }
                        }
                    }
                    None
                }
            },
        };
    }

    if tag == 6 {
        if buf.len() == 12 {
            let req = Request::ListDocuments;
            proof {
                lemma_cat(b, 8, 12, b.len() as int);
                assert(b.subrange(0, b.len() as int) =~= b);
                lemma_cat(b, 0, 8, b.len() as int);
                assert(b.subrange(12, b.len() as int) =~= Seq::<u8>::empty());
                assert(req_body(req) == Seq::<u8>::empty());
                assert(enc_u32(6u32) + Seq::<u8>::empty() =~= enc_u32(6u32));
                assert(b == req_payload(rid, req));
                assert forall|rid2: u64, m: Request|
                    b == #[trigger] req_payload(rid2, m) implies rid2 == rid && req_enc(m)
                    == req_enc(req) && req_equiv(req, m) by {
                    lemma_shape(b, rid2, m);
                    lemma_shape(b, rid, req);
                    match m {
                        Request::ListDocuments => {
                        },
                        _ => {
                            assert(req_tag(m) != 6);
                        },
                    }
                }
            }
            return Some((rid, req));
        } else {
            proof {
                assert forall|rid2: u64, m: Request|
                    b == #[trigger] req_payload(rid2, m) implies false by {
                    lemma_shape(b, rid2, m);
                    match m {
                        Request::ListDocuments => {
                            assert(b.len() == 12);
                        },
                        _ => {
                            assert(req_tag(m) != 6);
                        },
                    }
                }
            }
            return None;
        }
    }

    if tag == 7 {
        let count: u64;
        let p3: usize;
        match dec_u64(buf, 12) {
            None => {
                proof {
                    assert forall|rid2: u64, m: Request|
                        b == #[trigger] req_payload(rid2, m) implies false by {
                        lemma_shape(b, rid2, m);
                        match m {
                            Request::GetRoots { doc_ids: xs } => {
                                lemma_tail_is_starts(b, 12, req_body(m));
                                assert(b.len() >= 12 + 8);
                            },
                            _ => {
                                assert(req_tag(m) != 7);
                            },
                        }
                    }
                }
                return None;
            },
            Some((c0, q)) => {
                count = c0;
                p3 = q;
            },
        }
        proof {
            assert forall|rid2: u64, m: Request|
                b == #[trigger] req_payload(rid2, m) implies (match m {
                Request::GetRoots { doc_ids: xs } => xs@.len() == count && tail_starts(
                    b,
                    20,
                    enc_list(xs@, enc_str_fn()),
                ) && b.len() == 20 + enc_list(xs@, enc_str_fn()).len(),
                _ => false,
            }) by {
                lemma_shape(b, rid2, m);
                match m {
                    Request::GetRoots { doc_ids: xs } => {
                        lemma_tail_is_starts(b, 12, req_body(m));
                        lemma_step(b, 12, enc_u64(xs@.len() as u64), enc_list(xs@, enc_str_fn()));
                        assert(b.subrange(12, 20) =~= enc_u64(xs@.len() as u64));
                        assert(tail_is(b, 20, enc_list(xs@, enc_str_fn()))) by {
                            assert(b.subrange(20, b.len() as int) =~= enc_list(xs@, enc_str_fn()));
                        }
                        lemma_tail_is_starts(b, 20, enc_list(xs@, enc_str_fn()));
                        lemma_auto_spec_u64_to_from_le_bytes();
                        assert forall|a| #[trigger] enc_str_fn()(a).len() >= 1 by {
                        }
                        lemma_enc_list_min_len(xs@, enc_str_fn());
                        assert(xs@.len() <= b.len());
                        assert(xs@.len() == count);
                    },
                    _ => {
                        assert(req_tag(m) != 7);
                    },
                }
            }
        }
        return match dec_list_string(buf, p3, count) {
            None => None,
            Some((xs, end)) => {
                if end == buf.len() {
                    let ghost xv = xs@;
                    let req = Request::GetRoots { doc_ids: xs };
                    proof {
                        lemma_cat(b, 12, 20, b.len() as int);
                        lemma_cat(b, 8, 12, b.len() as int);
                        assert(b.subrange(0, b.len() as int) =~= b);
                        lemma_cat(b, 0, 8, b.len() as int);
                        assert(b.subrange(20, b.len() as int) == enc_list(xv, enc_str_fn()));
                        assert(req_body(req) == enc_u64(xv.len() as u64) + enc_list(xv, enc_str_fn()));
                        assert(xv.len() as u64 == count);
                        assert(b.subrange(12, 20) == enc_u64(count));
                        assert(b.subrange(12, b.len() as int) == req_body(req));
                        assert(b == req_payload(rid, req));
                        assert forall|rid2: u64, m: Request|
                            b == #[trigger] req_payload(rid2, m) implies rid2 == rid && req_enc(m)
                            == req_enc(req) && req_equiv(req, m) by {
                            lemma_shape(b, rid2, m);
                            lemma_shape(b, rid, req);
                            match m {
                                Request::GetRoots { doc_ids: ys } => {
                                    assert(xv.len() == ys@.len());
                                    assert forall|i: int| #![trigger xv[i]] 0 <= i < xv.len()
                                        implies xv[i]@ == ys@[i]@ by {
                                        assert(ys@[i] == ys@[i]);
                                    }
                                },
                                _ => {
                                    assert(req_tag(m) != 7u32);
                                },
                            }
                        }
                    }
                    Some((rid, req))
                } else {
                    None
                }
            },
        };
    }

    if tag == 8 {
        let count: u64;
        let p3: usize;
        match dec_u64(buf, 12) {
            None => {
                proof {
                    assert forall|rid2: u64, m: Request|
                        b == #[trigger] req_payload(rid2, m) implies false by {
                        lemma_shape(b, rid2, m);
                        match m {
                            Request::GetChanges { known_roots: xs } => {
                                lemma_tail_is_starts(b, 12, req_body(m));
                                assert(b.len() >= 12 + 8);
                            },
                            _ => {
                                assert(req_tag(m) != 8);
                            },
                        }
                    }
                }
                return None;
            },
            Some((c0, q)) => {
                count = c0;
                p3 = q;
            },
        }
        proof {
            assert forall|rid2: u64, m: Request|
                b == #[trigger] req_payload(rid2, m) implies (match m {
                Request::GetChanges { known_roots: xs } => xs@.len() == count && tail_starts(
                    b,
                    20,
                    enc_list(xs@, enc_bytes_fn()),
                ) && b.len() == 20 + enc_list(xs@, enc_bytes_fn()).len(),
                _ => false,
            }) by {
                lemma_shape(b, rid2, m);
                match m {
                    Request::GetChanges { known_roots: xs } => {
                        lemma_tail_is_starts(b, 12, req_body(m));
                        lemma_step(b, 12, enc_u64(xs@.len() as u64), enc_list(xs@, enc_bytes_fn()));
                        assert(b.subrange(12, 20) =~= enc_u64(xs@.len() as u64));
                        assert(tail_is(b, 20, enc_list(xs@, enc_bytes_fn()))) by {
                            assert(b.subrange(20, b.len() as int) =~= enc_list(xs@, enc_bytes_fn()));
                        }
                        lemma_tail_is_starts(b, 20, enc_list(xs@, enc_bytes_fn()));
                        lemma_auto_spec_u64_to_from_le_bytes();
                        assert forall|a| #[trigger] enc_bytes_fn()(a).len() >= 1 by {
                        }
                        lemma_enc_list_min_len(xs@, enc_bytes_fn());
                        assert(xs@.len() <= b.len());
                        assert(xs@.len() == count);
                    },
                    _ => {
                        assert(req_tag(m) != 8);
                    },
                }
            }
        }
        return match dec_list_bytes(buf, p3, count) {
            None => None,
            Some((xs, end)) => {
                if end == buf.len() {
                    let ghost xv = xs@;
                    let req = Request::GetChanges { known_roots: xs };
                    proof {
                        lemma_cat(b, 12, 20, b.len() as int);
                        lemma_cat(b, 8, 12, b.len() as int);
                        assert(b.subrange(0, b.len() as int) =~= b);
                        lemma_cat(b, 0, 8, b.len() as int);
                        assert(b.subrange(20, b.len() as int) == enc_list(xv, enc_bytes_fn()));
                        assert(req_body(req) == enc_u64(xv.len() as u64) + enc_list(xv, enc_bytes_fn()));
                        assert(xv.len() as u64 == count);
                        assert(b.subrange(12, 20) == enc_u64(count));
                        assert(b.subrange(12, b.len() as int) == req_body(req));
                        assert(b == req_payload(rid, req));
                        assert forall|rid2: u64, m: Request|
                            b == #[trigger] req_payload(rid2, m) implies rid2 == rid && req_enc(m)
                            == req_enc(req) && req_equiv(req, m) by {
                            lemma_shape(b, rid2, m);
                            lemma_shape(b, rid, req);
                            match m {
                                Request::GetChanges { known_roots: ys } => {
                                    assert(xv.len() == ys@.len());
                                    assert forall|i: int| #![trigger xv[i]] 0 <= i < xv.len()
                                        implies xv[i]@ == ys@[i]@ by {
                                        assert(ys@[i] == ys@[i]);
                                    }
                                },
                                _ => {
                                    assert(req_tag(m) != 8u32);
                                },
                            }
                        }
                    }
                    Some((rid, req))
                } else {
                    None
                }
            },
        };
    }

    if tag == 9 {
        let count: u64;
        let p3: usize;
        match dec_u64(buf, 12) {
            None => {
                proof {
                    assert forall|rid2: u64, m: Request|
                        b == #[trigger] req_payload(rid2, m) implies false by {
                        lemma_shape(b, rid2, m);
                        match m {
                            Request::ApplyChanges { changes: xs } => {
                                lemma_tail_is_starts(b, 12, req_body(m));
                                assert(b.len() >= 12 + 8);
                            },
                            _ => {
                                assert(req_tag(m) != 9);
                            },
                        }
                    }
                }
                return None;
            },
            Some((c0, q)) => {
                count = c0;
                p3 = q;
            },
        }
        proof {
            assert forall|rid2: u64, m: Request|
                b == #[trigger] req_payload(rid2, m) implies (match m {
                Request::ApplyChanges { changes: xs } => xs@.len() == count && tail_starts(
                    b,
                    20,
                    enc_list(xs@, enc_change_fn()),
                ) && b.len() == 20 + enc_list(xs@, enc_change_fn()).len(),
                _ => false,
            }) by {
                lemma_shape(b, rid2, m);
                match m {
                    Request::ApplyChanges { changes: xs } => {
                        lemma_tail_is_starts(b, 12, req_body(m));
                        lemma_step(b, 12, enc_u64(xs@.len() as u64), enc_list(xs@, enc_change_fn()));
                        assert(b.subrange(12, 20) =~= enc_u64(xs@.len() as u64));
                        assert(tail_is(b, 20, enc_list(xs@, enc_change_fn()))) by {
                            assert(b.subrange(20, b.len() as int) =~= enc_list(xs@, enc_change_fn()));
                        }
                        lemma_tail_is_starts(b, 20, enc_list(xs@, enc_change_fn()));
                        lemma_auto_spec_u64_to_from_le_bytes();
                        assert forall|a| #[trigger] enc_change_fn()(a).len() >= 1 by {
                        }
                        lemma_enc_list_min_len(xs@, enc_change_fn());
                        assert(xs@.len() <= b.len());
                        assert(xs@.len() == count);
                    },
                    _ => {
                        assert(req_tag(m) != 9);
                    },
                }
            }
        }
        return match dec_list_change(buf, p3, count) {
            None => None,
            Some((xs, end)) => {
                if end == buf.len() {
                    let ghost xv = xs@;
                    let req = Request::ApplyChanges { changes: xs };
                    proof {
                        lemma_cat(b, 12, 20, b.len() as int);
                        lemma_cat(b, 8, 12, b.len() as int);
                        assert(b.subrange(0, b.len() as int) =~= b);
                        lemma_cat(b, 0, 8, b.len() as int);
                        assert(b.subrange(20, b.len() as int) == enc_list(xv, enc_change_fn()));
                        assert(req_body(req) == enc_u64(xv.len() as u64) + enc_list(xv, enc_change_fn()));
                        assert(xv.len() as u64 == count);
                        assert(b.subrange(12, 20) == enc_u64(count));
                        assert(b.subrange(12, b.len() as int) == req_body(req));
                        assert(b == req_payload(rid, req));
                        assert forall|rid2: u64, m: Request|
                            b == #[trigger] req_payload(rid2, m) implies rid2 == rid && req_enc(m)
                            == req_enc(req) && req_equiv(req, m) by {
                            lemma_shape(b, rid2, m);
                            lemma_shape(b, rid, req);
                            match m {
                                Request::ApplyChanges { changes: ys } => {
                                    assert(xv.len() == ys@.len());
                                    assert forall|i: int| #![trigger xv[i]] 0 <= i < xv.len()
                                        implies xv[i].doc_id@ == ys@[i].doc_id@ && xv[i].data@ == ys@[i].data@ && xv[i].hash@ == ys@[i].hash@ by {
                                        assert(ys@[i] == ys@[i]);
                                    }
                                },
                                _ => {
                                    assert(req_tag(m) != 9u32);
                                },
                            }
                        }
                    }
                    Some((rid, req))
                } else {
                    None
                }
            },
        };
    }

    proof {
        assert forall|rid2: u64, m: Request| b == #[trigger] req_payload(rid2, m) implies false by {
            lemma_shape(b, rid2, m);
            assert(req_tag(m) == tag);
        }
    }
    None
}

/// The 4-byte big-endian frame header for a payload of `n` bytes.
pub open spec fn be_len_bytes(n: u32) -> Seq<u8> {
    seq![
        ((n >> 24) & 0xff) as u8,
        ((n >> 16) & 0xff) as u8,
        ((n >> 8) & 0xff) as u8,
        (n & 0xff) as u8,
    ]
}

/// A whole frame: the payload behind its big-endian length.
pub open spec fn frame_of(payload: Seq<u8>) -> Seq<u8> {
    be_len_bytes(payload.len() as u32) + payload
}

/// Builds the frame header for a payload length.
pub fn frame_header(len: u32) -> (r: Vec<u8>)
    ensures
        r@ == be_len_bytes(len),
        r@.len() == 4,
{
    proof {
        assert((len >> 24) & 0xff < 256 && (len >> 16) & 0xff < 256 && (len >> 8) & 0xff < 256
            && len & 0xff < 256) by (bit_vector);
    }
    let mut v: Vec<u8> = Vec::new();
    v.push(((len >> 24) & 0xff) as u8);
    v.push(((len >> 16) & 0xff) as u8);
    v.push(((len >> 8) & 0xff) as u8);
    v.push((len & 0xff) as u8);
    proof {
        assert(v@ =~= be_len_bytes(len));
    }
    v
}

/// Reads a frame header back into the payload length.
pub fn parse_frame_len(h: &[u8]) -> (r: u32)
    requires
        h@.len() == 4,
    ensures
        be_len_bytes(r) == h@,
{
    let b0 = h[0];
    let b1 = h[1];
    let b2 = h[2];
    let b3 = h[3];
    let r = ((b0 as u32) << 24) | ((b1 as u32) << 16) | ((b2 as u32) << 8) | (b3 as u32);
    proof {
        assert({
            let x = ((b0 as u32) << 24) | ((b1 as u32) << 16) | ((b2 as u32) << 8) | (b3 as u32);
            ((x >> 24) & 0xff) == b0 as u32 && ((x >> 16) & 0xff) == b1 as u32 && ((x >> 8)
                & 0xff) == b2 as u32 && (x & 0xff) == b3 as u32
        }) by (bit_vector);
        assert(((r >> 24) & 0xff) as u8 == b0);
        assert(((r >> 16) & 0xff) as u8 == b1);
        assert(((r >> 8) & 0xff) as u8 == b2);
        assert((r & 0xff) as u8 == b3);
        assert(be_len_bytes(r) =~= h@);
    }
    r
}

} // verus!
