//! Merkle utilities for sync: a combined root over a set of `(doc_id, digest)`
//! pairs, and a two-way diff of two root sets.
//!
//! The combined root is computed over the digests in canonical (id-sorted)
//! order: digests are hashed in pairs, an odd final element is promoted
//! unchanged, and the rounds repeat until one digest remains. An empty set
//! has the all-zero root.

use vstd::prelude::*;
use vstd::relations::sorted_by;
use vstd::utf8::encode_utf8;
use crate::digest::{digest_of, zero_digest, hash_bytes, zero_digest_exec};
use crate::order::{
    bytes_lt, le_pair, le_pair_fn, pair_rep, pairs_rep, distinct_ids, lemma_le_pair_total_ordering,
    sort_pairs, bytes_eq_exec, lemma_bytes_lt_irreflexive, lemma_bytes_lt_transitive,
};

verus! {

/// One pairing round: adjacent digests are hashed together, an odd final
/// digest is promoted unchanged.
pub open spec fn next_layer(layer: Seq<Seq<u8>>) -> Seq<Seq<u8>> {
    Seq::new(
        ((layer.len() + 1) / 2) as nat,
        |j: int|
            if 2 * j + 1 < layer.len() {
                digest_of(layer[2 * j] + layer[2 * j + 1])
            } else {
                layer[2 * j]
            },
    )
}

#[via_fn]
proof fn reduce_root_decreases(layer: Seq<Seq<u8>>) {
    assert(layer.len() >= 2 ==> (layer.len() + 1) / 2 < layer.len());
}

/// Folds a layer of digests down to the single combined root.
pub open spec fn reduce_root(layer: Seq<Seq<u8>>) -> Seq<u8>
    decreases layer.len(),
    via reduce_root_decreases
{
    if layer.len() == 0 {
        zero_digest()
    } else if layer.len() == 1 {
        layer[0]
    } else {
        reduce_root(next_layer(layer))
    }
}

/// The digests of a pair multiset, in canonical sorted order.
pub open spec fn sorted_digests(ps: Seq<(Seq<u8>, Seq<u8>)>) -> Seq<Seq<u8>> {
    ps.sort_by(le_pair_fn()).map_values(|p: (Seq<u8>, Seq<u8>)| p.1)
}

/// The combined Merkle root of a sequence of `(id bytes, digest)` pairs.
pub open spec fn merkle_root(ps: Seq<(Seq<u8>, Seq<u8>)>) -> Seq<u8> {
    reduce_root(sorted_digests(ps))
}

/// The root of the empty set is the all-zero digest.
pub proof fn lemma_root_empty()
    ensures
        merkle_root(Seq::<(Seq<u8>, Seq<u8>)>::empty()) == zero_digest(),
{
    let s = Seq::<(Seq<u8>, Seq<u8>)>::empty();
    broadcast use vstd::seq_lib::group_to_multiset_ensures;

    lemma_le_pair_total_ordering();
    s.lemma_sort_by_ensures(le_pair_fn());
    assert(s.to_multiset().len() == 0);
    assert(s.sort_by(le_pair_fn()).len() == 0);
}

/// The root of a single pair is that pair's digest, whatever its id.
pub proof fn lemma_root_singleton(id: Seq<u8>, h: Seq<u8>)
    ensures
        merkle_root(seq![(id, h)]) == h,
{
    broadcast use vstd::seq_lib::group_to_multiset_ensures;

    let s = seq![(id, h)];
    lemma_le_pair_total_ordering();
    s.lemma_sort_by_ensures(le_pair_fn());
    let t = s.sort_by(le_pair_fn());
    vstd::seq_lib::to_multiset_len(s);
    vstd::seq_lib::to_multiset_len(t);
    assert(t.len() == 1);
    vstd::seq_lib::to_multiset_contains(t, t[0]);
    vstd::seq_lib::to_multiset_contains(s, t[0]);
    assert(t.contains(t[0])) by {
        assert(t[0] == t[0]);
    }
    assert(s.contains(t[0]));
    assert(t[0] == (id, h));
    assert(sorted_digests(s) =~= seq![h]);
}

/// The combined root depends only on the multiset of `(id, digest)` pairs:
/// any permutation of the input yields the same root.
pub proof fn lemma_root_permutation_invariant(
    a: Seq<(Seq<u8>, Seq<u8>)>,
    b: Seq<(Seq<u8>, Seq<u8>)>,
)
    requires
        a.to_multiset() == b.to_multiset(),
    ensures
        merkle_root(a) == merkle_root(b),
{
    lemma_le_pair_total_ordering();
    a.lemma_sort_by_ensures(le_pair_fn());
    b.lemma_sort_by_ensures(le_pair_fn());
    vstd::seq_lib::lemma_sorted_unique(a.sort_by(le_pair_fn()), b.sort_by(le_pair_fn()), le_pair_fn());
    assert(a.sort_by(le_pair_fn()) == b.sort_by(le_pair_fn()));
}

/// Copies one digest vector.
pub(crate) fn clone_bytes(v: &Vec<u8>) -> (r: Vec<u8>)
    ensures
        r@ == v@,
{
    let mut out: Vec<u8> = Vec::new();
    let mut i: usize = 0;
    while i < v.len()
        invariant
            i <= v@.len(),
            out@ =~= v@.take(i as int),
        decreases v@.len() - i,
    {
        out.push(v[i]);
        i = i + 1;
    }
    proof {
        assert(out@ =~= v@);
    }
    out
}

/// Copies one `(id, digest)` pair.
fn clone_pair(p: &(String, Vec<u8>)) -> (r: (String, Vec<u8>))
    ensures
        pair_rep(r) == pair_rep(*p),
        r.0@ == p.0@,
        r.1@ == p.1@,
{
    (p.0.clone(), clone_bytes(&p.1))
}

/// Compute the combined Merkle root of a list of `(doc_id, digest)` pairs:
/// sort by id, then repeatedly hash the layer in adjacent pairs, promoting an
/// odd final element unchanged, until a single digest remains. The empty list
/// yields the all-zero digest.
pub fn compute_root(pairs: &[(String, Vec<u8>)]) -> (r: Vec<u8>)
    ensures
        r@ == merkle_root(pairs_rep(pairs@)),
{
    let mut owned: Vec<(String, Vec<u8>)> = Vec::new();
    let mut i: usize = 0;
    while i < pairs.len()
        invariant
            i <= pairs@.len(),
            pairs_rep(owned@) =~= pairs_rep(pairs@).take(i as int),
        decreases pairs@.len() - i,
    {
        let p = clone_pair(&pairs[i]);
        let ghost prev = owned@;
        owned.push(p);
        proof {
            assert(pairs_rep(owned@) =~= pairs_rep(prev).push(pair_rep(p)));
            assert(pairs_rep(pairs@).take(i + 1) =~= pairs_rep(pairs@).take(i as int).push(
                pairs_rep(pairs@)[i as int],
            ));
        }
        i = i + 1;
    }
    proof {
        assert(pairs_rep(owned@) =~= pairs_rep(pairs@));
    }
    let sorted = sort_pairs(owned);
    proof {
        lemma_le_pair_total_ordering();
        pairs_rep(pairs@).lemma_sort_by_ensures(le_pair_fn());
        vstd::seq_lib::lemma_sorted_unique(
            pairs_rep(sorted@),
            pairs_rep(pairs@).sort_by(le_pair_fn()),
            le_pair_fn(),
        );
        assert(pairs_rep(sorted@) == pairs_rep(pairs@).sort_by(le_pair_fn()));
    }
    if sorted.len() == 0 {
        proof {
            assert(sorted_digests(pairs_rep(pairs@)) =~= Seq::<Seq<u8>>::empty());
        }
        return zero_digest_exec();
    }
    let ghost goal = sorted_digests(pairs_rep(pairs@));
    let mut layer: Vec<Vec<u8>> = Vec::new();
    let mut j: usize = 0;
    while j < sorted.len()
        invariant
            j <= sorted@.len(),
            digests_rep(layer@) =~= goal.take(j as int),
            goal == pairs_rep(sorted@).map_values(|p: (Seq<u8>, Seq<u8>)| p.1),
        decreases sorted@.len() - j,
    {
        let d = clone_bytes(&sorted[j].1);
        let ghost prev = layer@;
        layer.push(d);
        proof {
            assert(digests_rep(layer@) =~= digests_rep(prev).push(d@));
            assert(goal[j as int] == pairs_rep(sorted@)[j as int].1);
            assert(goal.take(j + 1) =~= goal.take(j as int).push(goal[j as int]));
        }
        j = j + 1;
    }
    proof {
        assert(digests_rep(layer@) =~= goal);
    }
    while layer.len() > 1
        invariant
            layer@.len() >= 1,
            reduce_root(digests_rep(layer@)) == reduce_root(goal),
        decreases layer@.len(),
    {
        let ghost cur = digests_rep(layer@);
        let mut next: Vec<Vec<u8>> = Vec::new();
        let mut k: usize = 0;
        while k + 1 < layer.len()
            invariant
                k <= layer@.len(),
                k % 2 == 0,
                cur == digests_rep(layer@),
                layer@.len() >= 2,
                digests_rep(next@) =~= next_layer(cur).take((k / 2) as int),
            decreases layer@.len() - k,
        {
            let mut combined = clone_bytes(&layer[k]);
            let mut second = clone_bytes(&layer[k + 1]);
            combined.append(&mut second);
            proof {
                assert(combined@ == cur[k as int] + cur[k as int + 1]);
            }
            let h = hash_bytes(combined.as_slice());
            let ghost prevn = next@;
            next.push(h);
            proof {
                assert(2 * ((k / 2) as int) == k as int);
                assert((k / 2) as int + 1 <= next_layer(cur).len());
                assert(next_layer(cur)[(k / 2) as int] == digest_of(
                    cur[k as int] + cur[k as int + 1],
                ));
                assert(digests_rep(next@) =~= digests_rep(prevn).push(h@));
                assert(next_layer(cur).take((k / 2) as int + 1) =~= next_layer(cur).take(
                    (k / 2) as int,
                ).push(next_layer(cur)[(k / 2) as int]));
                assert(digests_rep(next@) =~= next_layer(cur).take((k / 2) as int + 1));
            }
            k = k + 2;
        }
        if k < layer.len() {
            let d = clone_bytes(&layer[k]);
            let ghost prevn = next@;
            next.push(d);
            proof {
                assert(2 * ((k / 2) as int) == k as int);
                assert(k as int == cur.len() - 1);
                assert(next_layer(cur).len() == (k / 2) as int + 1);
                assert(next_layer(cur)[(k / 2) as int] == cur[k as int]);
                assert(digests_rep(next@) =~= digests_rep(prevn).push(d@));
                assert(digests_rep(next@) =~= next_layer(cur));
            }
        } else {
            proof {
                assert(k as int == cur.len());
                assert(next_layer(cur).len() == (k / 2) as int);
                assert(digests_rep(next@) =~= next_layer(cur));
            }
        }
        layer = next;
        proof {
            assert(reduce_root(cur) == reduce_root(next_layer(cur)));
        }
    }
    proof {
        assert(digests_rep(layer@).len() == 1);
        assert(reduce_root(digests_rep(layer@)) == digests_rep(layer@)[0]);
    }
    let r = clone_bytes(&layer[0]);
    r
}

/// The view of a vector of digest vectors.
pub open spec fn digests_rep(s: Seq<Vec<u8>>) -> Seq<Seq<u8>> {
    s.map_values(|v: Vec<u8>| v@)
}

/// The digest a root set associates with an id: the first pair that carries
/// the id, if any.
pub open spec fn lookup(ps: Seq<(Seq<u8>, Seq<u8>)>, id: Seq<u8>) -> Option<Seq<u8>>
    decreases ps.len(),
{
    if ps.len() == 0 {
        None
    } else if ps[0].0 == id {
        Some(ps[0].1)
    } else {
        lookup(ps.drop_first(), id)
    }
}

/// An id goes to the "send" side of `diff_roots(local, remote)`: the local
/// side has it and the remote side lacks it or holds a different digest.
/// The "request" side is the same condition with the arguments swapped.
pub open spec fn send_cond(
    local: Seq<(Seq<u8>, Seq<u8>)>,
    remote: Seq<(Seq<u8>, Seq<u8>)>,
    id: Seq<u8>,
) -> bool {
    lookup(local, id) is Some && lookup(remote, id) != lookup(local, id)
}

/// The ids of a sequence of strings, as UTF-8 bytes.
pub open spec fn str_ids(s: Seq<String>) -> Seq<Seq<u8>> {
    s.map_values(|x: String| encode_utf8(x@))
}

/// Strictly ascending in byte-wise order.
pub open spec fn strictly_ascending(s: Seq<Seq<u8>>) -> bool {
    forall|i: int, j: int| 0 <= i < j < s.len() ==> bytes_lt(s[i], s[j])
}

proof fn lemma_lookup_skip(ps: Seq<(Seq<u8>, Seq<u8>)>, i: int, id: Seq<u8>)
    requires
        0 <= i <= ps.len(),
        forall|j: int| 0 <= j < i ==> ps[j].0 != id,
    ensures
        lookup(ps, id) == lookup(ps.skip(i), id),
    decreases i,
{
    if i > 0 {
        assert(ps.drop_first().skip(i - 1) =~= ps.skip(i));
        assert forall|j: int| 0 <= j < i - 1 implies ps.drop_first()[j].0 != id by {
            assert(ps.drop_first()[j] == ps[j + 1]);
        }
        lemma_lookup_skip(ps.drop_first(), i - 1, id);
    } else {
        assert(ps.skip(0) =~= ps);
    }
}

/// With pairwise distinct ids, a lookup result is exactly a membership fact.
proof fn lemma_lookup_iff_contains(ps: Seq<(Seq<u8>, Seq<u8>)>, id: Seq<u8>, h: Seq<u8>)
    requires
        distinct_ids(ps),
    ensures
        lookup(ps, id) == Some(h) <==> ps.contains((id, h)),
    decreases ps.len(),
{
    if ps.len() > 0 {
        assert(distinct_ids(ps.drop_first())) by {
            assert forall|i: int, j: int|
                0 <= i < j < ps.drop_first().len() implies ps.drop_first()[i].0
                != ps.drop_first()[j].0 by {
                assert(ps.drop_first()[i] == ps[i + 1]);
                assert(ps.drop_first()[j] == ps[j + 1]);
            }
        }
        lemma_lookup_iff_contains(ps.drop_first(), id, h);
        if ps[0].0 == id {
            if ps[0].1 == h {
                assert(ps[0] == (id, h));
                assert(ps.contains((id, h)));
            } else {
                if ps.contains((id, h)) {
                    let w = choose|w: int| 0 <= w < ps.len() && ps[w] == (id, h);
                    assert(w > 0);
                    assert(ps[0].0 == ps[w].0);
                    assert(false);
                }
            }
        } else {
            if ps.contains((id, h)) {
                let w = choose|w: int| 0 <= w < ps.len() && ps[w] == (id, h);
                assert(w > 0);
                assert(ps.drop_first()[w - 1] == ps[w]);
                assert(ps.drop_first().contains((id, h)));
            }
            if ps.drop_first().contains((id, h)) {
                let w = choose|w: int| 0 <= w < ps.drop_first().len() && ps.drop_first()[w] == (
                    id,
                    h,
                );
                assert(ps[w + 1] == (id, h));
                assert(ps.contains((id, h)));
            }
        }
    }
}

/// Lookups agree on any two arrangements of the same distinct-id pair set.
pub proof fn lemma_lookup_permutation(
    a: Seq<(Seq<u8>, Seq<u8>)>,
    b: Seq<(Seq<u8>, Seq<u8>)>,
    id: Seq<u8>,
)
    requires
        a.to_multiset() == b.to_multiset(),
        distinct_ids(a),
        distinct_ids(b),
    ensures
        lookup(a, id) == lookup(b, id),
{
    broadcast use vstd::seq_lib::group_to_multiset_ensures;

    if lookup(a, id) is Some {
        let h = lookup(a, id)->Some_0;
        lemma_lookup_iff_contains(a, id, h);
        lemma_lookup_iff_contains(b, id, h);
        assert(a.contains((id, h)));
        assert(a.to_multiset().contains((id, h)));
        assert(b.contains((id, h)));
    } else if lookup(b, id) is Some {
        let h = lookup(b, id)->Some_0;
        lemma_lookup_iff_contains(a, id, h);
        lemma_lookup_iff_contains(b, id, h);
        assert(b.contains((id, h)));
        assert(b.to_multiset().contains((id, h)));
        assert(a.contains((id, h)));
    }
}

/// Two strictly ascending sequences with the same members are equal.
pub proof fn lemma_strictly_ascending_same_members(x: Seq<Seq<u8>>, y: Seq<Seq<u8>>)
    requires
        strictly_ascending(x),
        strictly_ascending(y),
        forall|id: Seq<u8>| x.contains(id) <==> y.contains(id),
    ensures
        x == y,
    decreases x.len(),
{
    if x.len() == 0 {
        if y.len() > 0 {
            assert(y.contains(y[0]));
            assert(x.contains(y[0]));
        }
        assert(x =~= y);
    } else if y.len() == 0 {
        assert(x.contains(x[0]));
        assert(y.contains(x[0]));
    } else {
        assert(x.contains(x[0]));
        assert(y.contains(y[0]));
        assert(y.contains(x[0]));
        assert(x.contains(y[0]));
        let i = choose|i: int| 0 <= i < x.len() && x[i] == y[0];
        let j = choose|j: int| 0 <= j < y.len() && y[j] == x[0];
        if x[0] != y[0] {
            assert(i > 0 || j > 0);
            if i > 0 {
                assert(bytes_lt(x[0], x[i]));
                assert(j > 0) by {
                    if j == 0 {
                        lemma_bytes_lt_irreflexive(x[0]);
                    }
                }
                assert(bytes_lt(y[0], y[j]));
                lemma_bytes_lt_transitive(x[0], y[0], x[0]);
                lemma_bytes_lt_irreflexive(x[0]);
            } else {
                assert(j > 0);
                assert(bytes_lt(y[0], y[j]));
                lemma_bytes_lt_irreflexive(y[0]);
            }
        }
        assert(x[0] == y[0]);
        let xt = x.drop_first();
        let yt = y.drop_first();
        assert forall|id: Seq<u8>| xt.contains(id) <==> yt.contains(id) by {
            lemma_tail_membership(x, id);
            lemma_tail_membership(y, id);
        }
        lemma_strictly_ascending_same_members(xt, yt);
        assert(x =~= y) by {
            assert forall|k: int| 0 <= k < x.len() implies x[k] == y[k] by {
                if k > 0 {
                    assert(xt[k - 1] == x[k]);
                    assert(yt[k - 1] == y[k]);
                }
            }
        }
    }
}

proof fn lemma_tail_membership(x: Seq<Seq<u8>>, id: Seq<u8>)
    requires
        strictly_ascending(x),
        x.len() > 0,
    ensures
        x.drop_first().contains(id) <==> (x.contains(id) && id != x[0]),
{
    let xt = x.drop_first();
    if xt.contains(id) {
        let w = choose|w: int| 0 <= w < xt.len() && xt[w] == id;
        assert(xt[w] == x[w + 1]);
        assert(x.contains(id));
        assert(bytes_lt(x[0], x[w + 1]));
        if id == x[0] {
            lemma_bytes_lt_irreflexive(x[0]);
        }
    }
    if x.contains(id) && id != x[0] {
        let w = choose|w: int| 0 <= w < x.len() && x[w] == id;
        assert(w > 0);
        assert(xt[w - 1] == x[w]);
        assert(xt.contains(id));
    }
}

/// The diff of two diffs mirrors: what one side would send is exactly what
/// the other side would request, and the other way round.
pub proof fn lemma_diff_symmetry(
    local: Seq<(Seq<u8>, Seq<u8>)>,
    remote: Seq<(Seq<u8>, Seq<u8>)>,
    send_ab: Seq<Seq<u8>>,
    req_ab: Seq<Seq<u8>>,
    send_ba: Seq<Seq<u8>>,
    req_ba: Seq<Seq<u8>>,
)
    requires
        strictly_ascending(send_ab),
        strictly_ascending(req_ab),
        strictly_ascending(send_ba),
        strictly_ascending(req_ba),
        forall|id: Seq<u8>| send_ab.contains(id) <==> send_cond(local, remote, id),
        forall|id: Seq<u8>| req_ab.contains(id) <==> send_cond(remote, local, id),
        forall|id: Seq<u8>| send_ba.contains(id) <==> send_cond(remote, local, id),
        forall|id: Seq<u8>| req_ba.contains(id) <==> send_cond(local, remote, id),
    ensures
        send_ab == req_ba,
        req_ab == send_ba,
{
    lemma_strictly_ascending_same_members(send_ab, req_ba);
    lemma_strictly_ascending_same_members(req_ab, send_ba);
}

/// Finds the digest a root list holds for `id`, scanning in order.
fn find_digest<'a>(ps: &'a [(String, Vec<u8>)], id: &String) -> (r: Option<&'a Vec<u8>>)
    ensures
        r matches Some(h) ==> lookup(pairs_rep(ps@), encode_utf8(id@)) == Some(h@),
        r is None ==> lookup(pairs_rep(ps@), encode_utf8(id@)) is None,
{
    let ghost reps = pairs_rep(ps@);
    let ghost idb = encode_utf8(id@);
    let idb_exec = id.as_str().as_bytes();
    let mut i: usize = 0;
    while i < ps.len()
        invariant
            i <= ps@.len(),
            reps == pairs_rep(ps@),
            idb == encode_utf8(id@),
            idb == idb_exec@,
            forall|j: int| 0 <= j < i ==> reps[j].0 != idb,
        decreases ps@.len() - i,
    {
        if bytes_eq_exec(ps[i].0.as_str().as_bytes(), idb_exec) {
            proof {
                lemma_lookup_skip(reps, i as int, idb);
                assert(reps.skip(i as int)[0] == reps[i as int]);
                assert(lookup(reps.skip(i as int), idb) == Some(reps[i as int].1));
            }
            return Some(&ps[i].1);
        }
        i = i + 1;
    }
    proof {
        lemma_lookup_skip(reps, ps@.len() as int, idb);
        assert(reps.skip(reps.len() as int).len() == 0);
    }
    None
}

/// Given local and remote root sets, return `(to_send, to_request)`:
/// `to_send` holds the ids the remote is missing or holds differently,
/// `to_request` the ids the local side is missing or holds differently.
/// Both outputs are strictly ascending in byte-wise id order.
pub fn diff_roots(local: &[(String, Vec<u8>)], remote: &[(String, Vec<u8>)]) -> (r: (
    Vec<String>,
    Vec<String>,
))
    requires
        distinct_ids(pairs_rep(local@)),
        distinct_ids(pairs_rep(remote@)),
    ensures
        strictly_ascending(str_ids(r.0@)),
        strictly_ascending(str_ids(r.1@)),
        forall|id: Seq<u8>|
            str_ids(r.0@).contains(id) <==> send_cond(pairs_rep(local@), pairs_rep(remote@), id),
        forall|id: Seq<u8>|
            str_ids(r.1@).contains(id) <==> send_cond(pairs_rep(remote@), pairs_rep(local@), id),
{
    let to_send = diff_one_side(local, remote);
    let to_request = diff_one_side(remote, local);
    (to_send, to_request)
}

/// One direction of the diff: the ids of `mine` whose digest the other side
/// lacks or holds differently, strictly ascending.
fn diff_one_side(mine: &[(String, Vec<u8>)], other: &[(String, Vec<u8>)]) -> (r: Vec<String>)
    requires
        distinct_ids(pairs_rep(mine@)),
        distinct_ids(pairs_rep(other@)),
    ensures
        strictly_ascending(str_ids(r@)),
        forall|id: Seq<u8>|
            str_ids(r@).contains(id) <==> send_cond(pairs_rep(mine@), pairs_rep(other@), id),
{
    broadcast use vstd::seq_lib::group_to_multiset_ensures;

    let mut owned: Vec<(String, Vec<u8>)> = Vec::new();
    let mut i: usize = 0;
    while i < mine.len()
        invariant
            i <= mine@.len(),
            pairs_rep(owned@) =~= pairs_rep(mine@).take(i as int),
        decreases mine@.len() - i,
    {
        let p = clone_pair(&mine[i]);
        let ghost prev = owned@;
        owned.push(p);
        proof {
            assert(pairs_rep(owned@) =~= pairs_rep(prev).push(pair_rep(p)));
            assert(pairs_rep(mine@).take(i + 1) =~= pairs_rep(mine@).take(i as int).push(
                pairs_rep(mine@)[i as int],
            ));
        }
        i = i + 1;
    }
    proof {
        assert(pairs_rep(owned@) =~= pairs_rep(mine@));
    }
    let sorted = sort_pairs(owned);
    let ghost sreps = pairs_rep(sorted@);
    let ghost mreps = pairs_rep(mine@);
    let ghost oreps = pairs_rep(other@);
    proof {
        assert(distinct_ids(sreps)) by {
            lemma_distinct_ids_permutation(mreps, sreps);
        }
    }
    let mut out: Vec<String> = Vec::new();
    let mut k: usize = 0;
    while k < sorted.len()
        invariant
            k <= sorted@.len(),
            sreps == pairs_rep(sorted@),
            mreps == pairs_rep(mine@),
            oreps == pairs_rep(other@),
            distinct_ids(sreps),
            distinct_ids(mreps),
            distinct_ids(oreps),
            sreps.to_multiset() == mreps.to_multiset(),
            vstd::relations::sorted_by(sreps, le_pair_fn()),
            forall|id: Seq<u8>|
                str_ids(out@).contains(id) <==> exists|j: int|
                    0 <= j < k && #[trigger] sreps[j].0 == id && send_cond(mreps, oreps, id),
            forall|t: int|
                0 <= t < out@.len() ==> exists|j: int|
                    0 <= j < k && #[trigger] str_ids(out@)[t] == sreps[j].0,
            strictly_ascending(str_ids(out@)),
        decreases sorted@.len() - k,
    {
        let ghost idb = sreps[k as int].0;
        let keep: bool;
        match find_digest(other, &sorted[k].0) {
            None => {
                keep = true;
            },
            Some(h) => {
                keep = !bytes_eq_exec(h.as_slice(), sorted[k].1.as_slice());
            },
        }
        proof {
            lemma_lookup_permutation(mreps, sreps, idb);
            lemma_lookup_iff_contains(sreps, idb, sreps[k as int].1);
            assert(sreps.contains((idb, sreps[k as int].1))) by {
                assert(sreps[k as int] == (idb, sreps[k as int].1));
            }
            assert(lookup(sreps, idb) == Some(sreps[k as int].1));
            assert(lookup(mreps, idb) == Some(sreps[k as int].1));
            assert(keep == send_cond(mreps, oreps, idb));
        }
        let ghost prev_out = out@;
        if keep {
            out.push(sorted[k].0.clone());
            proof {
                assert(str_ids(out@) =~= str_ids(prev_out).push(idb));
                assert forall|t: int, u: int|
                    0 <= t < u < str_ids(out@).len() implies bytes_lt(
                    str_ids(out@)[t],
                    str_ids(out@)[u],
                ) by {
                    if u < prev_out.len() {
                        assert(bytes_lt(str_ids(prev_out)[t], str_ids(prev_out)[u]));
                    } else {
                        let j = choose|j: int|
                            0 <= j < k && #[trigger] str_ids(prev_out)[t] == sreps[j].0;
                        assert(le_pair_fn()(sreps[j], sreps[k as int]));
                        assert(le_pair(sreps[j], sreps[k as int]));
                        assert(sreps[j].0 != sreps[k as int].0);
                        assert(bytes_lt(sreps[j].0, idb));
                    }
                }
            }
        }
        proof {
            assert forall|id: Seq<u8>|
                str_ids(out@).contains(id) <==> exists|j: int|
                    0 <= j < k + 1 && #[trigger] sreps[j].0 == id && send_cond(
                        mreps,
                        oreps,
                        id,
                    ) by {
                if str_ids(out@).contains(id) {
                    let t = choose|t: int| 0 <= t < str_ids(out@).len() && str_ids(out@)[t] == id;
                    if t < prev_out.len() {
                        assert(str_ids(prev_out)[t] == id);
                        assert(str_ids(prev_out).contains(id));
                    } else {
                        assert(id == idb);
                        assert(sreps[k as int].0 == id);
                    }
                }
                if exists|j: int|
                    0 <= j < k + 1 && #[trigger] sreps[j].0 == id && send_cond(mreps, oreps, id) {
                    let j = choose|j: int|
                        0 <= j < k + 1 && #[trigger] sreps[j].0 == id && send_cond(
                            mreps,
                            oreps,
                            id,
                        );
                    if j < k {
                        assert(str_ids(prev_out).contains(id));
                        let t = choose|t: int|
                            0 <= t < str_ids(prev_out).len() && str_ids(prev_out)[t] == id;
                        assert(str_ids(out@)[t] == id);
                        assert(str_ids(out@).contains(id));
                    } else {
                        assert(id == idb);
                        assert(keep);
                        assert(str_ids(out@)[out@.len() - 1] == id);
                        assert(str_ids(out@).contains(id));
                    }
                }
            }
            assert forall|t: int| 0 <= t < out@.len() implies exists|j: int|
                0 <= j < k + 1 && #[trigger] str_ids(out@)[t] == sreps[j].0 by {
                if t < prev_out.len() {
                    let j = choose|j: int|
                        0 <= j < k && #[trigger] str_ids(prev_out)[t] == sreps[j].0;
                    assert(str_ids(out@)[t] == sreps[j].0);
                } else {
                    assert(str_ids(out@)[t] == sreps[k as int].0);
                }
            }
        }
        k = k + 1;
    }
    proof {
        assert forall|id: Seq<u8>|
            str_ids(out@).contains(id) <==> send_cond(mreps, oreps, id) by {
            if send_cond(mreps, oreps, id) {
                let h = lookup(mreps, id)->Some_0;
                lemma_lookup_iff_contains(mreps, id, h);
                assert(mreps.contains((id, h)));
                assert(mreps.to_multiset().contains((id, h)));
                assert(sreps.contains((id, h)));
                let j = choose|j: int| 0 <= j < sreps.len() && sreps[j] == (id, h);
                assert(sreps[j].0 == id);
            }
        }
    }
    out
}

proof fn lemma_dup_indices_count<T>(s: Seq<T>, i: int, j: int)
    requires
        0 <= i < j < s.len(),
        s[i] == s[j],
    ensures
        s.to_multiset().count(s[i]) >= 2,
{
    broadcast use vstd::seq_lib::group_to_multiset_ensures;
    broadcast use vstd::multiset::group_multiset_axioms;

    let t = s.remove(j);
    assert(t.to_multiset() == s.to_multiset().remove(s[j]));
    assert(t[i] == s[i]);
    assert(t.contains(s[i])) by {
        assert(t[i] == s[i]);
    }
    assert(t.to_multiset().count(s[i]) >= 1);
}

proof fn lemma_count_two_indices<T>(s: Seq<T>, x: T) -> (r: (int, int))
    requires
        s.to_multiset().count(x) >= 2,
    ensures
        0 <= r.0 < r.1 < s.len(),
        s[r.0] == x,
        s[r.1] == x,
{
    broadcast use vstd::seq_lib::group_to_multiset_ensures;
    broadcast use vstd::multiset::group_multiset_axioms;

    assert(s.to_multiset().contains(x));
    assert(s.contains(x));
    let w1 = choose|w: int| 0 <= w < s.len() && s[w] == x;
    let t = s.remove(w1);
    assert(t.to_multiset() == s.to_multiset().remove(x));
    assert(t.to_multiset().count(x) >= 1);
    assert(t.contains(x));
    let w2 = choose|w: int| 0 <= w < t.len() && t[w] == x;
    if w2 < w1 {
        assert(t[w2] == s[w2]);
        (w2, w1)
    } else {
        assert(t[w2] == s[w2 + 1]);
        (w1, w2 + 1)
    }
}

/// Pairwise distinct ids survive any rearrangement of the pairs.
proof fn lemma_distinct_ids_permutation(a: Seq<(Seq<u8>, Seq<u8>)>, b: Seq<(Seq<u8>, Seq<u8>)>)
    requires
        distinct_ids(a),
        a.to_multiset() == b.to_multiset(),
    ensures
        distinct_ids(b),
{
    broadcast use vstd::seq_lib::group_to_multiset_ensures;
    broadcast use vstd::multiset::group_multiset_axioms;

    assert forall|i: int, j: int| 0 <= i < j < b.len() implies b[i].0 != b[j].0 by {
        if b[i].0 == b[j].0 {
            if b[i] == b[j] {
                lemma_dup_indices_count(b, i, j);
                let (w1, w2) = lemma_count_two_indices(a, b[i]);
                assert(a[w1].0 == a[w2].0);
            } else {
                assert(b.contains(b[i])) by {
                    assert(b[i] == b[i]);
                }
                assert(b.contains(b[j])) by {
                    assert(b[j] == b[j]);
                }
                vstd::seq_lib::to_multiset_contains(b, b[i]);
                vstd::seq_lib::to_multiset_contains(b, b[j]);
                vstd::seq_lib::to_multiset_contains(a, b[i]);
                vstd::seq_lib::to_multiset_contains(a, b[j]);
                assert(a.contains(b[i]));
                assert(a.contains(b[j]));
                let w1 = choose|w: int| 0 <= w < a.len() && a[w] == b[i];
                let w2 = choose|w: int| 0 <= w < a.len() && a[w] == b[j];
                assert(w1 != w2);
                assert(a[w1].0 == a[w2].0);
            }
        }
    }
}

} // verus!
