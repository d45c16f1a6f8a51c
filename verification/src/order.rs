//! Byte-wise lexicographic order on byte strings, the induced order on
//! `(id, digest)` pairs, and a verified sort. Document ids are compared by
//! the bytes of their UTF-8 encodings, which is also how the storage engine
//! orders its string keys.

use vstd::prelude::*;
use vstd::relations::{sorted_by, total_ordering};
use vstd::utf8::encode_utf8;

verus! {

/// Strict byte-wise lexicographic order: `a` comes before `b`.
pub open spec fn bytes_lt(a: Seq<u8>, b: Seq<u8>) -> bool
    decreases a.len(),
{
    if b.len() == 0 {
        false
    } else if a.len() == 0 {
        true
    } else if a[0] < b[0] {
        true
    } else if a[0] > b[0] {
        false
    } else {
        bytes_lt(a.drop_first(), b.drop_first())
    }
}

/// Reflexive closure of `bytes_lt`.
pub open spec fn bytes_le(a: Seq<u8>, b: Seq<u8>) -> bool {
    bytes_lt(a, b) || a == b
}

pub proof fn lemma_bytes_lt_irreflexive(a: Seq<u8>)
    ensures
        !bytes_lt(a, a),
    decreases a.len(),
{
    if a.len() > 0 {
        lemma_bytes_lt_irreflexive(a.drop_first());
    }
}

pub proof fn lemma_bytes_lt_asymmetric(a: Seq<u8>, b: Seq<u8>)
    requires
        bytes_lt(a, b),
    ensures
        !bytes_lt(b, a),
    decreases a.len(),
{
    if a.len() > 0 && b.len() > 0 && a[0] == b[0] {
        lemma_bytes_lt_asymmetric(a.drop_first(), b.drop_first());
    }
}

pub proof fn lemma_bytes_lt_connected(a: Seq<u8>, b: Seq<u8>)
    requires
        a != b,
    ensures
        bytes_lt(a, b) || bytes_lt(b, a),
    decreases a.len(),
{
    if a.len() == 0 {
        if b.len() == 0 {
            assert(a =~= b);
        }
    } else if b.len() == 0 {
    } else if a[0] == b[0] {
        if a.drop_first() == b.drop_first() {
            assert(a.drop_first().len() == a.len() - 1);
            assert(b.drop_first().len() == b.len() - 1);
            assert(a.len() == b.len());
            assert forall|i: int| 0 <= i < a.len() implies a[i] == b[i] by {
                if i > 0 {
                    assert(a.drop_first()[i - 1] == a[i]);
                    assert(b.drop_first()[i - 1] == b[i]);
                }
            }
            assert(a =~= b);
        } else {
            lemma_bytes_lt_connected(a.drop_first(), b.drop_first());
        }
    }
}

pub proof fn lemma_bytes_lt_transitive(a: Seq<u8>, b: Seq<u8>, c: Seq<u8>)
    requires
        bytes_lt(a, b),
        bytes_lt(b, c),
    ensures
        bytes_lt(a, c),
    decreases a.len(),
{
    if a.len() > 0 && b.len() > 0 && c.len() > 0 && a[0] == b[0] && b[0] == c[0] {
        lemma_bytes_lt_transitive(a.drop_first(), b.drop_first(), c.drop_first());
    }
}

/// The order on `(id bytes, digest bytes)` pairs used to canonicalise root
/// sets: by id first, then by digest.
pub open spec fn le_pair(a: (Seq<u8>, Seq<u8>), b: (Seq<u8>, Seq<u8>)) -> bool {
    bytes_lt(a.0, b.0) || (a.0 == b.0 && bytes_le(a.1, b.1))
}

pub open spec fn le_pair_fn() -> spec_fn((Seq<u8>, Seq<u8>), (Seq<u8>, Seq<u8>)) -> bool {
    |a: (Seq<u8>, Seq<u8>), b: (Seq<u8>, Seq<u8>)| le_pair(a, b)
}

pub proof fn lemma_le_pair_total_ordering()
    ensures
        total_ordering(le_pair_fn()),
{
    let leq = le_pair_fn();
    assert forall|a: (Seq<u8>, Seq<u8>), b: (Seq<u8>, Seq<u8>)| #[trigger] leq(a, b) && #[trigger] leq(
        b,
        a,
    ) implies a == b by {
        lemma_bytes_lt_irreflexive(a.0);
        lemma_bytes_lt_irreflexive(a.1);
        if a.0 != b.0 {
            if bytes_lt(a.0, b.0) {
                lemma_bytes_lt_asymmetric(a.0, b.0);
            }
            assert(false);
        } else if a.1 != b.1 {
            if bytes_lt(a.1, b.1) {
                lemma_bytes_lt_asymmetric(a.1, b.1);
            }
            assert(false);
        } else {
            assert(a == (a.0, a.1));
            assert(b == (b.0, b.1));
        }
    }
    assert forall|a: (Seq<u8>, Seq<u8>), b: (Seq<u8>, Seq<u8>), c: (Seq<u8>, Seq<u8>)|
        #[trigger] leq(a, b) && #[trigger] leq(b, c) implies leq(a, c) by {
        if bytes_lt(a.0, b.0) && bytes_lt(b.0, c.0) {
            lemma_bytes_lt_transitive(a.0, b.0, c.0);
        }
        if a.0 == b.0 && b.0 == c.0 && bytes_lt(a.1, b.1) && bytes_lt(b.1, c.1) {
            lemma_bytes_lt_transitive(a.1, b.1, c.1);
        }
    }
    assert forall|a: (Seq<u8>, Seq<u8>), b: (Seq<u8>, Seq<u8>)| #[trigger] leq(a, b) || #[trigger] leq(
        b,
        a,
    ) by {
        if a.0 != b.0 {
            lemma_bytes_lt_connected(a.0, b.0);
        } else if a.1 != b.1 {
            lemma_bytes_lt_connected(a.1, b.1);
        }
    }
}

/// The mathematical content of an `(id, digest)` pair: the id's UTF-8 bytes
/// and the digest bytes.
pub open spec fn pair_rep(p: (String, Vec<u8>)) -> (Seq<u8>, Seq<u8>) {
    (encode_utf8(p.0@), p.1@)
}

pub open spec fn pairs_rep(s: Seq<(String, Vec<u8>)>) -> Seq<(Seq<u8>, Seq<u8>)> {
    s.map_values(|p: (String, Vec<u8>)| pair_rep(p))
}

/// The ids of a represented pair sequence.
pub open spec fn ids_rep(ps: Seq<(Seq<u8>, Seq<u8>)>) -> Seq<Seq<u8>> {
    ps.map_values(|p: (Seq<u8>, Seq<u8>)| p.0)
}

/// All ids in the represented pair sequence differ pairwise.
pub open spec fn distinct_ids(ps: Seq<(Seq<u8>, Seq<u8>)>) -> bool {
    forall|i: int, j: int| 0 <= i < j < ps.len() ==> ps[i].0 != ps[j].0
}

/// Strict byte-wise comparison of two byte slices.
pub fn bytes_lt_exec(a: &[u8], b: &[u8]) -> (r: bool)
    ensures
        r == bytes_lt(a@, b@),
{
    let n: usize = if a.len() < b.len() {
        a.len()
    } else {
        b.len()
    };
    proof {
        assert(a@.skip(0) =~= a@);
        assert(b@.skip(0) =~= b@);
    }
    let mut i: usize = 0;
    while i < n
        invariant
            i <= n,
            n <= a@.len(),
            n <= b@.len(),
            n == a@.len() || n == b@.len(),
            bytes_lt(a@, b@) == bytes_lt(a@.skip(i as int), b@.skip(i as int)),
        decreases n - i,
    {
        let x = a[i];
        let y = b[i];
        proof {
            assert(a@.skip(i as int)[0] == a@[i as int]);
            assert(b@.skip(i as int)[0] == b@[i as int]);
            assert(a@.skip(i as int).drop_first() =~= a@.skip(i + 1));
            assert(b@.skip(i as int).drop_first() =~= b@.skip(i + 1));
        }
        if x < y {
            return true;
        }
        if x > y {
            return false;
        }
        i = i + 1;
    }
    if a.len() <= b.len() {
        proof {
            assert(a@.skip(i as int).len() == 0);
        }
    } else {
        proof {
            assert(b@.skip(i as int).len() == 0);
        }
    }
    a.len() < b.len()
}

/// Byte-wise equality of two byte slices.
pub fn bytes_eq_exec(a: &[u8], b: &[u8]) -> (r: bool)
    ensures
        r == (a@ == b@),
{
    if a.len() != b.len() {
        return false;
    }
    let mut i: usize = 0;
    while i < a.len()
        invariant
            i <= a@.len(),
            a@.len() == b@.len(),
            forall|j: int| 0 <= j < i ==> a@[j] == b@[j],
        decreases a@.len() - i,
    {
        if a[i] != b[i] {
            return false;
        }
        i = i + 1;
    }
    proof {
        assert(a@ =~= b@);
    }
    true
}

proof fn lemma_bytes_not_lt_either_way(a: Seq<u8>, b: Seq<u8>)
    requires
        !bytes_lt(a, b),
        !bytes_lt(b, a),
    ensures
        a == b,
{
    if a != b {
        lemma_bytes_lt_connected(a, b);
    }
}

/// `le_pair` on two concrete pairs.
pub fn pair_le_exec(a: &(String, Vec<u8>), b: &(String, Vec<u8>)) -> (r: bool)
    ensures
        r == le_pair(pair_rep(*a), pair_rep(*b)),
{
    let ab = a.0.as_str().as_bytes();
    let bb = b.0.as_str().as_bytes();
    if bytes_lt_exec(ab, bb) {
        return true;
    }
    if bytes_lt_exec(bb, ab) {
        return false;
    }
    proof {
        lemma_bytes_not_lt_either_way(ab@, bb@);
    }
    let r = !bytes_lt_exec(b.1.as_slice(), a.1.as_slice());
    proof {
        if r {
            lemma_bytes_not_lt_either_way_or_lt(a.1@, b.1@);
        } else {
            lemma_bytes_lt_asymmetric(b.1@, a.1@);
            lemma_bytes_lt_irreflexive(a.1@);
        }
    }
    r
}

proof fn lemma_bytes_not_lt_either_way_or_lt(a: Seq<u8>, b: Seq<u8>)
    requires
        !bytes_lt(b, a),
    ensures
        bytes_le(a, b),
{
    if a != b {
        lemma_bytes_lt_connected(a, b);
    }
}

/// Sorts the pairs into the canonical order: ascending by id bytes, and by
/// digest bytes between equal ids. What comes out is a permutation of what
/// went in.
pub fn sort_pairs(v: Vec<(String, Vec<u8>)>) -> (r: Vec<(String, Vec<u8>)>)
    ensures
        pairs_rep(r@).to_multiset() == pairs_rep(v@).to_multiset(),
        sorted_by(pairs_rep(r@), le_pair_fn()),
        r@.len() == v@.len(),
{
    broadcast use vstd::seq_lib::group_to_multiset_ensures;
    broadcast use vstd::multiset::group_multiset_axioms;

    let ghost total = pairs_rep(v@).to_multiset();
    let ghost n = v@.len();
    let mut rest = v;
    let mut out: Vec<(String, Vec<u8>)> = Vec::new();
    proof {
        assert(pairs_rep(out@) =~= Seq::<(Seq<u8>, Seq<u8>)>::empty());
        assert(pairs_rep(out@).to_multiset().add(pairs_rep(rest@).to_multiset()) =~= total);
    }
    while rest.len() > 0
        invariant
            pairs_rep(out@).to_multiset().add(pairs_rep(rest@).to_multiset()) == total,
            sorted_by(pairs_rep(out@), le_pair_fn()),
            forall|i: int, j: int|
                0 <= i < out@.len() && 0 <= j < rest@.len() ==> le_pair(
                    #[trigger] pairs_rep(out@)[i],
                    #[trigger] pairs_rep(rest@)[j],
                ),
            out@.len() + rest@.len() == n,
        decreases rest@.len(),
    {
        let mut m: usize = 0;
        let mut k: usize = 1;
        while k < rest.len()
            invariant
                m < rest@.len(),
                1 <= k <= rest@.len(),
                rest@.len() > 0,
                forall|j: int|
                    0 <= j < k ==> le_pair(
                        pairs_rep(rest@)[m as int],
                        #[trigger] pairs_rep(rest@)[j],
                    ),
            decreases rest@.len() - k,
        {
            let takes_over = !pair_le_exec(&rest[m], &rest[k]);
            proof {
                lemma_le_pair_total_ordering();
                let reps = pairs_rep(rest@);
                let leq = le_pair_fn();
                if takes_over {
                    assert(leq(reps[m as int], reps[k as int]) || leq(
                        reps[k as int],
                        reps[m as int],
                    ));
                    assert(le_pair(reps[k as int], reps[m as int]));
                    assert forall|j: int| 0 <= j < k + 1 implies le_pair(
                        reps[k as int],
                        #[trigger] reps[j],
                    ) by {
                        if j < k {
                            assert(le_pair(reps[m as int], reps[j]));
                            assert(leq(reps[k as int], reps[m as int]) && leq(
                                reps[m as int],
                                reps[j],
                            ));
                        }
                    }
                } else {
                    assert forall|j: int| 0 <= j < k + 1 implies le_pair(
                        reps[m as int],
                        #[trigger] reps[j],
                    ) by {
                    }
                }
            }
            if takes_over {
                m = k;
            }
            k = k + 1;
        }
        let ghost old_rest = rest@;
        let ghost old_out = out@;
        let x = rest.remove(m);
        out.push(x);
        proof {
            let rx = pair_rep(x);
            let old_reps = pairs_rep(old_rest);
            assert(pairs_rep(rest@) =~= old_reps.remove(m as int));
            assert(pairs_rep(out@) =~= pairs_rep(old_out).push(rx));
            assert(old_reps[m as int] == rx);
            assert(old_reps.contains(rx)) by {
                assert(old_reps[m as int] == rx);
            }
            vstd::seq_lib::to_multiset_contains(old_reps, rx);
            assert(old_reps.to_multiset().contains(rx));
            vstd::seq_lib::to_multiset_build(pairs_rep(old_out), rx);
            vstd::seq_lib::to_multiset_remove(old_reps, m as int);
            assert(pairs_rep(out@).to_multiset() == pairs_rep(old_out).to_multiset().insert(rx));
            assert(pairs_rep(rest@).to_multiset() == old_reps.to_multiset().remove(rx));
            assert(pairs_rep(out@).to_multiset().add(pairs_rep(rest@).to_multiset()) =~= total);
            // the minimum taken out is above everything already placed and
            // below everything left behind
            assert forall|i: int, j: int|
                0 <= i < out@.len() && 0 <= j < rest@.len() implies le_pair(
                #[trigger] pairs_rep(out@)[i],
                #[trigger] pairs_rep(rest@)[j],
            ) by {
                let jj: int = if j < m { j } else {
                    j + 1
                };
                assert(pairs_rep(rest@)[j] == old_reps[jj]);
                if i < old_out.len() {
                    assert(pairs_rep(out@)[i] == pairs_rep(old_out)[i]);
                    assert(le_pair(pairs_rep(old_out)[i], old_reps[jj]));
                } else {
                    assert(pairs_rep(out@)[i] == rx);
                    assert(le_pair(old_reps[m as int], old_reps[jj]));
                }
            }
            assert forall|i: int, j: int| 0 <= i < j < out@.len() implies le_pair_fn()(
                pairs_rep(out@)[i],
                pairs_rep(out@)[j],
            ) by {
                if j < old_out.len() {
                    assert(sorted_by(pairs_rep(old_out), le_pair_fn()));
                    assert(le_pair_fn()(pairs_rep(old_out)[i], pairs_rep(old_out)[j]));
                } else {
                    assert(pairs_rep(out@)[j] == rx);
                    assert(le_pair(pairs_rep(old_out)[i], old_reps[m as int]));
                }
            }
        }
    }
    proof {
        assert(pairs_rep(rest@).to_multiset().len() == pairs_rep(rest@).len());
        assert(pairs_rep(out@).to_multiset().add(pairs_rep(rest@).to_multiset())
            =~= pairs_rep(out@).to_multiset());
    }
    out
}

} // verus!
