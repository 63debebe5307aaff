//! The protocol's guarantees, proved as lemmas over the tree's model.
//!
//! Every statement here is conditional on the standard idealization of a
//! collision-resistant hash: [`digest_injective`] says that no two distinct
//! byte strings share a digest, and [`digest_len_fixed`] that every digest is
//! 32 bytes long. The second is a plain fact of the hash; the first is false
//! in the strict mathematical sense (digests are shorter than their inputs)
//! but is exactly what collision resistance offers: no two colliding inputs
//! are known, and finding one breaks the hash. A law that needs either
//! hypothesis states it in its `requires`.

use vstd::prelude::*;

use crate::digest::{combine, digest_of, element_digest};
use crate::tree::{
    ascend, child_of, default_chain, default_store, entry_ok, lemma_walk_sibs_count,
    lemma_walk_sibs_len, sibling_of, store_after, store_ca, walk_leaf, walk_ok, walk_sibs,
};

verus! {

/// Every digest is 32 bytes long.
pub open spec fn digest_len_fixed() -> bool {
    forall|b: Seq<u8>| (#[trigger] digest_of(b)).len() == 32
}

/// No two distinct byte strings share a digest: the idealization of
/// collision resistance.
pub open spec fn digest_injective() -> bool {
    forall|a: Seq<u8>, b: Seq<u8>|
        #![trigger digest_of(a), digest_of(b)]
        digest_of(a) == digest_of(b) ==> a == b
}

/// Determinism: a leaf's content hash is a function of its scalar sequence
/// alone — two leaves with the same scalar sequence hash identically.
pub proof fn lemma_hash_deterministic(a: Seq<Seq<u8>>, b: Seq<Seq<u8>>)
    requires
        a == b,
    ensures
        element_digest(a) == element_digest(b),
{
}

/// Splitting a concatenation at a known prefix length is unambiguous.
proof fn lemma_concat_split(a: Seq<u8>, b: Seq<u8>, c: Seq<u8>, d: Seq<u8>)
    requires
        a + b == c + d,
        a.len() == c.len(),
    ensures
        a == c,
        b == d,
{
    assert((a + b).len() == a.len() + b.len());
    assert((c + d).len() == c.len() + d.len());
    assert(b.len() == d.len());
    assert forall|i: int| 0 <= i < a.len() implies a[i] == c[i] by {
        assert((a + b)[i] == a[i]);
        assert((c + d)[i] == c[i]);
    }
    assert(a =~= c);
    assert forall|i: int| 0 <= i < b.len() implies b[i] == d[i] by {
        assert((a + b)[a.len() + i] == b[i]);
        assert((c + d)[c.len() + i] == d[i]);
    }
    assert(b =~= d);
}

/// Under the injectivity hypothesis, equal node digests come from equal
/// child pairs of equal widths.
proof fn lemma_combine_inj(l1: Seq<u8>, r1: Seq<u8>, l2: Seq<u8>, r2: Seq<u8>)
    requires
        digest_injective(),
        combine(l1, r1) == combine(l2, r2),
        l1.len() == l2.len(),
    ensures
        l1 == l2,
        r1 == r2,
{
    assert(l1 + r1 == l2 + r2);
    lemma_concat_split(l1, r1, l2, r2);
}

/// Inserting an entry that agrees with what the store already holds for its
/// key changes no walk.
proof fn lemma_walk_insert(
    m: Map<Seq<u8>, (Seq<u8>, Seq<u8>)>,
    n: Seq<u8>,
    bits: Seq<bool>,
    k: Seq<u8>,
    v: (Seq<u8>, Seq<u8>),
)
    requires
        walk_ok(m, n, bits),
        m.dom().contains(k) ==> m[k] == v,
    ensures
        walk_ok(m.insert(k, v), n, bits),
        walk_sibs(m.insert(k, v), n, bits) == walk_sibs(m, n, bits),
        walk_leaf(m.insert(k, v), n, bits) == walk_leaf(m, n, bits),
    decreases bits.len(),
{
    if bits.len() > 0 {
        let m2 = m.insert(k, v);
        assert(m2[n] == m[n]);
        lemma_walk_insert(m, child_of(m, n, bits.first()), bits.drop_first(), k, v);
        assert(walk_sibs(m2, n, bits) =~= walk_sibs(m, n, bits));
    }
}

/// In a content-addressed store, an entry about to be filed under its own
/// digest agrees with anything already filed there, absent collisions.
proof fn lemma_ca_insert_agrees(
    m: Map<Seq<u8>, (Seq<u8>, Seq<u8>)>,
    k: Seq<u8>,
    l: Seq<u8>,
    r: Seq<u8>,
)
    requires
        digest_injective(),
        store_ca(m),
        entry_ok(k, l, r),
    ensures
        m.dom().contains(k) ==> m[k] == (l, r),
{
    if m.dom().contains(k) {
        lemma_combine_inj(m[k].0, m[k].1, l, r);
    }
}

/// The recomputed root of a 32-byte leaf is itself 32 bytes long.
proof fn lemma_ascend_len(leaf: Seq<u8>, bits: Seq<bool>, sibs: Seq<Seq<u8>>)
    requires
        digest_len_fixed(),
        leaf.len() == 32,
    ensures
        ascend(leaf, bits, sibs).len() == 32,
    decreases bits.len(),
{
    if bits.len() > 0 {
        lemma_ascend_len(leaf, bits.drop_first(), sibs.drop_first());
    }
}

/// Updating a path keeps the store content-addressed.
proof fn lemma_store_after_ca(
    m: Map<Seq<u8>, (Seq<u8>, Seq<u8>)>,
    leaf: Seq<u8>,
    bits: Seq<bool>,
    sibs: Seq<Seq<u8>>,
)
    requires
        digest_len_fixed(),
        store_ca(m),
        leaf.len() == 32,
        bits.len() == sibs.len(),
        forall|i: int| 0 <= i < sibs.len() ==> (#[trigger] sibs[i]).len() == 32,
    ensures
        store_ca(store_after(m, leaf, bits, sibs)),
    decreases bits.len(),
{
    if bits.len() > 0 {
        lemma_store_after_ca(m, leaf, bits.drop_first(), sibs.drop_first());
        lemma_ascend_len(leaf, bits.drop_first(), sibs.drop_first());
        let below = ascend(leaf, bits.drop_first(), sibs.drop_first());
        let l = if bits.first() {
            sibs.first()
        } else {
            below
        };
        let r = if bits.first() {
            below
        } else {
            sibs.first()
        };
        assert(sibs[0].len() == 32);
        assert(entry_ok(combine(l, r), l, r));
    }
}

/// Updating one path changes no walk that succeeded before, absent
/// collisions: the new entries only ever restate what colliding keys already
/// held.
proof fn lemma_store_after_preserves_walk(
    m: Map<Seq<u8>, (Seq<u8>, Seq<u8>)>,
    n: Seq<u8>,
    bits2: Seq<bool>,
    leaf: Seq<u8>,
    bits: Seq<bool>,
    sibs: Seq<Seq<u8>>,
)
    requires
        digest_injective(),
        digest_len_fixed(),
        store_ca(m),
        leaf.len() == 32,
        bits.len() == sibs.len(),
        forall|i: int| 0 <= i < sibs.len() ==> (#[trigger] sibs[i]).len() == 32,
        walk_ok(m, n, bits2),
    ensures
        walk_ok(store_after(m, leaf, bits, sibs), n, bits2),
        walk_sibs(store_after(m, leaf, bits, sibs), n, bits2) == walk_sibs(m, n, bits2),
        walk_leaf(store_after(m, leaf, bits, sibs), n, bits2) == walk_leaf(m, n, bits2),
    decreases bits.len(),
{
    if bits.len() > 0 {
        lemma_store_after_preserves_walk(m, n, bits2, leaf, bits.drop_first(), sibs.drop_first());
        let inner = store_after(m, leaf, bits.drop_first(), sibs.drop_first());
        lemma_store_after_ca(m, leaf, bits.drop_first(), sibs.drop_first());
        lemma_ascend_len(leaf, bits.drop_first(), sibs.drop_first());
        let below = ascend(leaf, bits.drop_first(), sibs.drop_first());
        let l = if bits.first() {
            sibs.first()
        } else {
            below
        };
        let r = if bits.first() {
            below
        } else {
            sibs.first()
        };
        assert(sibs[0].len() == 32);
        lemma_ca_insert_agrees(inner, combine(l, r), l, r);
        lemma_walk_insert(inner, n, bits2, combine(l, r), (l, r));
    }
}

/// In a content-addressed store, a successful walk is the decomposition of
/// its starting node: recomputing upward from the leaf it reaches, along the
/// siblings it passed, yields that node again.
pub proof fn lemma_walk_matches_root(m: Map<Seq<u8>, (Seq<u8>, Seq<u8>)>, n: Seq<u8>, bits: Seq<bool>)
    requires
        store_ca(m),
        walk_ok(m, n, bits),
    ensures
        ascend(walk_leaf(m, n, bits), bits, walk_sibs(m, n, bits)) == n,
    decreases bits.len(),
{
    if bits.len() > 0 {
        let child = child_of(m, n, bits.first());
        lemma_walk_matches_root(m, child, bits.drop_first());
        let sibs = walk_sibs(m, n, bits);
        assert(sibs.first() == sibling_of(m, n, bits.first()));
        assert(sibs.drop_first() =~= walk_sibs(m, child, bits.drop_first()));
        assert(entry_ok(n, m[n].0, m[n].1));
    }
}

/// Straight after initialization every leaf index in range is provable: the
/// walk along any path of the tree's height succeeds, reaches the empty
/// leaf's digest, and the sibling path it yields recomputes the tree's root
/// for that leaf.
pub proof fn lemma_empty_tree_valid(leaf: Seq<u8>, h: nat, bits: Seq<bool>)
    requires
        digest_injective(),
        digest_len_fixed(),
        leaf.len() == 32,
        bits.len() == h,
    ensures
        walk_ok(default_store(leaf, h), default_chain(leaf, h), bits),
        walk_leaf(default_store(leaf, h), default_chain(leaf, h), bits) == leaf,
        ascend(leaf, bits, walk_sibs(default_store(leaf, h), default_chain(leaf, h), bits))
            == default_chain(leaf, h),
    decreases h,
{
    if h > 0 {
        let below = default_chain(leaf, (h - 1) as nat);
        let m_prev = default_store(leaf, (h - 1) as nat);
        let top = default_chain(leaf, h);
        let m = default_store(leaf, h);
        lemma_empty_tree_valid(leaf, (h - 1) as nat, bits.drop_first());
        lemma_default_store_ca(leaf, (h - 1) as nat);
        assert(entry_ok(top, below, below));
        lemma_ca_insert_agrees(m_prev, top, below, below);
        lemma_walk_insert(m_prev, below, bits.drop_first(), top, (below, below));
        assert(m[top] == (below, below));
        assert(child_of(m, top, bits.first()) == below);
        let sibs = walk_sibs(m, top, bits);
        assert(sibs.first() == below);
        assert(sibs.drop_first() =~= walk_sibs(m, below, bits.drop_first()));
    }
}

/// The canonical all-empty store is content-addressed, and every default
/// subtree digest is 32 bytes long.
proof fn lemma_default_store_ca(leaf: Seq<u8>, k: nat)
    requires
        digest_len_fixed(),
        leaf.len() == 32,
    ensures
        store_ca(default_store(leaf, k)),
        default_chain(leaf, k).len() == 32,
    decreases k,
{
    if k > 0 {
        lemma_default_store_ca(leaf, (k - 1) as nat);
        let below = default_chain(leaf, (k - 1) as nat);
        assert(entry_ok(default_chain(leaf, k), below, below));
    }
}

/// Update correctness: after rehashing a path for a new leaf digest, the
/// walk along that same path through the updated store, starting from the
/// new root, succeeds, passes exactly the siblings the update consumed, and
/// reaches the new leaf — so the freshly extracted sibling path recomputes
/// the new root for the inserted value.
pub proof fn lemma_update_valid(
    m: Map<Seq<u8>, (Seq<u8>, Seq<u8>)>,
    leaf: Seq<u8>,
    bits: Seq<bool>,
    sibs: Seq<Seq<u8>>,
)
    requires
        digest_injective(),
        digest_len_fixed(),
        store_ca(m),
        leaf.len() == 32,
        bits.len() == sibs.len(),
        forall|i: int| 0 <= i < sibs.len() ==> (#[trigger] sibs[i]).len() == 32,
    ensures
        walk_ok(store_after(m, leaf, bits, sibs), ascend(leaf, bits, sibs), bits),
        walk_sibs(store_after(m, leaf, bits, sibs), ascend(leaf, bits, sibs), bits) == sibs,
        walk_leaf(store_after(m, leaf, bits, sibs), ascend(leaf, bits, sibs), bits) == leaf,
    decreases bits.len(),
{
    if bits.len() == 0 {
        assert(sibs =~= walk_sibs(store_after(m, leaf, bits, sibs), ascend(leaf, bits, sibs), bits));
    } else {
        let bits2 = bits.drop_first();
        let sibs2 = sibs.drop_first();
        lemma_update_valid(m, leaf, bits2, sibs2);
        let inner = store_after(m, leaf, bits2, sibs2);
        let below = ascend(leaf, bits2, sibs2);
        lemma_store_after_ca(m, leaf, bits2, sibs2);
        lemma_ascend_len(leaf, bits2, sibs2);
        let l = if bits.first() {
            sibs.first()
        } else {
            below
        };
        let r = if bits.first() {
            below
        } else {
            sibs.first()
        };
        assert(sibs[0].len() == 32);
        assert(entry_ok(combine(l, r), l, r));
        lemma_ca_insert_agrees(inner, combine(l, r), l, r);
        lemma_walk_insert(inner, below, bits2, combine(l, r), (l, r));
        let m2 = store_after(m, leaf, bits, sibs);
        assert(m2[combine(l, r)] == (l, r));
        assert(child_of(m2, combine(l, r), bits.first()) == below);
        assert(sibling_of(m2, combine(l, r), bits.first()) == sibs.first());
        assert(walk_sibs(m2, combine(l, r), bits) =~= sibs);
    }
}

/// Distinct leaf digests recompute distinct roots along the same sibling
/// path, absent collisions.
pub proof fn lemma_ascend_injective(
    l1: Seq<u8>,
    l2: Seq<u8>,
    bits: Seq<bool>,
    sibs: Seq<Seq<u8>>,
)
    requires
        digest_injective(),
        digest_len_fixed(),
        l1.len() == 32,
        l2.len() == 32,
        l1 != l2,
    ensures
        ascend(l1, bits, sibs) != ascend(l2, bits, sibs),
    decreases bits.len(),
{
    if bits.len() > 0 {
        lemma_ascend_injective(l1, l2, bits.drop_first(), sibs.drop_first());
        lemma_ascend_len(l1, bits.drop_first(), sibs.drop_first());
        lemma_ascend_len(l2, bits.drop_first(), sibs.drop_first());
        let b1 = ascend(l1, bits.drop_first(), sibs.drop_first());
        let b2 = ascend(l2, bits.drop_first(), sibs.drop_first());
        if ascend(l1, bits, sibs) == ascend(l2, bits, sibs) {
            if bits.first() {
                lemma_combine_inj(sibs.first(), b1, sibs.first(), b2);
            } else {
                lemma_combine_inj(b1, sibs.first(), b2, sibs.first());
            }
        }
    }
}

/// Negative proof: a sibling path that proves one leaf digest under a root
/// rejects every other leaf digest, absent collisions. In particular,
/// checking a value against a path extracted before that value was inserted
/// answers false unless the value already equals what the leaf held.
pub proof fn lemma_negative_proof(
    l_held: Seq<u8>,
    l_other: Seq<u8>,
    bits: Seq<bool>,
    sibs: Seq<Seq<u8>>,
    root: Seq<u8>,
)
    requires
        digest_injective(),
        digest_len_fixed(),
        l_held.len() == 32,
        l_other.len() == 32,
        l_other != l_held,
        ascend(l_held, bits, sibs) == root,
    ensures
        ascend(l_other, bits, sibs) != root,
{
    lemma_ascend_injective(l_held, l_other, bits, sibs);
}

/// The level at which two distinct equal-length paths first part ways.
pub open spec fn diverge_at(p1: Seq<bool>, p2: Seq<bool>) -> int
    recommends
        p1.len() == p2.len(),
        p1 != p2,
    decreases p1.len(),
{
    if p1.len() == 0 {
        0
    } else if p1.first() != p2.first() {
        0
    } else {
        1 + diverge_at(p1.drop_first(), p2.drop_first())
    }
}

/// Path independence: updating one leaf leaves every other leaf provable
/// with its old digest, absent collisions. The walk for a different path
/// still succeeds through the updated store from the new root, reaches the
/// digest it reached before the update, and its sibling path recomputes the
/// new root for that unchanged digest. Moreover the sibling path itself is
/// unchanged at every level but the one where the two paths part ways —
/// there the shared ancestor legitimately changed.
pub proof fn lemma_update_preserves_others(
    m: Map<Seq<u8>, (Seq<u8>, Seq<u8>)>,
    root: Seq<u8>,
    leaf: Seq<u8>,
    p1: Seq<bool>,
    p2: Seq<bool>,
)
    requires
        digest_injective(),
        digest_len_fixed(),
        store_ca(m),
        leaf.len() == 32,
        p1.len() == p2.len(),
        p1 != p2,
        walk_ok(m, root, p1),
        walk_ok(m, root, p2),
    ensures
        ({
            let sibs1 = walk_sibs(m, root, p1);
            let m2 = store_after(m, leaf, p1, sibs1);
            let root2 = ascend(leaf, p1, sibs1);
            &&& walk_ok(m2, root2, p2)
            &&& walk_leaf(m2, root2, p2) == walk_leaf(m, root, p2)
            &&& ascend(walk_leaf(m, root, p2), p2, walk_sibs(m2, root2, p2)) == root2
            &&& forall|i: int|
                0 <= i < p2.len() && i != diverge_at(p1, p2) ==> walk_sibs(m2, root2, p2)[i]
                    == walk_sibs(m, root, p2)[i]
        }),
    decreases p1.len(),
{
    assert(p1.len() > 0) by {
        if p1.len() == 0 {
            assert(p1 =~= p2);
        }
    }
    let sibs1 = walk_sibs(m, root, p1);
    lemma_walk_sibs_len(m, root, p1);
    let m2 = store_after(m, leaf, p1, sibs1);
    let root2 = ascend(leaf, p1, sibs1);
    let b = p1.first();
    let child1 = child_of(m, root, b);
    let s = sibling_of(m, root, b);
    let p1t = p1.drop_first();
    let p2t = p2.drop_first();
    let sibs1t = walk_sibs(m, child1, p1t);
    assert(sibs1.first() == s);
    assert(sibs1.drop_first() =~= sibs1t);
    let inner = store_after(m, leaf, p1t, sibs1t);
    let below = ascend(leaf, p1t, sibs1t);
    lemma_walk_sibs_len(m, child1, p1t);
    lemma_store_after_ca(m, leaf, p1t, sibs1t);
    lemma_ascend_len(leaf, p1t, sibs1t);
    let l = if b {
        s
    } else {
        below
    };
    let r = if b {
        below
    } else {
        s
    };
    assert(entry_ok(root, m[root].0, m[root].1));
    assert(s.len() == 32);
    assert(entry_ok(combine(l, r), l, r));
    assert(m2 == inner.insert(combine(l, r), (l, r)));
    assert(root2 == combine(l, r));
    lemma_ca_insert_agrees(inner, combine(l, r), l, r);
    assert(m2[root2] == (l, r));
    if p2.first() == b {
        assert(p1t != p2t) by {
            if p1t == p2t {
                assert forall|i: int| 0 <= i < p1.len() implies p1[i] == p2[i] by {
                    if i > 0 {
                        assert(p1t[i - 1] == p1[i]);
                        assert(p2t[i - 1] == p2[i]);
                    }
                }
                assert(p1 =~= p2);
            }
        }
        lemma_update_preserves_others(m, child1, leaf, p1t, p2t);
        lemma_walk_insert(inner, below, p2t, combine(l, r), (l, r));
        assert(child_of(m2, root2, p2.first()) == below);
        assert(walk_leaf(m2, root2, p2) == walk_leaf(m2, below, p2t));
        assert(walk_leaf(m, root, p2) == walk_leaf(m, child1, p2t));
        let d = diverge_at(p1, p2);
        assert(d == 1 + diverge_at(p1t, p2t));
        assert(sibling_of(m2, root2, p2.first()) == s);
        assert(sibling_of(m, root, p2.first()) == s);
        lemma_walk_sibs_count(m2, below, p2t);
        lemma_walk_sibs_count(m, child1, p2t);
        assert(walk_sibs(m2, root2, p2) =~= seq![s] + walk_sibs(m2, below, p2t));
        assert(walk_sibs(m, root, p2) =~= seq![s] + walk_sibs(m, child1, p2t));
        assert forall|i: int|
            0 <= i < p2.len() && i != d implies walk_sibs(m2, root2, p2)[i] == walk_sibs(
            m,
            root,
            p2,
        )[i] by {
            if i > 0 {
                assert(walk_sibs(m2, root2, p2)[i] == walk_sibs(m2, below, p2t)[i - 1]);
                assert(walk_sibs(m, root, p2)[i] == walk_sibs(m, child1, p2t)[i - 1]);
                assert(walk_sibs(m2, below, p2t)[i - 1] == walk_sibs(m, child1, p2t)[i - 1]);
            }
        }
    } else {
        assert(child_of(m, root, p2.first()) == s);
        assert(walk_ok(m, s, p2t));
        lemma_store_after_preserves_walk(m, s, p2t, leaf, p1, sibs1);
        assert(child_of(m2, root2, p2.first()) == s);
        assert(walk_leaf(m2, root2, p2) == walk_leaf(m2, s, p2t));
        assert(walk_leaf(m, root, p2) == walk_leaf(m, s, p2t));
        let d = diverge_at(p1, p2);
        assert(d == 0);
        lemma_walk_sibs_count(m2, s, p2t);
        lemma_walk_sibs_count(m, s, p2t);
        assert(walk_sibs(m2, root2, p2) =~= seq![sibling_of(m2, root2, p2.first())] + walk_sibs(
            m2,
            s,
            p2t,
        ));
        assert(walk_sibs(m, root, p2) =~= seq![sibling_of(m, root, p2.first())] + walk_sibs(
            m,
            s,
            p2t,
        ));
        assert forall|i: int|
            0 <= i < p2.len() && i != d implies walk_sibs(m2, root2, p2)[i] == walk_sibs(
            m,
            root,
            p2,
        )[i] by {
            assert(walk_sibs(m2, root2, p2)[i] == walk_sibs(m2, s, p2t)[i - 1]);
            assert(walk_sibs(m, root, p2)[i] == walk_sibs(m, s, p2t)[i - 1]);
            assert(walk_sibs(m2, s, p2t)[i - 1] == walk_sibs(m, s, p2t)[i - 1]);
        }
    }
    lemma_store_after_ca(m, leaf, p1, sibs1);
    lemma_walk_matches_root(m2, root2, p2);
}

} // verus!
