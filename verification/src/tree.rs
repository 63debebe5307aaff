//! The fixed-height binary hash tree and its content-addressed node store.
//!
//! The store maps a node's digest to the pair of its child digests; a node is
//! always filed under the hash of its own value, so every entry is
//! self-verifying. Initialization builds the canonical all-empty tree of a
//! given height, sharing one entry per level for all equal default subtrees.
//! An update rehashes the path from one leaf to the root and inserts the new
//! ancestors, leaving the old ones in place; the store only ever grows.

use vstd::prelude::*;

use crate::digest::{bytes_eq, combine, combine_hashes, element_digest};
use crate::element::Element;

verus! {

/// Why a tree operation was refused.
#[derive(Clone, Copy, Debug, PartialEq, Eq, Structural)]
pub enum TreeError {
    /// The supplied bit path is not exactly as long as the tree is high.
    MalformedPath,
    /// A node referenced during a walk is absent from the store; the tree
    /// and the path do not belong together.
    InconsistentStore,
}

/// The child digest that the bit `b` selects from the children of `node`:
/// `true` selects the right child.
pub open spec fn child_of(m: Map<Seq<u8>, (Seq<u8>, Seq<u8>)>, node: Seq<u8>, b: bool) -> Seq<u8> {
    if b {
        m[node].1
    } else {
        m[node].0
    }
}

/// The child digest that the bit `b` passes by: the sibling of the child it
/// selects.
pub open spec fn sibling_of(m: Map<Seq<u8>, (Seq<u8>, Seq<u8>)>, node: Seq<u8>, b: bool) -> Seq<u8> {
    if b {
        m[node].0
    } else {
        m[node].1
    }
}

/// Whether the walk from `node` along `bits` finds every node it visits in
/// the store.
pub open spec fn walk_ok(m: Map<Seq<u8>, (Seq<u8>, Seq<u8>)>, node: Seq<u8>, bits: Seq<bool>) -> bool
    decreases bits.len(),
{
    bits.len() == 0 || (m.dom().contains(node) && walk_ok(
        m,
        child_of(m, node, bits.first()),
        bits.drop_first(),
    ))
}

/// The sibling digests passed by on the walk from `node` along `bits`, in
/// root-to-leaf order. Meaningful where the walk succeeds.
pub open spec fn walk_sibs(m: Map<Seq<u8>, (Seq<u8>, Seq<u8>)>, node: Seq<u8>, bits: Seq<bool>) -> Seq<Seq<u8>>
    decreases bits.len(),
{
    if bits.len() == 0 {
        Seq::empty()
    } else {
        seq![sibling_of(m, node, bits.first())] + walk_sibs(
            m,
            child_of(m, node, bits.first()),
            bits.drop_first(),
        )
    }
}

/// The digest reached at the leaf position after walking from `node` along
/// `bits`. Meaningful where the walk succeeds.
pub open spec fn walk_leaf(m: Map<Seq<u8>, (Seq<u8>, Seq<u8>)>, node: Seq<u8>, bits: Seq<bool>) -> Seq<u8>
    decreases bits.len(),
{
    if bits.len() == 0 {
        node
    } else {
        walk_leaf(m, child_of(m, node, bits.first()), bits.drop_first())
    }
}

/// The root digest recomputed from a leaf digest, a bit path and the sibling
/// digests along it (both in root-to-leaf order): fold from the leaf upward,
/// placing the running digest on the side the bit selects.
pub open spec fn ascend(leaf: Seq<u8>, bits: Seq<bool>, sibs: Seq<Seq<u8>>) -> Seq<u8>
    decreases bits.len(),
{
    if bits.len() == 0 {
        leaf
    } else {
        let below = ascend(leaf, bits.drop_first(), sibs.drop_first());
        if bits.first() {
            combine(sibs.first(), below)
        } else {
            combine(below, sibs.first())
        }
    }
}

/// The store after inserting the rehashed ancestors of a leaf update: one new
/// entry per level, inserted leaf-to-root, each keyed by its own digest.
pub open spec fn store_after(
    m: Map<Seq<u8>, (Seq<u8>, Seq<u8>)>,
    leaf: Seq<u8>,
    bits: Seq<bool>,
    sibs: Seq<Seq<u8>>,
) -> Map<Seq<u8>, (Seq<u8>, Seq<u8>)>
    decreases bits.len(),
{
    if bits.len() == 0 {
        m
    } else {
        let below_map = store_after(m, leaf, bits.drop_first(), sibs.drop_first());
        let below = ascend(leaf, bits.drop_first(), sibs.drop_first());
        let l = if bits.first() {
            sibs.first()
        } else {
            below
        };
        let r = if bits.first() {
            below
        } else {
            sibs.first()
        };
        below_map.insert(combine(l, r), (l, r))
    }
}

/// The digest of the all-empty subtree of height `k` over the leaf digest
/// `leaf`.
pub open spec fn default_chain(leaf: Seq<u8>, k: nat) -> Seq<u8>
    decreases k,
{
    if k == 0 {
        leaf
    } else {
        let below = default_chain(leaf, (k - 1) as nat);
        combine(below, below)
    }
}

/// The store of the canonical all-empty tree of height `k`: one shared entry
/// per level, keyed by that level's default subtree digest.
pub open spec fn default_store(leaf: Seq<u8>, k: nat) -> Map<Seq<u8>, (Seq<u8>, Seq<u8>)>
    decreases k,
{
    if k == 0 {
        Map::empty()
    } else {
        let below = default_chain(leaf, (k - 1) as nat);
        default_store(leaf, (k - 1) as nat).insert(default_chain(leaf, k), (below, below))
    }
}

/// For a positive height, the root of the canonical all-empty tree is a key
/// of its own store.
pub proof fn lemma_default_root_in_store(leaf: Seq<u8>, k: nat)
    requires
        k > 0,
    ensures
        default_store(leaf, k).dom().contains(default_chain(leaf, k)),
{
}

/// An update of a nonempty path files its new root in the store it produces.
pub proof fn lemma_new_root_in_store(
    m: Map<Seq<u8>, (Seq<u8>, Seq<u8>)>,
    leaf: Seq<u8>,
    bits: Seq<bool>,
    sibs: Seq<Seq<u8>>,
)
    requires
        bits.len() > 0,
    ensures
        store_after(m, leaf, bits, sibs).dom().contains(ascend(leaf, bits, sibs)),
{
}

/// A store entry is self-verifying: its key is the digest of its value, and
/// key and children are all 32 bytes long.
pub open spec fn entry_ok(key: Seq<u8>, left: Seq<u8>, right: Seq<u8>) -> bool {
    &&& key == combine(left, right)
    &&& key.len() == 32
    &&& left.len() == 32
    &&& right.len() == 32
}

/// A store is content-addressed: every entry is self-verifying.
pub open spec fn store_ca(m: Map<Seq<u8>, (Seq<u8>, Seq<u8>)>) -> bool {
    forall|k: Seq<u8>| #[trigger] m.dom().contains(k) ==> entry_ok(k, m[k].0, m[k].1)
}

/// One record of the node store: a node's digest and its two child digests.
#[derive(Debug)]
struct NodeEntry {
    key: Vec<u8>,
    left: Vec<u8>,
    right: Vec<u8>,
}

/// The map that a list of store records denotes; a later record for the same
/// key supersedes an earlier one.
spec fn entries_map(s: Seq<NodeEntry>) -> Map<Seq<u8>, (Seq<u8>, Seq<u8>)>
    decreases s.len(),
{
    if s.len() == 0 {
        Map::empty()
    } else {
        entries_map(s.drop_last()).insert(s.last().key@, (s.last().left@, s.last().right@))
    }
}

/// Every record of the list is self-verifying.
spec fn entries_all_ok(s: Seq<NodeEntry>) -> bool {
    forall|i: int|
        0 <= i < s.len() ==> entry_ok(
            #[trigger] s[i].key@,
            s[i].left@,
            s[i].right@,
        )
}

proof fn lemma_entries_map_ca(s: Seq<NodeEntry>)
    requires
        entries_all_ok(s),
    ensures
        store_ca(entries_map(s)),
    decreases s.len(),
{
    if s.len() > 0 {
        assert(entry_ok(s.last().key@, s.last().left@, s.last().right@));
        lemma_entries_map_ca(s.drop_last());
    }
}

/// A fixed-height sparse Merkle tree: the digest of its current top node and
/// the content-addressed store of every internal node ever created.
#[derive(Debug)]
pub struct BinaryTree {
    top: Vec<u8>,
    store: Vec<NodeEntry>,
    height: usize,
}

impl BinaryTree {
    #[verifier::type_invariant]
    spec fn inv(self) -> bool {
        &&& self.top@.len() == 32
        &&& entries_all_ok(self.store@)
    }

    /// The digest of the current top node.
    pub closed spec fn spec_root(self) -> Seq<u8> {
        self.top@
    }

    /// The node store, as the map from a node's digest to its child digests.
    pub closed spec fn spec_nodes(self) -> Map<Seq<u8>, (Seq<u8>, Seq<u8>)> {
        entries_map(self.store@)
    }

    /// The number of levels between a leaf and the root.
    pub closed spec fn spec_height(self) -> nat {
        self.height as nat
    }

    /// The digest of the current top node. Also reports that the tree is
    /// consistent: its store is content-addressed and its root digest is 32
    /// bytes long.
    pub fn top(&self) -> (r: &Vec<u8>)
        ensures
            r@ == self.spec_root(),
            store_ca(self.spec_nodes()),
            self.spec_root().len() == 32,
    {
        proof {
            use_type_invariant(&*self);
            lemma_entries_map_ca(self.store@);
        }
        &self.top
    }

    /// The height the tree was built with.
    pub fn height(&self) -> (r: usize)
        ensures
            r == self.spec_height(),
    {
        self.height
    }

    /// Builds the canonical all-empty tree of the given height: every leaf
    /// holds `empty_value`, and each level's default subtree is stored once.
    pub fn initialize(empty_value: Element, height: usize) -> (r: BinaryTree)
        ensures
            r.spec_height() == height,
            r.spec_root() == default_chain(element_digest(empty_value@), height as nat),
            r.spec_nodes() == default_store(element_digest(empty_value@), height as nat),
            store_ca(r.spec_nodes()),
            r.spec_root().len() == 32,
    {
        let ghost leaf = element_digest(empty_value@);
        let mut store: Vec<NodeEntry> = Vec::new();
        let mut current = empty_value.compute_hash();
        for i in 0..height
            invariant
                current@ == default_chain(leaf, i as nat),
                current@.len() == 32,
                entries_map(store@) == default_store(leaf, i as nat),
                entries_all_ok(store@),
        {
            let ghost prev_store = store@;
            let next = combine_hashes(&current, &current);
            let left = current.clone();
            store.push(NodeEntry { key: next.clone(), left, right: current });
            current = next;
            proof {
                assert(store@.drop_last() =~= prev_store);
                assert(entries_map(store@) == default_store(leaf, (i + 1) as nat));
            }
        }
        proof {
            lemma_entries_map_ca(store@);
        }
        BinaryTree { top: current, store, height }
    }

    /// Walks from the root along the given bit path and returns the sibling
    /// digest passed by at each level, in root-to-leaf order. Fails with
    /// `MalformedPath` if the path is not exactly `height` bits long, and
    /// with `InconsistentStore` if a visited node is absent from the store.
    #[verifier::loop_isolation(false)]
    pub fn get_sibling_hashes(&self, bits_index: &Vec<bool>) -> (r: Result<Vec<Vec<u8>>, TreeError>)
        ensures
            match r {
                Ok(sibs) => {
                    &&& bits_index@.len() == self.spec_height()
                    &&& walk_ok(self.spec_nodes(), self.spec_root(), bits_index@)
                    &&& sibs.deep_view() == walk_sibs(self.spec_nodes(), self.spec_root(), bits_index@)
                    &&& sibs@.len() == bits_index@.len()
                },
                Err(TreeError::MalformedPath) => bits_index@.len() != self.spec_height(),
                Err(TreeError::InconsistentStore) => {
                    &&& bits_index@.len() == self.spec_height()
                    &&& !walk_ok(self.spec_nodes(), self.spec_root(), bits_index@)
                },
            },
            store_ca(self.spec_nodes()),
            self.spec_root().len() == 32,
    {
        proof {
            use_type_invariant(&*self);
            lemma_entries_map_ca(self.store@);
        }
        let k = bits_index.len();
        if k != self.height {
            return Err(TreeError::MalformedPath);
        }
        let ghost m = self.spec_nodes();
        let ghost root = self.spec_root();
        let mut node = self.top.clone();
        let mut siblings: Vec<Vec<u8>> = Vec::new();
        proof {
            assert(bits_index@.skip(0) =~= bits_index@);
            assert(siblings.deep_view() + walk_sibs(m, node@, bits_index@) =~= walk_sibs(
                m,
                node@,
                bits_index@,
            ));
        }
        for i in 0..k
            invariant
                k == bits_index@.len(),
                m == self.spec_nodes(),
                root == self.spec_root(),
                siblings@.len() == i,
                walk_ok(m, root, bits_index@) == walk_ok(m, node@, bits_index@.skip(i as int)),
                walk_ok(m, node@, bits_index@.skip(i as int)) ==> walk_sibs(m, root, bits_index@)
                    =~= siblings.deep_view() + walk_sibs(m, node@, bits_index@.skip(i as int)),
        {
            let ghost suffix = bits_index@.skip(i as int);
            proof {
                assert(suffix.first() == bits_index@[i as int]);
                assert(suffix.drop_first() =~= bits_index@.skip(i + 1));
            }
            match lookup(&self.store, &node) {
                None => {
                    proof {
                        assert(suffix.len() > 0);
                        assert(!walk_ok(m, node@, suffix));
                    }
                    return Err(TreeError::InconsistentStore);
                },
                Some(pair) => {
                    let ghost prev_dv = siblings.deep_view();
                    let ghost prev_node = node@;
                    let bit = bits_index[i];
                    let (next, sib) = if bit {
                        (pair.1, pair.0)
                    } else {
                        (pair.0, pair.1)
                    };
                    proof {
                        assert(next@ == child_of(m, prev_node, suffix.first()));
                        assert(sib@ == sibling_of(m, prev_node, suffix.first()));
                    }
                    siblings.push(sib);
                    node = next;
                    proof {
                        assert(siblings.deep_view() =~~= prev_dv.push(
                            sibling_of(m, prev_node, suffix.first()),
                        ));
                        if walk_ok(m, node@, bits_index@.skip(i + 1)) {
                            assert(walk_sibs(m, prev_node, suffix) == seq![
                                sibling_of(m, prev_node, suffix.first()),
                            ] + walk_sibs(m, node@, suffix.drop_first()));
                            assert(walk_sibs(m, root, bits_index@) =~= siblings.deep_view()
                                + walk_sibs(m, node@, bits_index@.skip(i + 1)));
                        }
                    }
                },
            }
        }
        proof {
            assert(bits_index@.skip(k as int) =~= Seq::<bool>::empty());
            assert(walk_sibs(m, node@, bits_index@.skip(k as int)) =~= Seq::<Seq<u8>>::empty());
            assert(siblings.deep_view() + Seq::<Seq<u8>>::empty() =~= siblings.deep_view());
        }
        Ok(siblings)
    }

    /// Stores a new value at the leaf the bit path addresses: rehashes the
    /// path from that leaf to the root, inserts every new ancestor, and makes
    /// the last of them the new top. The old ancestors stay in the store. On
    /// failure the tree is unchanged.
    pub fn add_element(&mut self, bits_index: Vec<bool>, element: &Element) -> (r: Result<
        (),
        TreeError,
    >)
        ensures
            match r {
                Ok(()) => {
                    &&& bits_index@.len() == old(self).spec_height()
                    &&& walk_ok(old(self).spec_nodes(), old(self).spec_root(), bits_index@)
                    &&& final(self).spec_height() == old(self).spec_height()
                    &&& final(self).spec_root() == ascend(
                        element_digest(element@),
                        bits_index@,
                        walk_sibs(old(self).spec_nodes(), old(self).spec_root(), bits_index@),
                    )
                    &&& final(self).spec_nodes() == store_after(
                        old(self).spec_nodes(),
                        element_digest(element@),
                        bits_index@,
                        walk_sibs(old(self).spec_nodes(), old(self).spec_root(), bits_index@),
                    )
                },
                Err(TreeError::MalformedPath) => {
                    &&& bits_index@.len() != old(self).spec_height()
                    &&& *final(self) == *old(self)
                },
                Err(TreeError::InconsistentStore) => {
                    &&& bits_index@.len() == old(self).spec_height()
                    &&& !walk_ok(old(self).spec_nodes(), old(self).spec_root(), bits_index@)
                    &&& *final(self) == *old(self)
                },
            },
            store_ca(final(self).spec_nodes()),
            final(self).spec_root().len() == 32,
    {
        proof {
            use_type_invariant(&*self);
            lemma_entries_map_ca(self.store@);
        }
        let k = bits_index.len();
        if k != self.height {
            return Err(TreeError::MalformedPath);
        }
        let sibs = match self.get_sibling_hashes(&bits_index) {
            Ok(s) => s,
            Err(e) => {
                proof {
                    assert(e == TreeError::InconsistentStore);
                }
                return Err(e);
            },
        };
        let ghost m0 = self.spec_nodes();
        let ghost root0 = self.spec_root();
        let ghost leaf = element_digest(element@);
        let ghost sdv = sibs.deep_view();
        proof {
            lemma_walk_sibs_len(m0, root0, bits_index@);
        }
        let mut store: Vec<NodeEntry> = Vec::new();
        std::mem::swap(&mut store, &mut self.store);
        let mut current = element.compute_hash();
        let mut j: usize = 0;
        while j < k
            invariant
                j <= k,
                k == bits_index@.len(),
                sibs@.len() == k,
                sdv == sibs.deep_view(),
                sdv.len() == k,
                forall|t: int| 0 <= t < k ==> (#[trigger] sdv[t]).len() == 32,
                current@ == ascend(leaf, bits_index@.skip((k - j) as int), sdv.skip((k - j) as int)),
                current@.len() == 32,
                entries_map(store@) == store_after(
                    m0,
                    leaf,
                    bits_index@.skip((k - j) as int),
                    sdv.skip((k - j) as int),
                ),
                entries_all_ok(store@),
            decreases k - j,
        {
            let idx = k - 1 - j;
            let ghost prev_store = store@;
            let ghost prev_current = current@;
            let ghost suffix_bits = bits_index@.skip(idx as int);
            let ghost suffix_sibs = sdv.skip(idx as int);
            proof {
                assert(suffix_bits.first() == bits_index@[idx as int]);
                assert(suffix_bits.drop_first() =~= bits_index@.skip(idx + 1));
                assert(suffix_sibs.first() == sdv[idx as int]);
                assert(suffix_sibs.drop_first() =~= sdv.skip(idx + 1));
                assert(sibs@[idx as int].deep_view() =~= sibs@[idx as int]@);
            }
            let bit = bits_index[idx];
            let (left, right) = if bit {
                (sibs[idx].clone(), current)
            } else {
                (current, sibs[idx].clone())
            };
            let next = combine_hashes(&left, &right);
            store.push(NodeEntry { key: next.clone(), left, right });
            current = next;
            j += 1;
            proof {
                assert(store@.drop_last() =~= prev_store);
                assert(entries_map(store@) == entries_map(prev_store).insert(
                    current@,
                    (store@.last().left@, store@.last().right@),
                ));
                assert(current@ == ascend(leaf, suffix_bits, suffix_sibs));
                assert(entries_map(store@) == store_after(m0, leaf, suffix_bits, suffix_sibs));
            }
        }
        proof {
            assert(bits_index@.skip(0) =~= bits_index@);
            assert(sdv.skip(0) =~= sdv);
        }
        self.top = current;
        std::mem::swap(&mut store, &mut self.store);
        proof {
            lemma_entries_map_ca(self.store@);
        }
        Ok(())
    }
}

/// Finds the children recorded for a node digest, preferring the most recent
/// record.
fn lookup(store: &Vec<NodeEntry>, key: &Vec<u8>) -> (r: Option<(Vec<u8>, Vec<u8>)>)
    ensures
        match r {
            Some(pair) => entries_map(store@).dom().contains(key@) && entries_map(store@)[key@]
                == (pair.0@, pair.1@),
            None => !entries_map(store@).dom().contains(key@),
        },
{
    let ghost full = entries_map(store@);
    let mut i = store.len();
    proof {
        assert(store@.subrange(0, store@.len() as int) =~= store@);
    }
    while i > 0
        invariant
            i <= store@.len(),
            full == entries_map(store@),
            entries_map(store@.subrange(0, i as int)).dom().contains(key@) == full.dom().contains(
                key@,
            ),
            entries_map(store@.subrange(0, i as int)).dom().contains(key@) ==> entries_map(
                store@.subrange(0, i as int),
            )[key@] == full[key@],
        decreases i,
    {
        i = i - 1;
        let ghost pre = store@.subrange(0, i + 1);
        proof {
            assert(pre.drop_last() =~= store@.subrange(0, i as int));
            assert(pre.last() == store@[i as int]);
        }
        if bytes_eq(&store[i].key, key) {
            return Some((store[i].left.clone(), store[i].right.clone()));
        }
    }
    proof {
        assert(store@.subrange(0, 0) =~= Seq::<NodeEntry>::empty());
    }
    None
}

/// A walk passes one sibling per bit, whatever the store holds.
pub proof fn lemma_walk_sibs_count(
    m: Map<Seq<u8>, (Seq<u8>, Seq<u8>)>,
    node: Seq<u8>,
    bits: Seq<bool>,
)
    ensures
        walk_sibs(m, node, bits).len() == bits.len(),
    decreases bits.len(),
{
    if bits.len() > 0 {
        lemma_walk_sibs_count(m, child_of(m, node, bits.first()), bits.drop_first());
    }
}

/// In a content-addressed store, every sibling digest a successful walk
/// passes by is 32 bytes long.
pub proof fn lemma_walk_sibs_len(m: Map<Seq<u8>, (Seq<u8>, Seq<u8>)>, node: Seq<u8>, bits: Seq<bool>)
    requires
        store_ca(m),
        walk_ok(m, node, bits),
    ensures
        walk_sibs(m, node, bits).len() == bits.len(),
        forall|i: int|
            0 <= i < bits.len() ==> (#[trigger] walk_sibs(m, node, bits)[i]).len() == 32,
    decreases bits.len(),
{
    if bits.len() > 0 {
        lemma_walk_sibs_len(m, child_of(m, node, bits.first()), bits.drop_first());
    }
}

} // verus!
