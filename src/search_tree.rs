//! An unbalanced binary search tree from totally ordered keys to values.
//!
//! Every cell is owned by exactly one slot, and the tree is read through
//! its view, the map from keys to values that it holds.
use crate::key_order::{lemma_asymmetric, TotalOrder};
use core::cmp::Ordering;
use vstd::prelude::*;

verus! {

/// A tree cell: one entry and the two subtrees below it.
#[derive(Debug, PartialEq)]
pub struct Node<K, V> {
    pub key: K,
    pub value: V,
    pub left: Edge<K, V>,
    pub right: Edge<K, V>,
}

/// A slot that is either empty or owns one cell.
#[derive(Debug, PartialEq)]
pub struct Edge<K, V> {
    pub node: Option<Box<Node<K, V>>>,
}

/// The tree: no slot at all, or a slot holding the root cell.
#[derive(Debug, PartialEq)]
pub struct BinarySearchTree<K, V> {
    pub root: Option<Edge<K, V>>,
}

/// What a lookup of `k` in `m` gives back.
pub open spec fn lookup<K, V>(m: Map<K, V>, k: K) -> Option<V> {
    if m.dom().contains(k) {
        Some(m[k])
    } else {
        None
    }
}

/// Whether a sequence of keys is strictly increasing.
pub open spec fn strictly_increasing<K: TotalOrder>(s: Seq<K>) -> bool {
    forall|i: int, j: int| 0 <= i < j < s.len() ==> s[i].less(s[j])
}

impl<K, V> Edge<K, V> {
    /// The entries held under this slot.
    pub open spec fn entries(self) -> Map<K, V>
        decreases self,
    {
        match self.node {
            None => Map::empty(),
            Some(n) => n.left.entries().union_prefer_right(n.right.entries()).insert(
                n.key,
                n.value,
            ),
        }
    }

    /// The number of cells under this slot.
    pub open spec fn node_count(self) -> nat
        decreases self,
    {
        match self.node {
            None => 0,
            Some(n) => 1 + n.left.node_count() + n.right.node_count(),
        }
    }

    /// The keys under this slot, read left subtree first, then the cell,
    /// then the right subtree.
    pub open spec fn in_order(self) -> Seq<K>
        decreases self,
    {
        match self.node {
            None => Seq::empty(),
            Some(n) => n.left.in_order() + seq![n.key] + n.right.in_order(),
        }
    }

    /// The number of cells under this slot.
    pub fn len(&self) -> (r: usize)
        requires
            self.node_count() <= usize::MAX,
        ensures
            r == self.node_count(),
        decreases self,
    {
        match &self.node {
            None => 0,
            Some(n) => {
                let a = n.left.len();
                let b = n.right.len();
                1 + a + b
            },
        }
    }
}

impl<K: TotalOrder, V> Edge<K, V> {
    /// Search-tree order: left keys before the cell's key, right keys after
    /// it, at every cell under this slot.
    pub open spec fn is_ordered(self) -> bool
        decreases self,
    {
        match self.node {
            None => true,
            Some(n) => {
                &&& n.left.is_ordered()
                &&& n.right.is_ordered()
                &&& forall|k: K| #[trigger] n.left.entries().dom().contains(k) ==> k.less(n.key)
                &&& forall|k: K| #[trigger] n.right.entries().dom().contains(k) ==> n.key.less(k)
            },
        }
    }

    /// Under an ordered slot there are finitely many keys, one per cell.
    pub proof fn lemma_node_count(self)
        requires
            self.is_ordered(),
        ensures
            self.entries().dom().finite(),
            self.entries().dom().len() == self.node_count(),
        decreases self,
    {
        if let Some(n) = self.node {
            n.left.lemma_node_count();
            n.right.lemma_node_count();
            let l = n.left.entries().dom();
            let r = n.right.entries().dom();
            assert forall|k: K| l.contains(k) implies !r.contains(k) by {
                lemma_asymmetric(k, n.key);
            }
            vstd::set_lib::lemma_set_disjoint_lens(l, r);
            assert(n.left.entries().union_prefer_right(n.right.entries()).dom() =~= l + r);
            K::lemma_irreflexive(n.key);
            assert(!(l + r).contains(n.key));
        }
    }

    /// Under an ordered slot the in-order keys are the slot's keys, each
    /// once, in strictly increasing order.
    pub proof fn lemma_in_order(self)
        requires
            self.is_ordered(),
        ensures
            forall|i: int|
                0 <= i < self.in_order().len() ==> self.entries().dom().contains(
                    #[trigger] self.in_order()[i],
                ),
            strictly_increasing(self.in_order()),
            self.in_order().len() == self.node_count(),
        decreases self,
    {
        if let Some(n) = self.node {
            n.left.lemma_in_order();
            n.right.lemma_in_order();
            let l = n.left.in_order();
            let r = n.right.in_order();
            let s = self.in_order();
            assert(s == l + seq![n.key] + r);
            assert forall|i: int| 0 <= i < s.len() implies self.entries().dom().contains(
                #[trigger] s[i],
            ) by {
                if i < l.len() {
                    assert(s[i] == l[i]);
                } else if i > l.len() {
                    assert(s[i] == r[i - l.len() - 1]);
                }
            }
            assert forall|i: int, j: int| 0 <= i < j < s.len() implies s[i].less(s[j]) by {
                if j < l.len() {
                    assert(s[i] == l[i] && s[j] == l[j]);
                } else if i > l.len() {
                    assert(s[i] == r[i - l.len() - 1] && s[j] == r[j - l.len() - 1]);
                } else {
                    if i < l.len() {
                        assert(s[i] == l[i]);
                        assert(n.left.entries().dom().contains(l[i]));
                    }
                    if j > l.len() {
                        assert(s[j] == r[j - l.len() - 1]);
                        assert(n.right.entries().dom().contains(r[j - l.len() - 1]));
                    }
                    if i < l.len() && j > l.len() {
                        K::lemma_transitive(s[i], n.key, s[j]);
                    }
                }
            }
        }
    }

    /// Puts `value` under `key`: a present key has its value replaced in
    /// place, an absent one gets a new leaf cell.
    pub fn insert(&mut self, key: K, value: V)
        requires
            old(self).is_ordered(),
        ensures
            final(self).is_ordered(),
            final(self).entries() == old(self).entries().insert(key, value),
        decreases *old(self),
    {
        match self.node.take() {
            None => {
                self.node = Some(
                    Box::new(
                        Node {
                            key,
                            value,
                            left: Edge { node: None },
                            right: Edge { node: None },
                        },
                    ),
                );
                assert(self.entries() =~= old(self).entries().insert(key, value));
            },
            Some(mut n) => {
                let ghost l0 = n.left.entries();
                let ghost r0 = n.right.entries();
                match key.compare(&n.key) {
                    Ordering::Equal => {
                        n.value = value;
                    },
                    Ordering::Less => {
                        proof {
                            if r0.dom().contains(key) {
                                lemma_asymmetric(key, n.key);
                            }
                        }
                        n.left.insert(key, value);
                    },
                    Ordering::Greater => {
                        proof {
                            if l0.dom().contains(key) {
                                lemma_asymmetric(key, n.key);
                            }
                        }
                        n.right.insert(key, value);
                    },
                }
                self.node = Some(n);
                assert(self.entries() =~= old(self).entries().insert(key, value));
            },
        }
    }

    /// Detaches the cell with the least key under this slot and hands back
    /// its key and value.
    pub fn take_min(&mut self) -> (r: (K, V))
        requires
            old(self).node.is_some(),
            old(self).is_ordered(),
        ensures
            final(self).is_ordered(),
            old(self).entries().dom().contains(r.0),
            old(self).entries()[r.0] == r.1,
            forall|k: K| #[trigger]
                old(self).entries().dom().contains(k) ==> k == r.0 || r.0.less(k),
            final(self).entries() == old(self).entries().remove(r.0),
        decreases *old(self),
    {
        let mut n = self.node.take().unwrap();
        if n.left.node.is_none() {
            let Node { key, value, left, right } = *n;
            self.node = right.node;
            assert(left.entries() =~= Map::empty());
            proof {
                K::lemma_irreflexive(key);
            }
            assert(self.entries() =~= old(self).entries().remove(key));
            (key, value)
        } else {
            let ghost k0 = n.key;
            let ghost l0 = n.left.entries();
            let ghost r0 = n.right.entries();
            let r = n.left.take_min();
            proof {
                K::lemma_irreflexive(k0);
                if r0.dom().contains(r.0) {
                    lemma_asymmetric(r.0, k0);
                }
                assert forall|k: K| #[trigger]
                    old(self).entries().dom().contains(k) implies k == r.0 || r.0.less(k) by {
                    if r0.dom().contains(k) {
                        K::lemma_transitive(r.0, k0, k);
                    }
                }
            }
            self.node = Some(n);
            assert(self.entries() =~= old(self).entries().remove(r.0));
            r
        }
    }

    /// Removes `key` and its value, if present. A cell with two children
    /// takes over the entry of its in-order successor, whose own cell is
    /// then detached from the right subtree.
    pub fn delete(&mut self, key: K)
        requires
            old(self).is_ordered(),
        ensures
            final(self).is_ordered(),
            final(self).entries() == old(self).entries().remove(key),
            !old(self).entries().dom().contains(key) ==> *final(self) == *old(self),
        decreases *old(self),
    {
        match self.node.take() {
            None => {
                assert(self.entries() =~= old(self).entries().remove(key));
            },
            Some(mut n) => {
                let ghost k0 = n.key;
                let ghost l0 = n.left.entries();
                let ghost r0 = n.right.entries();
                match key.compare(&n.key) {
                    Ordering::Less => {
                        proof {
                            if r0.dom().contains(key) {
                                lemma_asymmetric(key, k0);
                            }
                        }
                        n.left.delete(key);
                        self.node = Some(n);
                    },
                    Ordering::Greater => {
                        proof {
                            if l0.dom().contains(key) {
                                lemma_asymmetric(key, k0);
                            }
                        }
                        n.right.delete(key);
                        self.node = Some(n);
                    },
                    Ordering::Equal => {
                        proof {
                            K::lemma_irreflexive(k0);
                        }
                        if n.left.node.is_none() {
                            let Node { key: _, value: _, left, right } = *n;
                            assert(left.entries() =~= Map::empty());
                            self.node = right.node;
                        } else if n.right.node.is_none() {
                            let Node { key: _, value: _, left, right } = *n;
                            assert(right.entries() =~= Map::empty());
                            self.node = left.node;
                        } else {
                            let (k, v) = n.right.take_min();
                            proof {
                                if l0.dom().contains(k) {
                                    lemma_asymmetric(k, k0);
                                }
                                assert forall|j: K| #[trigger]
                                    l0.dom().contains(j) implies j.less(k) by {
                                    K::lemma_transitive(j, k0, k);
                                }
                            }
                            n.key = k;
                            n.value = v;
                            self.node = Some(n);
                        }
                    },
                }
                assert(self.entries() =~= old(self).entries().remove(key));
            },
        }
    }
}

impl<K: TotalOrder, V: Copy> Edge<K, V> {
    /// Looks `key` up under this slot and copies its value out.
    pub fn find(&self, key: K) -> (r: Option<V>)
        requires
            self.is_ordered(),
        ensures
            r == lookup(self.entries(), key),
        decreases self,
    {
        match &self.node {
            None => None,
            Some(n) => {
                match key.compare(&n.key) {
                    Ordering::Equal => Some(n.value),
                    Ordering::Less => {
                        proof {
                            if n.right.entries().dom().contains(key) {
                                lemma_asymmetric(key, n.key);
                            }
                        }
                        n.left.find(key)
                    },
                    Ordering::Greater => {
                        proof {
                            if n.left.entries().dom().contains(key) {
                                lemma_asymmetric(key, n.key);
                            }
                        }
                        n.right.find(key)
                    },
                }
            },
        }
    }
}

impl<K, V> View for BinarySearchTree<K, V> {
    type V = Map<K, V>;

    /// The map from keys to values that the tree holds.
    open spec fn view(&self) -> Map<K, V> {
        match self.root {
            None => Map::empty(),
            Some(e) => e.entries(),
        }
    }
}

impl<K: TotalOrder, V> BinarySearchTree<K, V> {
    /// The search-tree order holds throughout.
    pub open spec fn well_formed(&self) -> bool {
        match self.root {
            None => true,
            Some(e) => e.is_ordered(),
        }
    }

    /// The number of cells in the tree.
    pub open spec fn node_count(&self) -> nat {
        match self.root {
            None => 0,
            Some(e) => e.node_count(),
        }
    }

    /// The keys of the tree in in-order traversal.
    pub open spec fn in_order(&self) -> Seq<K> {
        match self.root {
            None => Seq::empty(),
            Some(e) => e.in_order(),
        }
    }

    /// A well-formed tree has as many cells as keys.
    pub proof fn lemma_node_count(&self)
        requires
            self.well_formed(),
        ensures
            self@.dom().finite(),
            self@.dom().len() == self.node_count(),
    {
        if let Some(e) = self.root {
            e.lemma_node_count();
        }
    }

    /// An empty tree.
    pub fn new() -> (t: Self)
        ensures
            t.well_formed(),
            t@ == Map::<K, V>::empty(),
            t.node_count() == 0,
    {
        BinarySearchTree { root: None }
    }

    /// Puts `value` under `key`, replacing the value of a key already
    /// present. Only a new key adds a cell.
    pub fn insert(&mut self, key: K, value: V)
        requires
            old(self).well_formed(),
        ensures
            final(self).well_formed(),
            final(self)@ == old(self)@.insert(key, value),
            final(self).node_count() == if old(self)@.dom().contains(key) {
                old(self).node_count()
            } else {
                old(self).node_count() + 1
            },
    {
        proof {
            old(self).lemma_node_count();
        }
        match self.root.take() {
            None => {
                let e = Edge::from((key, value));
                assert(e.node.unwrap().left.entries() =~= Map::empty());
                assert(e.node.unwrap().right.entries() =~= Map::empty());
                assert(e.node.unwrap().left.is_ordered() && e.node.unwrap().right.is_ordered());
                assert(e.is_ordered());
                assert(e.entries() =~= old(self)@.insert(key, value));
                self.root = Some(e);
            },
            Some(mut e) => {
                e.insert(key, value);
                self.root = Some(e);
            },
        }
        proof {
            self.lemma_node_count();
        }
    }

    /// Removes `key` and its value; a key that is not present leaves the
    /// tree as it was. Removing a present key takes away one cell.
    pub fn delete(&mut self, key: K)
        requires
            old(self).well_formed(),
        ensures
            final(self).well_formed(),
            final(self)@ == old(self)@.remove(key),
            final(self).node_count() == if old(self)@.dom().contains(key) {
                old(self).node_count() - 1
            } else {
                old(self).node_count() as int
            },
            !old(self)@.dom().contains(key) ==> *final(self) == *old(self),
    {
        proof {
            old(self).lemma_node_count();
        }
        match self.root.take() {
            None => {
                assert(self@ =~= old(self)@.remove(key));
            },
            Some(mut e) => {
                e.delete(key);
                self.root = Some(e);
            },
        }
        proof {
            self.lemma_node_count();
        }
    }

    /// The number of cells in the tree.
    pub fn len(&self) -> (r: usize)
        requires
            self.node_count() <= usize::MAX,
        ensures
            r == self.node_count(),
    {
        match &self.root {
            None => 0,
            Some(e) => e.len(),
        }
    }
}

impl<K: TotalOrder, V: Copy> BinarySearchTree<K, V> {
    /// Looks `key` up and copies its value out.
    pub fn find(&self, key: K) -> (r: Option<V>)
        requires
            self.well_formed(),
        ensures
            r == lookup(self@, key),
    {
        match &self.root {
            None => None,
            Some(e) => e.find(key),
        }
    }
}

/// In a well-formed tree the in-order traversal meets each key of the tree
/// exactly once, in strictly increasing order. Since `new` gives a
/// well-formed tree and `insert` and `delete` keep it so, this holds after
/// any sequence of those calls.
pub proof fn law_in_order_sorted<K: TotalOrder, V>(t: BinarySearchTree<K, V>)
    requires
        t.well_formed(),
    ensures
        strictly_increasing(t.in_order()),
        forall|i: int| 0 <= i < t.in_order().len() ==> t@.dom().contains(#[trigger] t.in_order()[i]),
        t.in_order().len() == t@.dom().len(),
{
    t.lemma_node_count();
    if let Some(e) = t.root {
        e.lemma_in_order();
    }
}

/// After `insert(k, v)`, a lookup of `k` finds `v`.
pub proof fn law_insert_then_find<K: TotalOrder, V>(
    before: BinarySearchTree<K, V>,
    after: BinarySearchTree<K, V>,
    k: K,
    v: V,
)
    requires
        before.well_formed(),
        after@ == before@.insert(k, v),
    ensures
        lookup(after@, k) == Some(v),
{
}

/// Inserting `k` a second time leaves the later value in place and the
/// number of cells as it was after the first insertion.
pub proof fn law_overwrite<K: TotalOrder, V>(
    t0: BinarySearchTree<K, V>,
    t1: BinarySearchTree<K, V>,
    t2: BinarySearchTree<K, V>,
    k: K,
    v1: V,
    v2: V,
)
    requires
        t0.well_formed(),
        t1.well_formed(),
        t2.well_formed(),
        t1@ == t0@.insert(k, v1),
        t2@ == t1@.insert(k, v2),
    ensures
        lookup(t2@, k) == Some(v2),
        t2.node_count() == t1.node_count(),
{
    t1.lemma_node_count();
    t2.lemma_node_count();
    assert(t2@.dom() =~= t1@.dom());
}

/// After `insert(k, v)` and then `delete(k)`, a lookup of `k` finds nothing.
pub proof fn law_delete_after_insert<K: TotalOrder, V>(
    t0: BinarySearchTree<K, V>,
    t1: BinarySearchTree<K, V>,
    t2: BinarySearchTree<K, V>,
    k: K,
    v: V,
)
    requires
        t0.well_formed(),
        t1@ == t0@.insert(k, v),
        t2@ == t1@.remove(k),
    ensures
        lookup(t2@, k) == None::<V>,
{
}

impl<K, V> From<(K, V)> for Node<K, V> {
    /// A leaf cell holding one entry.
    fn from(key_val: (K, V)) -> (n: Self) {
        let (key, value) = key_val;
        Node { key, value, left: Edge { node: None }, right: Edge { node: None } }
    }
}

impl<K, V> vstd::std_specs::convert::FromSpecImpl<(K, V)> for Node<K, V> {
    open spec fn obeys_from_spec() -> bool {
        true
    }

    open spec fn from_spec(key_val: (K, V)) -> Self {
        Node { key: key_val.0, value: key_val.1, left: Edge { node: None }, right: Edge { node: None } }
    }
}

impl<K, V> From<Node<K, V>> for Edge<K, V> {
    /// A slot owning the given cell.
    fn from(node: Node<K, V>) -> (e: Self) {
        Edge { node: Some(Box::new(node)) }
    }
}

impl<K, V> vstd::std_specs::convert::FromSpecImpl<Node<K, V>> for Edge<K, V> {
    open spec fn obeys_from_spec() -> bool {
        true
    }

    open spec fn from_spec(node: Node<K, V>) -> Self {
        Edge { node: Some(Box::new(node)) }
    }
}

impl<K, V> From<(K, V)> for Edge<K, V> {
    /// A slot owning a leaf cell that holds one entry.
    fn from(key_val: (K, V)) -> (e: Self) {
        Edge::from(Node::from(key_val))
    }
}

impl<K, V> vstd::std_specs::convert::FromSpecImpl<(K, V)> for Edge<K, V> {
    open spec fn obeys_from_spec() -> bool {
        true
    }

    open spec fn from_spec(key_val: (K, V)) -> Self {
        Edge {
            node: Some(
                Box::new(
                    Node {
                        key: key_val.0,
                        value: key_val.1,
                        left: Edge { node: None },
                        right: Edge { node: None },
                    },
                ),
            ),
        }
    }
}

} // verus!
