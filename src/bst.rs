use vstd::prelude::*;

use crate::inserted;

verus! {

/// A node of the unbalanced search tree: an empty slot, or a key, its value
/// and two subtrees.
#[derive(Debug)]
pub enum BSTNode<V> {
    Empty,
    Node(i64, V, Box<BSTNode<V>>, Box<BSTNode<V>>),
}

impl<V> BSTNode<V> {
    /// The key/value pairs stored in this subtree.
    pub open spec fn as_map(self) -> Map<i64, V>
        decreases self,
    {
        match self {
            BSTNode::Empty => Map::empty(),
            BSTNode::Node(k, v, left, right) => left.as_map().union_prefer_right(
                right.as_map(),
            ).insert(k, v),
        }
    }

    pub open spec fn height(self) -> nat
        decreases self,
    {
        match self {
            BSTNode::Empty => 0,
            BSTNode::Node(_, _, left, right) => 1 + vstd::math::max(
                left.height() as int,
                right.height() as int,
            ) as nat,
        }
    }

    /// Keys on the left are smaller than the node's key, keys on the right larger.
    pub open spec fn wf(self) -> bool
        decreases self,
    {
        match self {
            BSTNode::Empty => true,
            BSTNode::Node(k, _, left, right) => {
                &&& forall|x: i64| #[trigger] left.as_map().contains_key(x) ==> x < k
                &&& forall|x: i64| #[trigger] right.as_map().contains_key(x) ==> k < x
                &&& left.wf()
                &&& right.wf()
            },
        }
    }

    /// Adds `key` with `value` below this node, unless `key` is present already.
    pub fn insert(&mut self, key: i64, value: V)
        requires
            old(self).wf(),
        ensures
            final(self).inserted_into(*old(self), key, value),
            old(self).as_map().contains_key(key) ==> *final(self) == *old(self),
    {
        proof {
            if old(self).as_map().contains_key(key) {
                Self::lemma_present_unchanged(*old(self), key, value);
            }
        }
        let mut current = self;
        loop
            invariant_except_break
                current.wf(),
                (*final(current)).inserted_into(*current, key, value) ==> (*final(self)).inserted_into(*old(self), key, value),
            ensures
                (*final(self)).inserted_into(*old(self), key, value),
            decreases current.height(),
        {
            let ghost c0 = *current;
            if current.is_empty() {
                *current = BSTNode::Node(key, value, Box::new(BSTNode::Empty), Box::new(BSTNode::Empty));
                assert(BSTNode::<V>::Empty.as_map() =~= Map::<i64, V>::empty());
                assert(current.as_map() =~= inserted(c0.as_map(), key, value));
                break;
            } else if let BSTNode::Node(k, _, left, right) = current {
                if key < *k {
                    proof {
                        Self::lemma_descend(c0, key, value);
                    }
                    current = &mut **left;
                } else if *k < key {
                    proof {
                        Self::lemma_descend(c0, key, value);
                    }
                    current = &mut **right;
                } else {
                    break;
                }
            }
        }
    }

    /// The tree after inserting `key` with `value`: a new leaf in the empty
    /// slot that the search reaches, nothing else moved. A key that is present
    /// already leaves the tree as it is.
    pub open spec fn bst_inserted(self, key: i64, value: V) -> Self
        decreases self,
    {
        match self {
            BSTNode::Empty => BSTNode::Node(key, value, Box::new(BSTNode::Empty), Box::new(BSTNode::Empty)),
            BSTNode::Node(k, v, left, right) => if key < k {
                BSTNode::Node(k, v, Box::new(left.bst_inserted(key, value)), right)
            } else if k < key {
                BSTNode::Node(k, v, left, Box::new(right.bst_inserted(key, value)))
            } else {
                self
            },
        }
    }

    /// This subtree is `o` after inserting `key` with `value`: a search tree
    /// holding `o`'s pairs, plus `key` with `value` unless `o` holds `key`
    /// already.
    pub open spec fn inserted_into(self, o: Self, key: i64, value: V) -> bool {
        &&& self == o.bst_inserted(key, value)
        &&& self.wf()
        &&& self.as_map() == inserted(o.as_map(), key, value)
    }

    /// Inserting a key that a search tree holds already changes nothing.
    pub proof fn lemma_present_unchanged(t: Self, key: i64, value: V)
        requires
            t.wf(),
            t.as_map().contains_key(key),
        ensures
            t.bst_inserted(key, value) == t,
        decreases t,
    {
        if let BSTNode::Node(k, _, left, right) = t {
            if key < k {
                assert(!right.as_map().contains_key(key));
                Self::lemma_present_unchanged(*left, key, value);
            } else if k < key {
                assert(!left.as_map().contains_key(key));
                Self::lemma_present_unchanged(*right, key, value);
            }
        }
    }

    /// Inserting into the subtree that the search descends to, and keeping the
    /// node, inserts into the node.
    pub proof fn lemma_descend(c: Self, key: i64, value: V)
        requires
            c.wf(),
            c is Node,
            key != c->0,
        ensures
            key < c->0 ==> forall|n: Self| #[trigger] n.inserted_into(*c->2, key, value)
                ==> BSTNode::Node(c->0, c->1, Box::new(n), c->3).inserted_into(c, key, value),
            c->0 < key ==> forall|n: Self| #[trigger] n.inserted_into(*c->3, key, value)
                ==> BSTNode::Node(c->0, c->1, c->2, Box::new(n)).inserted_into(c, key, value),
    {
        let ol = *c->2;
        let or = *c->3;
        if key < c->0 {
            assert forall|n: Self| #[trigger] n.inserted_into(ol, key, value)
                implies BSTNode::Node(c->0, c->1, Box::new(n), c->3).inserted_into(c, key, value) by {
                assert(!or.as_map().contains_key(key));
                assert forall|x: i64| #[trigger] n.as_map().contains_key(x) implies x < c->0 by {
                    if x != key {
                        assert(ol.as_map().contains_key(x));
                    }
                }
                assert(BSTNode::Node(c->0, c->1, Box::new(n), c->3).as_map() =~= inserted(c.as_map(), key, value));
            }
        } else {
            assert forall|n: Self| #[trigger] n.inserted_into(or, key, value)
                implies BSTNode::Node(c->0, c->1, c->2, Box::new(n)).inserted_into(c, key, value) by {
                assert(!ol.as_map().contains_key(key));
                assert forall|x: i64| #[trigger] n.as_map().contains_key(x) implies c->0 < x by {
                    if x != key {
                        assert(or.as_map().contains_key(x));
                    }
                }
                assert(BSTNode::Node(c->0, c->1, c->2, Box::new(n)).as_map() =~= inserted(c.as_map(), key, value));
            }
        }
    }

    /// Looks `key` up by descending from this node.
    pub fn find<'a>(&'a self, key: &i64) -> (r: Option<&'a V>)
        requires
            self.wf(),
        ensures
            r == if self.as_map().contains_key(*key) {
                Some(&self.as_map()[*key])
            } else {
                None
            },
    {
        let mut current: &BSTNode<V> = self;
        loop
            invariant
                current.wf(),
                self.as_map().contains_key(*key) == current.as_map().contains_key(*key),
                current.as_map().contains_key(*key) ==> self.as_map()[*key]
                    == current.as_map()[*key],
            decreases current.height(),
        {
            if current.is_empty() {
                return None;
            } else if let BSTNode::Node(k, v, left, right) = current {
                if *k == *key {
                    return Some(v);
                } else if *k < *key {
                    proof {
                        assert(!left.as_map().contains_key(*key));
                    }
                    current = &**right;
                } else {
                    proof {
                        assert(!right.as_map().contains_key(*key));
                    }
                    current = &**left;
                }
            }
        }
    }

    pub fn is_empty(&self) -> (r: bool)
        ensures
            r == (*self is Empty),
    {
        match self {
            BSTNode::Empty => true,
            _ => false,
        }
    }
}

/// An unbalanced binary search tree, kept as a baseline to compare the treap with.
#[derive(Debug)]
pub struct BST<V>(BSTNode<V>);

impl<V> View for BST<V> {
    type V = Map<i64, V>;

    open spec fn view(&self) -> Map<i64, V> {
        self.node().as_map()
    }
}

impl<V> BST<V> {
    pub closed spec fn node(self) -> BSTNode<V> {
        self.0
    }

    pub open spec fn wf(self) -> bool {
        self.node().wf()
    }

    pub fn new() -> (t: Self)
        ensures
            t.wf(),
            t.node() == BSTNode::<V>::Empty,
            t@ == Map::<i64, V>::empty(),
    {
        BST(BSTNode::Empty)
    }

    /// Adds `key` with `value`; a key that is present already keeps its value.
    pub fn insert(&mut self, key: i64, value: V)
        requires
            old(self).wf(),
        ensures
            final(self).wf(),
            final(self).node() == old(self).node().bst_inserted(key, value),
            final(self)@ == inserted(old(self)@, key, value),
            old(self)@.contains_key(key) ==> *final(self) == *old(self),
    {
        self.0.insert(key, value);
    }

    pub fn find<'a>(&'a self, key: &i64) -> (r: Option<&'a V>)
        requires
            self.wf(),
        ensures
            r == if self@.contains_key(*key) {
                Some(&self@[*key])
            } else {
                None
            },
    {
        self.0.find(key)
    }
}

} // verus!
