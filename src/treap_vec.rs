use vstd::prelude::*;

use crate::TreapNode as Tree;

verus! {

/// A slot of the arena: an empty subtree or an occupied node. Both record the
/// index of their parent; children are indices too.
#[derive(Debug)]
pub enum TreapNode<V> {
    Empty(Option<usize>),
    Node { parent: Option<usize>, key: i64, weight: i64, value: V, left: usize, right: usize },
}

impl<V> TreapNode<V> {
    pub open spec fn parent_of(self) -> Option<usize> {
        match self {
            TreapNode::Empty(p) => p,
            TreapNode::Node { parent, .. } => parent,
        }
    }

    pub open spec fn with_parent(self, p: Option<usize>) -> Self {
        match self {
            TreapNode::Empty(_) => TreapNode::Empty(p),
            TreapNode::Node { key, weight, value, left, right, .. } => TreapNode::Node {
                parent: p,
                key,
                weight,
                value,
                left,
                right,
            },
        }
    }

    pub fn is_empty(&self) -> (r: bool)
        ensures
            r == (*self is Empty),
    {
        match self {
            TreapNode::Empty(_) => true,
            _ => false,
        }
    }

    pub fn parent_idx(&self) -> (r: Option<usize>)
        ensures
            r == self.parent_of(),
    {
        match self {
            Self::Empty(p) => *p,
            Self::Node { parent, .. } => *parent,
        }
    }

    pub fn parent_mut(&mut self) -> (r: &mut Option<usize>)
        ensures
            *r == old(self).parent_of(),
            *final(self) == old(self).with_parent(*final(r)),
    {
        match self {
            Self::Empty(p) => p,
            Self::Node { parent, .. } => parent,
        }
    }

    pub fn children_idx(&self) -> (r: Option<(usize, usize)>)
        ensures
            r == match *self {
                TreapNode::Node { left, right, .. } => Some((left, right)),
                TreapNode::Empty(_) => None,
            },
    {
        match self {
            Self::Empty(_) => None,
            Self::Node { left, right, .. } => Some((*left, *right)),
        }
    }

    pub fn weight(&self) -> (r: Option<&i64>)
        ensures
            r == match *self {
                TreapNode::Node { weight, .. } => Some(&weight),
                TreapNode::Empty(_) => None,
            },
    {
        match self {
            TreapNode::Empty(_) => None,
            TreapNode::Node { weight, .. } => Some(weight),
        }
    }

    pub fn take(&mut self) -> (r: Self)
        ensures
            r == *old(self),
            *final(self) == TreapNode::<V>::Empty(None),
    {
        let mut r = Self::Empty(None);
        core::mem::swap(self, &mut r);
        r
    }
}

/// Slot `i` agrees with `shape`, the subtree that each slot stands for: an
/// empty slot stands for the empty tree, an occupied one for a node whose
/// subtrees are those of its two (distinct, in range) children, and each
/// child records `i` as its parent.
pub open spec fn slot_ok<V>(nodes: Seq<TreapNode<V>>, shape: Map<int, Tree<V>>, i: int) -> bool {
    &&& shape.contains_key(i)
    &&& match nodes[i] {
        TreapNode::Empty(_) => shape[i] == Tree::<V>::Empty,
        TreapNode::Node { key, weight, value, left, right, .. } => {
            &&& left < nodes.len()
            &&& right < nodes.len()
            &&& left != right
            &&& nodes[left as int].parent_of() == Some(i as usize)
            &&& nodes[right as int].parent_of() == Some(i as usize)
            &&& shape[i] == Tree::Node {
                key,
                weight,
                value,
                left: Box::new(shape[left as int]),
                right: Box::new(shape[right as int]),
            }
        },
    }
}

/// Slot `b` is the child of slot `a` that a search for `key` descends to.
pub open spec fn step_ok<V>(nodes: Seq<TreapNode<V>>, a: int, b: int, key: i64) -> bool {
    &&& nodes[a] is Node
    &&& nodes[b].parent_of() == Some(a as usize)
    &&& if key < nodes[a]->key {
        b == nodes[a]->left as int
    } else {
        nodes[a]->key < key && b == nodes[a]->right as int
    }
}

/// The other child of slot `a`, beside `b`.
pub open spec fn sibling<V>(nodes: Seq<TreapNode<V>>, a: int, b: int) -> int {
    if b == nodes[a]->left as int {
        nodes[a]->right as int
    } else {
        nodes[a]->left as int
    }
}

/// `path` runs from the root slot down the children that a search for `key`
/// takes, each slot once.
pub open spec fn search_path<V>(nodes: Seq<TreapNode<V>>, path: Seq<int>, key: i64) -> bool {
    &&& path.len() >= 1
    &&& path[0] == 0
    &&& path.no_duplicates()
    &&& forall|k: int| 0 <= k < path.len() ==> 0 <= #[trigger] path[k] < nodes.len()
    &&& forall|k: int| 0 <= k < path.len() - 1 ==> #[trigger] step_at(nodes, path, k, key)
}

/// Step `k` of `path` is a step of the search for `key`.
pub open spec fn step_at<V>(nodes: Seq<TreapNode<V>>, path: Seq<int>, k: int, key: i64) -> bool {
    step_ok(nodes, path[k], path[k + 1], key)
}

/// The first `m` slots of `path`.
pub open spec fn prefix_set(path: Seq<int>, m: int) -> Set<int> {
    Set::new(|i: int| exists|k: int| 0 <= k < m && #[trigger] path[k] == i)
}

/// `f` is `n` after promoting the left child of slot `p`: the child's
/// contents move into slot `p`, the old contents of `p` move into the child's
/// slot, and the three subtrees that change parent record it.
pub open spec fn rotated_right_at<V>(n: Seq<TreapNode<V>>, f: Seq<TreapNode<V>>, p: int) -> bool {
    let z = n[p];
    let l = z->left;
    let x = n[l as int];
    &&& f[p] == TreapNode::Node { parent: z.parent_of(), key: x->key, weight: x->weight, value: x->value, left: x->left, right: l }
    &&& f[l as int] == TreapNode::Node { parent: Some(p as usize), key: z->key, weight: z->weight, value: z->value, left: x->right, right: z->right }
    &&& f[x->left as int].parent_of() == Some(p as usize)
    &&& f[x->right as int].parent_of() == Some(l)
    &&& f[z->right as int].parent_of() == Some(l)
}

/// `f` is `n` after promoting the right child of slot `p`, the mirror image
/// of `rotated_right_at`.
pub open spec fn rotated_left_at<V>(n: Seq<TreapNode<V>>, f: Seq<TreapNode<V>>, p: int) -> bool {
    let z = n[p];
    let r = z->right;
    let x = n[r as int];
    &&& f[p] == TreapNode::Node { parent: z.parent_of(), key: x->key, weight: x->weight, value: x->value, left: r, right: x->right }
    &&& f[r as int] == TreapNode::Node { parent: Some(p as usize), key: z->key, weight: z->weight, value: z->value, left: z->left, right: x->left }
    &&& f[z->left as int].parent_of() == Some(r)
    &&& f[x->left as int].parent_of() == Some(r)
    &&& f[x->right as int].parent_of() == Some(p as usize)
}

/// A treap whose nodes live in one vector and point at each other by index.
/// Slot 0 is the root.
pub struct Treap<V> {
    nodes: Vec<TreapNode<V>>,
    shape: Ghost<Map<int, Tree<V>>>,
}

impl<V> View for Treap<V> {
    type V = Map<i64, V>;

    open spec fn view(&self) -> Map<i64, V> {
        self.tree().as_map()
    }
}

impl<V> Treap<V> {
    /// The tree that the arena holds, from the root.
    pub closed spec fn tree(self) -> Tree<V> {
        self.shape@[0]
    }

    /// The number of slots in the arena, empty ones included.
    pub closed spec fn slot_count(self) -> nat {
        self.nodes@.len()
    }

    /// The slots of the arena, in index order.
    pub closed spec fn slot_seq(self) -> Seq<TreapNode<V>> {
        self.nodes@
    }

    /// The slots of the arena, for inspection.
    pub fn slots(&self) -> (r: &Vec<TreapNode<V>>)
        ensures
            r@ == self.slot_seq(),
            r@.len() == self.slot_count(),
    {
        &self.nodes
    }

    pub closed spec fn slots_ok(self) -> bool {
        &&& 0 < self.nodes@.len() <= usize::MAX
        &&& self.nodes@[0].parent_of() == None::<usize>
        &&& forall|i: int| 0 <= i < self.nodes@.len() ==> slot_ok(self.nodes@, self.shape@, i)
    }

    pub open spec fn wf(self) -> bool {
        self.slots_ok() && self.tree().wf()
    }

    pub fn new() -> (t: Self)
        ensures
            t.wf(),
            t.tree() == Tree::<V>::Empty,
            t.slot_count() == 1,
            t@ == Map::<i64, V>::empty(),
    {
        let t = Treap {
            nodes: vec![TreapNode::Empty(None)],
            shape: Ghost(Map::empty().insert(0, Tree::Empty)),
        };
        assert(slot_ok(t.nodes@, t.shape@, 0));
        t
    }

    /// An empty treap with room for `cap` slots before the vector grows.
    pub fn with_capacity(cap: usize) -> (t: Self)
        ensures
            t.wf(),
            t.tree() == Tree::<V>::Empty,
            t.slot_count() == 1,
            t@ == Map::<i64, V>::empty(),
    {
        let mut v = Vec::with_capacity(cap);
        v.push(TreapNode::Empty(None));
        let t = Treap { nodes: v, shape: Ghost(Map::empty().insert(0, Tree::Empty)) };
        assert(slot_ok(t.nodes@, t.shape@, 0));
        t
    }

    pub fn find<'a>(&'a self, find_key: &i64) -> (r: Option<&'a V>)
        requires
            self.wf(),
        ensures
            r == if self@.contains_key(*find_key) {
                Some(&self@[*find_key])
            } else {
                None
            },
    {
        let ghost shape = self.shape@;
        let mut current: usize = 0;
        loop
            invariant
                self.wf(),
                current < self.nodes@.len(),
                shape == self.shape@,
                shape[current as int].bst(),
                self@.contains_key(*find_key) == shape[current as int].as_map().contains_key(
                    *find_key,
                ),
                shape[current as int].as_map().contains_key(*find_key) ==> self@[*find_key]
                    == shape[current as int].as_map()[*find_key],
            decreases shape[current as int].height(),
        {
            proof {
                assert(slot_ok(self.nodes@, shape, current as int));
            }
            let next;
            match &self.nodes[current] {
                TreapNode::Empty(_) => return None,
                TreapNode::Node { key, left, right, value, .. } => {
                    next = if *find_key < *key {
                        proof {
                            assert(!shape[*right as int].as_map().contains_key(*find_key));
                        }
                        *left
                    } else if *key < *find_key {
                        proof {
                            assert(!shape[*left as int].as_map().contains_key(*find_key));
                        }
                        *right
                    } else {
                        return Some(value);
                    };
                },
            }
            current = next;
        }
    }

    /// Adds `ikey` with `iweight` and `ival`: a search finds the empty slot
    /// where the key belongs, the new node takes it, and the walk back up the
    /// parent links rotates it above every heavier ancestor. A key that is
    /// present already leaves the treap as it was.
    pub fn insert(&mut self, ikey: i64, iweight: i64, ival: V)
        requires
            old(self).wf(),
        ensures
            final(self).wf(),
            final(self).tree() == old(self).tree().inserted_tree(ikey, iweight, ival),
            final(self)@ == crate::inserted(old(self)@, ikey, ival),
            old(self)@.contains_key(ikey) ==> *final(self) == *old(self),
            final(self).slot_count() == old(self).slot_count() + if old(self)@.contains_key(ikey) {
                0nat
            } else {
                2nat
            },
    {
        let ghost n0 = self.nodes@;
        let ghost sh0 = self.shape@;
        let mut current: usize = 0;
        let mut curr_parent: Option<usize> = None;
        let ghost mut path: Seq<int> = seq![0int];
        proof {
            assert(slot_ok(n0, sh0, 0));
        }
        while !self.nodes[current].is_empty()
            invariant
                self.nodes@ == n0,
                self.shape@ == sh0,
                n0.len() <= usize::MAX,
                *self == *old(self),
                self.wf(),
                search_path(n0, path, ikey),
                path.last() == current as int,
                curr_parent == n0[current as int].parent_of(),
                forall|k: int| 0 <= k < path.len() ==> (#[trigger] sh0[path[k]]).wf(),
                sh0[0].as_map().contains_key(ikey) == sh0[current as int].as_map().contains_key(ikey),
            decreases sh0[current as int].height(),
        {
            proof {
                assert(slot_ok(n0, sh0, current as int));
            }
            let (ckey, left, right) = match &self.nodes[current] {
                TreapNode::Node { key, left, right, .. } => (*key, *left, *right),
                TreapNode::Empty(_) => (0, 0, 0),
            };
            let next = if ikey < ckey {
                proof {
                    assert(!sh0[right as int].as_map().contains_key(ikey));
                }
                left
            } else if ckey < ikey {
                proof {
                    assert(!sh0[left as int].as_map().contains_key(ikey));
                }
                right
            } else {
                proof {
                    crate::lemma_inserted_tree(sh0[0], ikey, iweight, ival);
                }
                return ;
            };
            proof {
                let old_path = path;
                assert(n0[next as int].parent_of() == Some(current as usize));
                assert(n0[0].parent_of() == None::<usize>);
                assert forall|k: int| 0 <= k < old_path.len() implies old_path[k] != next as int by {
                    if old_path[k] == next as int {
                        if k == 0 {
                            assert(n0[0].parent_of() == None::<usize>);
                        } else {
                            assert(step_at(n0, old_path, k - 1, ikey));
                            assert(old_path[k - 1] == old_path[old_path.len() - 1]);
                        }
                    }
                }
                path = old_path.push(next as int);
                assert(step_ok(n0, old_path.last(), next as int, ikey));
                assert forall|k: int| 0 <= k < path.len() - 1 implies #[trigger] step_at(n0, path, k, ikey) by {
                    if k < old_path.len() - 1 {
                        assert(step_at(n0, old_path, k, ikey));
                    }
                }
                assert forall|k: int| 0 <= k < path.len() implies (#[trigger] sh0[path[k]]).wf() by {
                    if k < old_path.len() {
                        assert(sh0[old_path[k]].wf());
                    }
                }
            }
            curr_parent = Some(current);
            current = next;
        }
        // `current` is the empty slot where the key belongs.
        let ghost full = path;
        let ghost leaf = Tree::Node {
            key: ikey,
            weight: iweight,
            value: ival,
            left: Box::new(Tree::Empty),
            right: Box::new(Tree::Empty),
        };
        proof {
            assert(slot_ok(n0, sh0, current as int));
            assert(!old(self)@.contains_key(ikey));
        }
        self.nodes.push(TreapNode::Empty(Some(current)));
        self.nodes.push(TreapNode::Empty(Some(current)));
        let left = self.nodes.len() - 1;
        let right = self.nodes.len() - 2;
        self.nodes.set(current, TreapNode::Node {
            parent: curr_parent,
            key: ikey,
            weight: iweight,
            value: ival,
            left,
            right,
        });
        self.shape = Ghost(sh0.insert(left as int, Tree::Empty).insert(right as int, Tree::Empty).insert(current as int, leaf));
        let ghost mut m: int = full.len() as int;
        proof {
            let nn = self.nodes@;
            let stale = prefix_set(full, m - 1);
            assert(leaf.as_map() =~= crate::inserted(sh0[current as int].as_map(), ikey, ival)) by {
                assert(Tree::<V>::Empty.as_map() =~= Map::<i64, V>::empty());
            }
            assert forall|i: int| 0 <= i < nn.len() && !stale.contains(i) implies slot_ok(nn, self.shape@, i) by {
                if i != current as int && i < n0.len() {
                    assert(slot_ok(n0, sh0, i));
                    if n0[i] is Node {
                        let c1 = n0[i]->left as int;
                        let c2 = n0[i]->right as int;
                        if c1 == current as int || c2 == current as int {
                            if m >= 2 {
                                assert(step_at(n0, full, m - 2, ikey));
                                assert(stale.contains(full[m - 2]));
                            } else {
                                assert(n0[0].parent_of() == None::<usize>);
                            }
                        }
                    }
                }
            }
            assert forall|k: int| 0 <= k < m - 1 implies nn[#[trigger] full[k]] == n0[full[k]] by {
                assert(full[k] != current as int);
            }
            assert forall|k: int| 0 <= k < m - 1 implies {
                let sb = #[trigger] sibling(n0, full[k], full[k + 1]);
                &&& nn[sb] == n0[sb]
                &&& self.shape@[sb] == sh0[sb]
            } by {
                assert(step_at(n0, full, k, ikey));
                assert(slot_ok(n0, sh0, full[k]));
                let sb = sibling(n0, full[k], full[k + 1]);
                if sb == current as int {
                    assert(step_at(n0, full, m - 2, ikey));
                    assert(full[k] == full[m - 2]);
                }
            }
        }
        proof {
            if m >= 2 {
                assert(step_at(n0, full, m - 2, ikey));
            } else {
                assert(n0[0].parent_of() == None::<usize>);
            }
            assert(self.nodes@[current as int].parent_of() == curr_parent);
        }
        loop
            invariant
                2 <= self.nodes@.len() == n0.len() + 2,
                self.nodes@.len() <= usize::MAX,
                n0 == old(self).nodes@,
                sh0 == old(self).shape@,
                old(self).wf(),
                !old(self)@.contains_key(ikey),
                search_path(n0, full, ikey),
                1 <= m <= full.len(),
                full[m - 1] == current as int,
                forall|k: int| 0 <= k < full.len() ==> (#[trigger] sh0[full[k]]).wf(),
                forall|k: int| 0 <= k < m - 1 ==> self.nodes@[#[trigger] full[k]] == n0[full[k]],
                forall|k: int| 0 <= k < m - 1 ==> {
                    let sb = #[trigger] sibling(n0, full[k], full[k + 1]);
                    &&& self.nodes@[sb] == n0[sb]
                    &&& self.shape@[sb] == sh0[sb]
                },
                self.nodes@[current as int].parent_of() == if m == 1 {
                    None
                } else {
                    Some(full[m - 2] as usize)
                },
                forall|i: int|
                    0 <= i < self.nodes@.len() && !prefix_set(full, m - 1).contains(i) ==> slot_ok(
                        self.nodes@,
                        self.shape@,
                        i,
                    ),
                self.shape@[current as int].insert_post(sh0[current as int], ikey, iweight, ival),
                self.shape@[current as int] == sh0[current as int].inserted_tree(ikey, iweight, ival),
            ensures
                m == 1,
            decreases m,
        {
            let parent = self.nodes[current].parent_idx();
            let parent_idx = if let Some(p) = parent {
                p
            } else {
                break;
            };
            let ghost stale = prefix_set(full, m - 1);
            let ghost p = full[m - 2];
            proof {
                assert(parent_idx as int == p);
                assert(step_at(n0, full, m - 2, ikey));
                assert(slot_ok(n0, sh0, p));
                assert(self.nodes@[p] == n0[p]);
                let sb = sibling(n0, p, current as int);
                assert(self.nodes@[sb] == n0[sb]);
                assert(stale.contains(p)) by {
                    assert(full[m - 2] == p);
                }
                assert(!stale.contains(current as int));
                assert(!stale.contains(sb)) by {
                    if stale.contains(sb) {
                        let k = choose|k: int| 0 <= k < m - 1 && #[trigger] full[k] == sb;
                        if k == 0 {
                            assert(n0[0].parent_of() == None::<usize>);
                        } else {
                            assert(step_at(n0, full, k - 1, ikey));
                        }
                    }
                }
                assert forall|q: int| #[trigger] stale.contains(q) implies 0 <= q < self.nodes@.len() && (
                    self.nodes@[q].parent_of() is None || stale.contains(self.nodes@[q].parent_of().unwrap() as int)) by {
                    let k = choose|k: int| 0 <= k < m - 1 && #[trigger] full[k] == q;
                    assert(self.nodes@[full[k]] == n0[full[k]]);
                    if k == 0 {
                        assert(n0[0].parent_of() == None::<usize>);
                    } else {
                        assert(step_at(n0, full, k - 1, ikey));
                        assert(stale.contains(full[k - 1]));
                    }
                }
                assert(self.ready_at(p, stale));
            }
            let ghost pre_nodes = self.nodes@;
            let ghost pre_shape = self.shape@;
            self.restore_heap_property(parent_idx, Ghost(stale));
            proof {
                let o = sh0[p];
                let cur = current as int;
                let sb = sibling(n0, p, cur);
                let l = n0[p]->left as int;
                let r = n0[p]->right as int;
                assert(o.wf());
                assert(pre_shape[sb] == sh0[sb]);
                let joined = Tree::Node {
                    key: n0[p]->key,
                    weight: n0[p]->weight,
                    value: n0[p]->value,
                    left: Box::new(pre_shape[l]),
                    right: Box::new(pre_shape[r]),
                };
                assert(self.shape@[p] == joined.restored());
                if ikey < n0[p]->key {
                    assert(cur == l && sb == r);
                    Tree::<V>::lemma_insert_left(o, pre_shape[cur], ikey, iweight, ival);
                    if !joined.left_violates() {
                        assert(!joined.right_violates());
                    }
                    assert(joined.restored() == joined.restored_left());
                } else {
                    assert(cur == r && sb == l);
                    Tree::<V>::lemma_insert_right(o, pre_shape[cur], ikey, iweight, ival);
                    assert(!joined.left_violates());
                    assert(joined.restored() == joined.restored_right());
                }
                assert(self.shape@[p].insert_post(sh0[p], ikey, iweight, ival));
                assert(self.shape@[p] == sh0[p].inserted_tree(ikey, iweight, ival));
                assert forall|k: int| 0 <= k < m - 2 implies self.nodes@[#[trigger] full[k]] == n0[full[k]] by {
                    assert(stale.contains(full[k]));
                    assert(full[k] != p);
                }
                assert forall|k: int| 0 <= k < m - 2 implies {
                    let sbk = #[trigger] sibling(n0, full[k], full[k + 1]);
                    &&& self.nodes@[sbk] == n0[sbk]
                    &&& self.shape@[sbk] == sh0[sbk]
                } by {
                    let sbk = sibling(n0, full[k], full[k + 1]);
                    assert(step_at(n0, full, k, ikey));
                    assert(slot_ok(n0, sh0, full[k]));
                    assert(n0[sbk].parent_of() == Some(full[k] as usize));
                    assert(full[k] != cur);
                    assert(stale.contains(full[k]));
                    assert(full[k] != sb);
                    if sbk == p {
                        assert(step_at(n0, full, m - 3, ikey));
                        assert(full[k] == full[m - 3]);
                    }
                    if sbk == l || sbk == r {
                        assert(full[k] == p);
                    }
                    assert(pre_nodes[sbk] == n0[sbk]);
                }
                if m >= 3 {
                    assert(step_at(n0, full, m - 3, ikey));
                } else {
                    assert(n0[0].parent_of() == None::<usize>);
                }
                assert forall|i: int|
                    0 <= i < self.nodes@.len() && !prefix_set(full, m - 2).contains(i) implies slot_ok(
                        self.nodes@,
                        self.shape@,
                        i,
                    ) by {
                    if stale.contains(i) && i != p {
                        let k = choose|k: int| 0 <= k < m - 1 && #[trigger] full[k] == i;
                        assert(k != m - 2);
                        assert(prefix_set(full, m - 2).contains(i));
                    }
                }
            }
            proof {
                m = m - 1;
            }
            current = parent_idx;
        }
    }

    /// The key at the root, if the treap is not empty.
    pub fn root_key(&self) -> (r: Option<i64>)
        requires
            self.wf(),
        ensures
            r == match self.tree() {
                Tree::Node { key, .. } => Some(key),
                Tree::Empty => None,
            },
    {
        proof {
            assert(slot_ok(self.nodes@, self.shape@, 0));
        }
        match &self.nodes[0] {
            TreapNode::Node { key, .. } => Some(*key),
            TreapNode::Empty(_) => None,
        }
    }

    /// The keys in in-order traversal order.
    pub fn keys_in_order(&self) -> (r: Vec<i64>)
        requires
            self.wf(),
        ensures
            r@ == self.tree().in_order(),
    {
        let mut out: Vec<i64> = Vec::new();
        self.collect_keys(0, &mut out);
        assert(out@ =~= self.tree().in_order());
        out
    }

    fn collect_keys(&self, i: usize, out: &mut Vec<i64>)
        requires
            self.slots_ok(),
            i < self.nodes@.len(),
        ensures
            final(out)@ == old(out)@ + self.shape@[i as int].in_order(),
        decreases self.shape@[i as int].height(),
    {
        proof {
            assert(slot_ok(self.nodes@, self.shape@, i as int));
        }
        match &self.nodes[i] {
            TreapNode::Empty(_) => {
                assert(out@ =~= old(out)@ + self.shape@[i as int].in_order());
            },
            TreapNode::Node { key, left, right, .. } => {
                let ghost l = self.shape@[*left as int].in_order();
                let ghost r = self.shape@[*right as int].in_order();
                self.collect_keys(*left, out);
                out.push(*key);
                self.collect_keys(*right, out);
                assert(out@ =~= old(out)@ + self.shape@[i as int].in_order());
            },
        }
    }


    /// Slot `p` stands for a node whose two children agree with `shape`, while
    /// slots in `stale` (which holds `p` and its ancestors, but not its
    /// children, and holds the parent of each of its slots) may lag behind.
    pub closed spec fn ready_at(self, p: int, stale: Set<int>) -> bool {
        &&& 0 <= p < self.nodes@.len() <= usize::MAX
        &&& self.nodes@[p] is Node
        &&& stale.contains(p)
        &&& !stale.contains(self.nodes@[p]->left as int)
        &&& !stale.contains(self.nodes@[p]->right as int)
        &&& self.nodes@[p]->left < self.nodes@.len()
        &&& self.nodes@[p]->right < self.nodes@.len()
        &&& self.nodes@[p]->left != self.nodes@[p]->right
        &&& self.nodes@[self.nodes@[p]->left as int].parent_of() == Some(p as usize)
        &&& self.nodes@[self.nodes@[p]->right as int].parent_of() == Some(p as usize)
        &&& forall|q: int| #[trigger]
            stale.contains(q) ==> 0 <= q < self.nodes@.len() && (self.nodes@[q].parent_of() is None
                || stale.contains(self.nodes@[q].parent_of().unwrap() as int))
        &&& forall|i: int|
            0 <= i < self.nodes@.len() && !stale.contains(i) ==> slot_ok(
                self.nodes@,
                self.shape@,
                i,
            )
    }

    /// The node at `p` as `shape` sees its children, before any rotation.
    pub closed spec fn joined_at(self, p: int) -> Tree<V> {
        Tree::Node {
            key: self.nodes@[p]->key,
            weight: self.nodes@[p]->weight,
            value: self.nodes@[p]->value,
            left: Box::new(self.shape@[self.nodes@[p]->left as int]),
            right: Box::new(self.shape@[self.nodes@[p]->right as int]),
        }
    }

    /// Promotes a child of slot `p` that is lighter than it, the left one
    /// first. The subtree keeps its slot: the promoted node's contents move
    /// into slot `p` and the demoted node's into the child's slot.
    fn restore_heap_property(&mut self, parent_idx: usize, Ghost(stale): Ghost<Set<int>>) -> (r: ShouldRestore)
        requires
            parent_idx < old(self).nodes@.len(),
            old(self).nodes@[parent_idx as int] is Node ==> old(self).ready_at(parent_idx as int, stale),
        ensures
            old(self).nodes@[parent_idx as int] is Empty ==> r is Nothing && *final(self) == *old(self),
            old(self).nodes@[parent_idx as int] is Node ==> {
                &&& r is Left <==> old(self).joined_at(parent_idx as int).left_violates()
                &&& r is Right <==> !old(self).joined_at(parent_idx as int).left_violates()
                    && old(self).joined_at(parent_idx as int).right_violates()
                &&& r is Nothing ==> final(self).nodes@ == old(self).nodes@
                &&& r is Left ==> rotated_right_at(old(self).nodes@, final(self).nodes@, parent_idx as int)
                &&& r is Right ==> rotated_left_at(old(self).nodes@, final(self).nodes@, parent_idx as int)
                &&& final(self).nodes@.len() == old(self).nodes@.len()
                &&& final(self).shape@[parent_idx as int] == old(self).joined_at(parent_idx as int).restored()
                &&& final(self).nodes@[parent_idx as int].parent_of() == old(self).nodes@[parent_idx as int].parent_of()
            },
            old(self).nodes@[parent_idx as int] is Node ==> forall|i: int| #[trigger] stale.contains(i) && i != parent_idx ==> final(self).nodes@[i] == old(self).nodes@[i],
            old(self).nodes@[parent_idx as int] is Node ==> forall|i: int| #![trigger final(self).nodes@[i]]
                0 <= i < old(self).nodes@.len() && i != parent_idx && i != old(self).nodes@[parent_idx as int]->left && i != old(self).nodes@[parent_idx as int]->right
                && old(self).nodes@[i].parent_of() != Some(old(self).nodes@[parent_idx as int]->left)
                && old(self).nodes@[i].parent_of() != Some(old(self).nodes@[parent_idx as int]->right)
                ==> final(self).nodes@[i] == old(self).nodes@[i],
            old(self).nodes@[parent_idx as int] is Node ==> forall|i: int| #![trigger final(self).shape@[i]]
                i != parent_idx && i != old(self).nodes@[parent_idx as int]->left && i != old(self).nodes@[parent_idx as int]->right
                ==> final(self).shape@[i] == old(self).shape@[i],
            old(self).nodes@[parent_idx as int] is Node ==> forall|i: int|
                0 <= i < final(self).nodes@.len() && !(stale.contains(i) && i != parent_idx) ==> slot_ok(
                    final(self).nodes@,
                    final(self).shape@,
                    i,
                ),
    {
        let ghost p = parent_idx as int;
        let ghost mid = self.joined_at(p);
        let ghost n0 = self.nodes@;
        let ghost sh0 = self.shape@;
        if self.nodes[parent_idx].is_empty() {
            return ShouldRestore::Nothing;
        }
        let (left, right) = match self.nodes[parent_idx].children_idx() {
            Some(c) => c,
            None => (0, 0),
        };
        proof {
            assert(slot_ok(n0, sh0, left as int));
            assert(slot_ok(n0, sh0, right as int));
        }
        let sr = {
            let weight = match self.nodes[parent_idx].weight() {
                Some(w) => *w,
                None => 0,
            };
            let left_lighter = match self.nodes[left].weight() {
                Some(w) => *w < weight,
                None => false,
            };
            let right_lighter = match self.nodes[right].weight() {
                Some(w) => *w < weight,
                None => false,
            };
            if left_lighter {
                ShouldRestore::Left
            } else if right_lighter {
                ShouldRestore::Right
            } else {
                ShouldRestore::Nothing
            }
        };
        match sr {
            ShouldRestore::Nothing => {
                self.shape = Ghost(self.shape@.insert(p, mid));
                proof {
                    assert forall|i: int|
                        0 <= i < self.nodes@.len() && !(stale.contains(i) && i != p) implies slot_ok(
                            self.nodes@,
                            self.shape@,
                            i,
                        ) by {
                        if i != p {
                            assert(slot_ok(n0, sh0, i));
                        }
                    }
                }
            },
            ShouldRestore::Left => {
                let zidx = left;
                if let TreapNode::Node { parent: zparent, key: zkey, weight: zweight, value: zvalue, left: zleft, right: zright } = self.nodes[parent_idx].take() {
                    if let TreapNode::Node { parent: _xparent, key: xkey, weight: xweight, value: xvalue, left: xleft, right: xright } = self.nodes[zleft].take() {
                        let ghost zt = Tree::Node { key: zkey, weight: zweight, value: zvalue, left: Box::new(sh0[xright as int]), right: Box::new(sh0[zright as int]) };
                        let ghost xt = Tree::Node { key: xkey, weight: xweight, value: xvalue, left: Box::new(sh0[xleft as int]), right: Box::new(zt) };
                        self.nodes[parent_idx] = TreapNode::Node { parent: zparent, key: xkey, weight: xweight, value: xvalue, left: xleft, right: zidx };
                        self.nodes[zidx] = TreapNode::Node { parent: Some(parent_idx), key: zkey, weight: zweight, value: zvalue, left: xright, right: zright };
                        *self.nodes[xleft].parent_mut() = Some(parent_idx);
                        *self.nodes[xright].parent_mut() = Some(zidx);
                        *self.nodes[zright].parent_mut() = Some(zidx);
                        self.shape = Ghost(sh0.insert(zidx as int, zt).insert(p, xt));
                        proof {
                            assert(slot_ok(n0, sh0, zidx as int));
                            assert(mid.restored() == xt);
                            assert forall|i: int|
                                0 <= i < n0.len() && i != p && i != left && i != right && n0[i].parent_of() != Some(left)
                                    && n0[i].parent_of() != Some(right) implies #[trigger] self.nodes@[i] == n0[i] by {
                                if i == xleft || i == xright {
                                    assert(n0[i].parent_of() == Some(zidx));
                                }
                            }
                            assert forall|i: int| #[trigger] stale.contains(i) && i != p implies self.nodes@[i] == n0[i] by {
                                assert(i != zidx);
                                if i == xleft || i == xright || i == zright || i == zleft {
                                    assert(stale.contains(n0[i].parent_of().unwrap() as int));
                                }
                            }
                            assert forall|i: int|
                                0 <= i < self.nodes@.len() && !(stale.contains(i) && i != p) implies slot_ok(
                                    self.nodes@,
                                    self.shape@,
                                    i,
                                ) by {
                                if i != p && i != zidx {
                                    assert(slot_ok(n0, sh0, i));
                                    if n0[i] is Node {
                                        let c1 = n0[i]->left as int;
                                        let c2 = n0[i]->right as int;
                                        assert(n0[c1].parent_of() == Some(i as usize));
                                        assert(n0[c2].parent_of() == Some(i as usize));
                                        assert(!stale.contains(i));
                                        assert(n0[p].parent_of() is None || stale.contains(n0[p].parent_of().unwrap() as int));
                                        assert(n0[zidx as int].parent_of() == Some(p as usize));
                                        assert(c1 != p && c2 != p && c1 != zidx && c2 != zidx) by {
                                            if c1 == p || c2 == p {
                                                assert(n0[p].parent_of() == Some(i as usize));
                                                assert(stale.contains(i));
                                            }
                                            if c1 == zidx || c2 == zidx {
                                                assert(Some(i as usize) == Some(p as usize));
                                            }
                                        }
                                        assert(self.nodes@[c1].parent_of() == n0[c1].parent_of());
                                        assert(self.nodes@[c2].parent_of() == n0[c2].parent_of());
                                    }
                                }
                            }
                        }
                    }
                }
            },
            ShouldRestore::Right => {
                let zidx = right;
                if let TreapNode::Node { parent: zparent, key: zkey, weight: zweight, value: zvalue, left: zleft, right: zright } = self.nodes[parent_idx].take() {
                    if let TreapNode::Node { parent: _xparent, key: xkey, weight: xweight, value: xvalue, left: xleft, right: xright } = self.nodes[zright].take() {
                        let ghost zt = Tree::Node { key: zkey, weight: zweight, value: zvalue, left: Box::new(sh0[zleft as int]), right: Box::new(sh0[xleft as int]) };
                        let ghost xt = Tree::Node { key: xkey, weight: xweight, value: xvalue, left: Box::new(zt), right: Box::new(sh0[xright as int]) };
                        self.nodes[zidx] = TreapNode::Node { parent: Some(parent_idx), key: zkey, weight: zweight, value: zvalue, left: zleft, right: xleft };
                        self.nodes[parent_idx] = TreapNode::Node { parent: zparent, key: xkey, weight: xweight, value: xvalue, left: zidx, right: xright };
                        *self.nodes[zleft].parent_mut() = Some(zidx);
                        *self.nodes[xleft].parent_mut() = Some(zidx);
                        *self.nodes[xright].parent_mut() = Some(parent_idx);
                        self.shape = Ghost(sh0.insert(zidx as int, zt).insert(p, xt));
                        proof {
                            assert(slot_ok(n0, sh0, zidx as int));
                            assert(mid.restored() == xt);
                            assert forall|i: int|
                                0 <= i < n0.len() && i != p && i != left && i != right && n0[i].parent_of() != Some(left)
                                    && n0[i].parent_of() != Some(right) implies #[trigger] self.nodes@[i] == n0[i] by {
                                if i == xleft || i == xright {
                                    assert(n0[i].parent_of() == Some(zidx));
                                }
                            }
                            assert forall|i: int| #[trigger] stale.contains(i) && i != p implies self.nodes@[i] == n0[i] by {
                                assert(i != zidx);
                                if i == xleft || i == xright || i == zright || i == zleft {
                                    assert(stale.contains(n0[i].parent_of().unwrap() as int));
                                }
                            }
                            assert forall|i: int|
                                0 <= i < self.nodes@.len() && !(stale.contains(i) && i != p) implies slot_ok(
                                    self.nodes@,
                                    self.shape@,
                                    i,
                                ) by {
                                if i != p && i != zidx {
                                    assert(slot_ok(n0, sh0, i));
                                    if n0[i] is Node {
                                        let c1 = n0[i]->left as int;
                                        let c2 = n0[i]->right as int;
                                        assert(n0[c1].parent_of() == Some(i as usize));
                                        assert(n0[c2].parent_of() == Some(i as usize));
                                        assert(!stale.contains(i));
                                        assert(n0[p].parent_of() is None || stale.contains(n0[p].parent_of().unwrap() as int));
                                        assert(n0[zidx as int].parent_of() == Some(p as usize));
                                        assert(c1 != p && c2 != p && c1 != zidx && c2 != zidx) by {
                                            if c1 == p || c2 == p {
                                                assert(n0[p].parent_of() == Some(i as usize));
                                                assert(stale.contains(i));
                                            }
                                            if c1 == zidx || c2 == zidx {
                                                assert(Some(i as usize) == Some(p as usize));
                                            }
                                        }
                                        assert(self.nodes@[c1].parent_of() == n0[c1].parent_of());
                                        assert(self.nodes@[c2].parent_of() == n0[c2].parent_of());
                                    }
                                }
                            }
                        }
                    }
                }
            },
        }
        sr
    }
}

/// Search-tree order of the arena: its in-order keys, the ones that
/// `keys_in_order` returns, ascend strictly.
pub proof fn lemma_keys_ascending<V>(t: Treap<V>)
    requires
        t.wf(),
    ensures
        forall|i: int, j: int|
            0 <= i < j < t.tree().in_order().len() ==> t.tree().in_order()[i] < t.tree().in_order()[j],
{
    crate::lemma_in_order_sorted(t.tree());
}

enum ShouldRestore {
    Left,
    Right,
    Nothing,
}

} // verus!
