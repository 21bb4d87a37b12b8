use vstd::prelude::*;

pub mod bst;
pub mod treap_vec;

verus! {

/// The map that results from inserting `key` with `value` into `m` when the
/// first insertion of a key wins: a key that is already present keeps its value.
pub open spec fn inserted<V>(m: Map<i64, V>, key: i64, value: V) -> Map<i64, V> {
    if m.contains_key(key) {
        m
    } else {
        m.insert(key, value)
    }
}

/// A node of a treap: either an empty slot or an occupied node with a key, a
/// weight (its heap priority, smaller is nearer the root), a value and two
/// subtrees.
#[derive(Debug)]
pub enum TreapNode<V> {
    Empty,
    Node { key: i64, weight: i64, value: V, left: Box<TreapNode<V>>, right: Box<TreapNode<V>> },
}

impl<V> TreapNode<V> {
    /// The key/value pairs stored in this subtree.
    pub open spec fn as_map(self) -> Map<i64, V>
        decreases self,
    {
        match self {
            TreapNode::Empty => Map::empty(),
            TreapNode::Node { key, value, left, right, .. } => left.as_map().union_prefer_right(
                right.as_map(),
            ).insert(key, value),
        }
    }

    /// The keys met by an in-order traversal of this subtree.
    pub open spec fn in_order(self) -> Seq<i64>
        decreases self,
    {
        match self {
            TreapNode::Empty => Seq::empty(),
            TreapNode::Node { key, left, right, .. } => left.in_order().push(key) + right.in_order(),
        }
    }

    pub open spec fn height(self) -> nat
        decreases self,
    {
        match self {
            TreapNode::Empty => 0,
            TreapNode::Node { left, right, .. } => 1 + vstd::math::max(
                left.height() as int,
                right.height() as int,
            ) as nat,
        }
    }

    /// Every weight in this subtree is at least `w`.
    pub open spec fn all_ge(self, w: i64) -> bool
        decreases self,
    {
        match self {
            TreapNode::Empty => true,
            TreapNode::Node { weight, left, right, .. } => w <= weight && left.all_ge(w)
                && right.all_ge(w),
        }
    }

    /// Search-tree order: keys on the left are smaller, keys on the right larger.
    pub open spec fn bst(self) -> bool
        decreases self,
    {
        match self {
            TreapNode::Empty => true,
            TreapNode::Node { key, left, right, .. } => {
                &&& forall|k: i64| #[trigger] left.as_map().contains_key(k) ==> k < key
                &&& forall|k: i64| #[trigger] right.as_map().contains_key(k) ==> key < k
                &&& left.bst()
                &&& right.bst()
            },
        }
    }

    /// Heap order: no node below an occupied node has a smaller weight.
    pub open spec fn heap(self) -> bool
        decreases self,
    {
        match self {
            TreapNode::Empty => true,
            TreapNode::Node { weight, left, right, .. } => left.all_ge(weight) && right.all_ge(
                weight,
            ) && left.heap() && right.heap(),
        }
    }

    pub open spec fn wf(self) -> bool {
        self.bst() && self.heap()
    }

    /// This subtree is the result of inserting `key` with `weight` and `value`
    /// into `o`: it is a treap holding `o`'s pairs plus the new one unless the
    /// key was present (then it is `o` itself), and any lower bound on `o`'s
    /// weights still bounds it, except possibly at a root that holds `weight`.
    pub open spec fn insert_post(self, o: Self, key: i64, weight: i64, value: V) -> bool {
        &&& self.wf()
        &&& self.as_map() == inserted(o.as_map(), key, value)
        &&& o.as_map().contains_key(key) ==> self == o
        &&& forall|w: i64| #[trigger] o.all_ge(w) ==> self.all_ge(w) || self.new_root_above(weight, w)
    }

    /// The subtree with its left child promoted if that child is lighter.
    pub open spec fn restored_left(self) -> Self {
        if self.left_violates() {
            self.rotated_right()
        } else {
            self
        }
    }

    /// The subtree with its right child promoted if that child is lighter.
    pub open spec fn restored_right(self) -> Self {
        if self.right_violates() {
            self.rotated_left()
        } else {
            self
        }
    }

    /// The subtree with a lighter child promoted, the left one first.
    pub open spec fn restored(self) -> Self {
        if self.left_violates() {
            self.rotated_right()
        } else if self.right_violates() {
            self.rotated_left()
        } else {
            self
        }
    }

    /// The treap after inserting `key` with `weight` and `value`: descend by
    /// key, put a new leaf in the empty slot reached, and on the way back up
    /// promote the child that was descended into wherever it is lighter than
    /// its parent. A key that is present already leaves the subtree as it is.
    pub open spec fn inserted_tree(self, key: i64, weight: i64, value: V) -> Self
        decreases self,
    {
        match self {
            TreapNode::Empty => TreapNode::Node {
                key,
                weight,
                value,
                left: Box::new(TreapNode::Empty),
                right: Box::new(TreapNode::Empty),
            },
            TreapNode::Node { key: k, weight: w, value: v, left, right } => if key < k {
                TreapNode::Node {
                    key: k,
                    weight: w,
                    value: v,
                    left: Box::new(left.inserted_tree(key, weight, value)),
                    right,
                }.restored_left()
            } else if k < key {
                TreapNode::Node {
                    key: k,
                    weight: w,
                    value: v,
                    left,
                    right: Box::new(right.inserted_tree(key, weight, value)),
                }.restored_right()
            } else {
                self
            },
        }
    }

    /// The root has weight `weight` and every weight below it is at least `w`.
    pub open spec fn new_root_above(self, weight: i64, w: i64) -> bool {
        match self {
            TreapNode::Empty => false,
            TreapNode::Node { weight: rw, left, right, .. } => rw == weight && left.all_ge(w)
                && right.all_ge(w),
        }
    }

    /// The left child is occupied and lighter than this node.
    pub open spec fn left_violates(self) -> bool {
        match self {
            TreapNode::Node { weight, left, .. } => match *left {
                TreapNode::Node { weight: lw, .. } => lw < weight,
                TreapNode::Empty => false,
            },
            TreapNode::Empty => false,
        }
    }

    /// The right child is occupied and lighter than this node.
    pub open spec fn right_violates(self) -> bool {
        match self {
            TreapNode::Node { weight, right, .. } => match *right {
                TreapNode::Node { weight: rw, .. } => rw < weight,
                TreapNode::Empty => false,
            },
            TreapNode::Empty => false,
        }
    }

    /// This subtree after promoting its left child above the root.
    pub open spec fn rotated_right(self) -> Self {
        match self {
            TreapNode::Node { key, weight, value, left, right } => match *left {
                TreapNode::Node { key: xk, weight: xw, value: xv, left: xl, right: xr } => {
                    TreapNode::Node {
                        key: xk,
                        weight: xw,
                        value: xv,
                        left: xl,
                        right: Box::new(TreapNode::Node { key, weight, value, left: xr, right }),
                    }
                },
                TreapNode::Empty => self,
            },
            TreapNode::Empty => self,
        }
    }

    /// This subtree after promoting its right child above the root.
    pub open spec fn rotated_left(self) -> Self {
        match self {
            TreapNode::Node { key, weight, value, left, right } => match *right {
                TreapNode::Node { key: xk, weight: xw, value: xv, left: xl, right: xr } => {
                    TreapNode::Node {
                        key: xk,
                        weight: xw,
                        value: xv,
                        left: Box::new(TreapNode::Node { key, weight, value, left, right: xl }),
                        right: xr,
                    }
                },
                TreapNode::Empty => self,
            },
            TreapNode::Empty => self,
        }
    }
}

/// Lowering the bound keeps `all_ge`.
pub proof fn lemma_all_ge_mono<V>(t: TreapNode<V>, a: i64, b: i64)
    requires
        t.all_ge(a),
        b <= a,
    ensures
        t.all_ge(b),
    decreases t,
{
    if let TreapNode::Node { left, right, .. } = t {
        lemma_all_ge_mono(*left, a, b);
        lemma_all_ge_mono(*right, a, b);
    }
}

/// On a treap, the insertion of `inserted_tree` keeps both orders, adds the
/// pair unless the key is present (then nothing changes), and lets a new root
/// be only the new node.
pub proof fn lemma_inserted_tree<V>(t: TreapNode<V>, key: i64, weight: i64, value: V)
    requires
        t.wf(),
    ensures
        t.inserted_tree(key, weight, value).insert_post(t, key, weight, value),
    decreases t,
{
    match t {
        TreapNode::Empty => {
            assert(TreapNode::<V>::Empty.as_map() =~= Map::<i64, V>::empty());
            assert(t.inserted_tree(key, weight, value).as_map() =~= Map::<i64, V>::empty().insert(key, value));
        },
        TreapNode::Node { key: k, left, right, .. } => {
            if key < k {
                lemma_inserted_tree(*left, key, weight, value);
                TreapNode::<V>::lemma_insert_left(t, left.inserted_tree(key, weight, value), key, weight, value);
            } else if k < key {
                lemma_inserted_tree(*right, key, weight, value);
                TreapNode::<V>::lemma_insert_right(t, right.inserted_tree(key, weight, value), key, weight, value);
            }
        },
    }
}

/// A right rotation keeps the in-order sequence, and on a search tree it keeps
/// the order and the stored pairs.
pub proof fn lemma_rotated_right<V>(t: TreapNode<V>)
    ensures
        t.rotated_right().in_order() == t.in_order(),
        t.bst() ==> t.rotated_right().bst() && t.rotated_right().as_map() == t.as_map(),
{
    if let TreapNode::Node { key, weight, value, left, right } = t {
        if let TreapNode::Node { key: xk, weight: xw, value: xv, left: xl, right: xr } = *left {
            let z = TreapNode::Node { key, weight, value, left: xr, right };
            let r = TreapNode::Node { key: xk, weight: xw, value: xv, left: xl, right: Box::new(z) };
            assert(t.rotated_right() == r);
            assert(left.in_order() == xl.in_order().push(xk) + xr.in_order());
            assert(z.in_order() == xr.in_order().push(key) + right.in_order());
            assert(r.in_order() == xl.in_order().push(xk) + z.in_order());
            assert(r.in_order() =~= t.in_order());
            if t.bst() {
                assert(left.as_map() == xl.as_map().union_prefer_right(xr.as_map()).insert(xk, xv));
                assert(z.as_map() == xr.as_map().union_prefer_right(right.as_map()).insert(key, value));
                assert(r.as_map() == xl.as_map().union_prefer_right(z.as_map()).insert(xk, xv));
                assert(left.as_map().contains_key(xk));
                assert(xk < key);
                assert(!right.as_map().contains_key(xk));
                assert(left.bst());
                assert(!xl.as_map().contains_key(key)) by {
                    if xl.as_map().contains_key(key) {
                        assert(left.as_map().contains_key(key));
                    }
                }
                assert(!xr.as_map().contains_key(xk));
                assert(!xl.as_map().contains_key(xk));
                assert forall|k: i64| #[trigger] xl.as_map().contains_key(k) implies !z.as_map().contains_key(k) by {
                    assert(left.as_map().contains_key(k));
                }
                assert(r.as_map() =~= t.as_map());
                assert forall|k: i64| #[trigger] xr.as_map().contains_key(k) implies k < key by {
                    assert(left.as_map().contains_key(k));
                }
                assert(z.bst());
                assert forall|k: i64| #[trigger] z.as_map().contains_key(k) implies xk < k by {
                    if xr.as_map().contains_key(k) {
                        assert(left.as_map().contains_key(k));
                    }
                }
                assert(r.bst());
            }
        }
    }
}

/// A left rotation keeps the in-order sequence, and on a search tree it keeps
/// the order and the stored pairs.
pub proof fn lemma_rotated_left<V>(t: TreapNode<V>)
    ensures
        t.rotated_left().in_order() == t.in_order(),
        t.bst() ==> t.rotated_left().bst() && t.rotated_left().as_map() == t.as_map(),
{
    if let TreapNode::Node { key, weight, value, left, right } = t {
        if let TreapNode::Node { key: xk, weight: xw, value: xv, left: xl, right: xr } = *right {
            let z = TreapNode::Node { key, weight, value, left, right: xl };
            let r = TreapNode::Node { key: xk, weight: xw, value: xv, left: Box::new(z), right: xr };
            assert(t.rotated_left() == r);
            assert(right.in_order() == xl.in_order().push(xk) + xr.in_order());
            assert(z.in_order() == left.in_order().push(key) + xl.in_order());
            assert(r.in_order() == z.in_order().push(xk) + xr.in_order());
            assert(r.in_order() =~= t.in_order());
            if t.bst() {
                assert(right.as_map() == xl.as_map().union_prefer_right(xr.as_map()).insert(xk, xv));
                assert(z.as_map() == left.as_map().union_prefer_right(xl.as_map()).insert(key, value));
                assert(r.as_map() == z.as_map().union_prefer_right(xr.as_map()).insert(xk, xv));
                assert(right.as_map().contains_key(xk));
                assert(key < xk);
                assert(!left.as_map().contains_key(xk));
                assert(right.bst());
                assert(!xr.as_map().contains_key(key)) by {
                    if xr.as_map().contains_key(key) {
                        assert(right.as_map().contains_key(key));
                    }
                }
                assert(!xl.as_map().contains_key(xk));
                assert(!xr.as_map().contains_key(xk));
                assert forall|k: i64| #[trigger] xr.as_map().contains_key(k) implies !z.as_map().contains_key(k) by {
                    assert(right.as_map().contains_key(k));
                }
                assert(r.as_map() =~= t.as_map());
                assert forall|k: i64| #[trigger] xl.as_map().contains_key(k) implies key < k by {
                    assert(right.as_map().contains_key(k));
                }
                assert(z.bst());
                assert forall|k: i64| #[trigger] z.as_map().contains_key(k) implies k < xk by {
                    if xl.as_map().contains_key(k) {
                        assert(right.as_map().contains_key(k));
                    }
                }
                assert(r.bst());
            }
        }
    }
}

impl<V> TreapNode<V> {
    /// Inserts `key` unless it is present already; the new node is then moved
    /// up by rotations until its parent is no heavier than it.
    pub fn insert(&mut self, key: i64, weight: i64, value: V)
        requires
            old(self).wf(),
        ensures
            *final(self) == old(self).inserted_tree(key, weight, value),
            final(self).insert_post(*old(self), key, weight, value),
        decreases *old(self),
    {
        match self.take() {
            TreapNode::Empty => {
                *self = TreapNode::Node {
                    key,
                    weight,
                    value,
                    left: Box::new(TreapNode::Empty),
                    right: Box::new(TreapNode::Empty),
                };
                proof {
                    lemma_inserted_tree(*old(self), key, weight, value);
                }
            },
            TreapNode::Node { key: ckey, weight: cweight, value: cvalue, mut left, mut right } => {
                let ghost o = *old(self);
                if key < ckey {
                    left.insert(key, weight, value);
                    let ghost nl = *left;
                    *self = TreapNode::Node { key: ckey, weight: cweight, value: cvalue, left, right };
                    self.restore_left();
                    proof {
                        lemma_inserted_tree(o, key, weight, value);
                    }
                } else if ckey < key {
                    right.insert(key, weight, value);
                    let ghost nr = *right;
                    *self = TreapNode::Node { key: ckey, weight: cweight, value: cvalue, left, right };
                    self.restore_right();
                    proof {
                        lemma_inserted_tree(o, key, weight, value);
                    }
                } else {
                    *self = TreapNode::Node { key: ckey, weight: cweight, value: cvalue, left, right };
                    proof {
                        lemma_inserted_tree(o, key, weight, value);
                    }
                }
            },
        }
    }

    /// One step of insertion on the left: the left subtree `nl` is the result
    /// of inserting into `o`'s left subtree, and the rotation that may follow
    /// makes the whole an insertion into `o`.
    pub proof fn lemma_insert_left(o: Self, nl: Self, key: i64, weight: i64, value: V)
        requires
            o.wf(),
            o is Node,
            key < o->key,
            nl.insert_post(*o->left, key, weight, value),
        ensures
            (TreapNode::Node { key: o->key, weight: o->weight, value: o->value, left: Box::new(nl), right: o->right }).restored_left().insert_post(o, key, weight, value),
    {
        let ck = o->key;
        let cw = o->weight;
        let ol = *o->left;
        let or = *o->right;
        let mid = TreapNode::Node { key: ck, weight: cw, value: o->value, left: Box::new(nl), right: o->right };
        let f = mid.restored_left();
        assert(ol.all_ge(cw) && or.all_ge(cw));
        assert(!or.as_map().contains_key(key));
        assert forall|k: i64| #[trigger] nl.as_map().contains_key(k) implies k < ck by {
            if k != key {
                assert(ol.as_map().contains_key(k));
            }
        }
        assert(mid.bst());
        assert(mid.as_map() =~= inserted(o.as_map(), key, value));
        assert(nl.all_ge(cw) || nl.new_root_above(weight, cw));
        lemma_rotated_right(mid);
        if mid.left_violates() {
            if let TreapNode::Node { key: xk, weight: xw, value: xv, left: xl, right: xr } = nl {
                assert(xw == weight && xl.all_ge(cw) && xr.all_ge(cw));
                let z = TreapNode::Node { key: ck, weight: cw, value: o->value, left: xr, right: o->right };
                lemma_all_ge_mono(or, cw, xw);
                assert(z.all_ge(xw));
                assert(z.heap());
                assert(f == TreapNode::Node { key: xk, weight: xw, value: xv, left: xl, right: Box::new(z) });
                assert forall|w: i64| #[trigger] o.all_ge(w) implies f.all_ge(w) || f.new_root_above(weight, w) by {
                    lemma_all_ge_mono(*xl, cw, w);
                    lemma_all_ge_mono(*xr, cw, w);
                    assert(z.all_ge(w));
                }
            }
        } else {
            assert(nl.all_ge(cw));
            assert(f == mid);
            assert forall|w: i64| #[trigger] o.all_ge(w) implies f.all_ge(w) || f.new_root_above(weight, w) by {
                lemma_all_ge_mono(nl, cw, w);
            }
        }
        if o.as_map().contains_key(key) {
            assert(ol.as_map().contains_key(key));
            assert(mid == o);
        }
    }

    /// One step of insertion on the right: the right subtree `nr` is the
    /// result of inserting into `o`'s right subtree, and the rotation that may
    /// follow makes the whole an insertion into `o`.
    pub proof fn lemma_insert_right(o: Self, nr: Self, key: i64, weight: i64, value: V)
        requires
            o.wf(),
            o is Node,
            o->key < key,
            nr.insert_post(*o->right, key, weight, value),
        ensures
            (TreapNode::Node { key: o->key, weight: o->weight, value: o->value, left: o->left, right: Box::new(nr) }).restored_right().insert_post(o, key, weight, value),
    {
        let ck = o->key;
        let cw = o->weight;
        let ol = *o->left;
        let or = *o->right;
        let mid = TreapNode::Node { key: ck, weight: cw, value: o->value, left: o->left, right: Box::new(nr) };
        let f = mid.restored_right();
        assert(ol.all_ge(cw) && or.all_ge(cw));
        assert(!ol.as_map().contains_key(key));
        assert forall|k: i64| #[trigger] nr.as_map().contains_key(k) implies ck < k by {
            if k != key {
                assert(or.as_map().contains_key(k));
            }
        }
        assert(mid.bst());
        assert(mid.as_map() =~= inserted(o.as_map(), key, value));
        assert(nr.all_ge(cw) || nr.new_root_above(weight, cw));
        lemma_rotated_left(mid);
        if mid.right_violates() {
            if let TreapNode::Node { key: xk, weight: xw, value: xv, left: xl, right: xr } = nr {
                assert(xw == weight && xl.all_ge(cw) && xr.all_ge(cw));
                let z = TreapNode::Node { key: ck, weight: cw, value: o->value, left: o->left, right: xl };
                lemma_all_ge_mono(ol, cw, xw);
                assert(z.all_ge(xw));
                assert(z.heap());
                assert(f == TreapNode::Node { key: xk, weight: xw, value: xv, left: Box::new(z), right: xr });
                assert forall|w: i64| #[trigger] o.all_ge(w) implies f.all_ge(w) || f.new_root_above(weight, w) by {
                    lemma_all_ge_mono(*xl, cw, w);
                    lemma_all_ge_mono(*xr, cw, w);
                    assert(z.all_ge(w));
                }
            }
        } else {
            assert(nr.all_ge(cw));
            assert(f == mid);
            assert forall|w: i64| #[trigger] o.all_ge(w) implies f.all_ge(w) || f.new_root_above(weight, w) by {
                lemma_all_ge_mono(nr, cw, w);
            }
        }
        if o.as_map().contains_key(key) {
            assert(or.as_map().contains_key(key));
            assert(mid == o);
        }
    }

    /// Promotes the left child when it is lighter than this node.
    pub fn restore_left(&mut self)
        ensures
            *final(self) == old(self).restored_left(),
            final(self).in_order() == old(self).in_order(),
            old(self).bst() ==> final(self).bst() && final(self).as_map() == old(self).as_map(),
    {
        proof {
            lemma_rotated_right(*self);
        }
        let zweight = self.weight();
        let xweight = match self.left() {
            Some(l) => l.weight(),
            None => None,
        };
        let is_restorable = match (zweight, xweight) {
            (Some(zw), Some(xw)) => *xw < *zw,
            _ => false,
        };
        if !is_restorable {
            return ;
        }
        if let TreapNode::Node { key: zkey, weight: zweight, value: zvalue, left: mut zleft, right: zright } = self.take() {
            if let TreapNode::Node { key: xkey, weight: xweight, value: xvalue, left: xleft, right: xright } = zleft.take() {
                let z = TreapNode::Node { key: zkey, weight: zweight, value: zvalue, left: xright, right: zright };
                *self = TreapNode::Node { key: xkey, weight: xweight, value: xvalue, left: xleft, right: Box::new(z) };
            }
        }
    }

    /// Promotes the right child when it is lighter than this node.
    pub fn restore_right(&mut self)
        ensures
            *final(self) == old(self).restored_right(),
            final(self).in_order() == old(self).in_order(),
            old(self).bst() ==> final(self).bst() && final(self).as_map() == old(self).as_map(),
    {
        proof {
            lemma_rotated_left(*self);
        }
        let zweight = self.weight();
        let xweight = match self.right() {
            Some(r) => r.weight(),
            None => None,
        };
        let is_restorable = match (zweight, xweight) {
            (Some(zw), Some(xw)) => *xw < *zw,
            _ => false,
        };
        if !is_restorable {
            return ;
        }
        if let TreapNode::Node { key: zkey, weight: zweight, value: zvalue, left: zleft, right: mut zright } = self.take() {
            if let TreapNode::Node { key: xkey, weight: xweight, value: xvalue, left: xleft, right: xright } = zright.take() {
                let z = TreapNode::Node { key: zkey, weight: zweight, value: zvalue, left: zleft, right: xleft };
                *self = TreapNode::Node { key: xkey, weight: xweight, value: xvalue, left: Box::new(z), right: xright };
            }
        }
    }

    /// Looks `search_key` up by descending from this node.
    pub fn find<'a>(&'a self, search_key: &i64) -> (r: Option<&'a V>)
        requires
            self.bst(),
        ensures
            r == if self.as_map().contains_key(*search_key) {
                Some(&self.as_map()[*search_key])
            } else {
                None
            },
    {
        let mut current: &TreapNode<V> = self;
        loop
            invariant
                current.bst(),
                self.as_map().contains_key(*search_key) == current.as_map().contains_key(
                    *search_key,
                ),
                current.as_map().contains_key(*search_key) ==> self.as_map()[*search_key]
                    == current.as_map()[*search_key],
            decreases current.height(),
        {
            match current {
                TreapNode::Empty => {
                    return None;
                },
                TreapNode::Node { key, value, left, right, .. } => {
                    if *key == *search_key {
                        return Some(value);
                    } else if *key < *search_key {
                        proof {
                            assert(!left.as_map().contains_key(*search_key));
                        }
                        current = &**right;
                    } else {
                        proof {
                            assert(!right.as_map().contains_key(*search_key));
                        }
                        current = &**left;
                    }
                },
            }
        }
    }

    pub fn take(&mut self) -> (r: Self)
        ensures
            r == *old(self),
            *final(self) == TreapNode::<V>::Empty,
    {
        let mut r = TreapNode::Empty;
        core::mem::swap(self, &mut r);
        r
    }

    pub fn weight(&self) -> (r: Option<&i64>)
        ensures
            r == match *self {
                TreapNode::Node { weight, .. } => Some(&weight),
                TreapNode::Empty => None,
            },
    {
        match self {
            TreapNode::Node { weight, .. } => Some(weight),
            TreapNode::Empty => None,
        }
    }

    pub fn left(&self) -> (r: Option<&TreapNode<V>>)
        ensures
            r == match *self {
                TreapNode::Node { left, .. } => Some(&*left),
                TreapNode::Empty => None,
            },
    {
        match self {
            TreapNode::Node { left, .. } => Some(&**left),
            TreapNode::Empty => None,
        }
    }

    pub fn right(&self) -> (r: Option<&TreapNode<V>>)
        ensures
            r == match *self {
                TreapNode::Node { right, .. } => Some(&*right),
                TreapNode::Empty => None,
            },
    {
        match self {
            TreapNode::Node { right, .. } => Some(&**right),
            TreapNode::Empty => None,
        }
    }
}

/// The map after inserting each pair of `items` in turn into `m`, with the
/// first insertion of a key winning.
pub open spec fn inserted_all<V>(m: Map<i64, V>, items: Seq<(i64, V)>) -> Map<i64, V>
    decreases items.len(),
{
    if items.len() == 0 {
        m
    } else {
        inserted_all(inserted(m, items[0].0, items[0].1), items.drop_first())
    }
}

/// Once a key is present, further insertions keep it and its value.
pub proof fn lemma_present_key_kept<V>(m: Map<i64, V>, items: Seq<(i64, V)>, k: i64)
    requires
        m.contains_key(k),
    ensures
        inserted_all(m, items).contains_key(k),
        inserted_all(m, items)[k] == m[k],
    decreases items.len(),
{
    if items.len() > 0 {
        lemma_present_key_kept(inserted(m, items[0].0, items[0].1), items.drop_first(), k);
    }
}

/// Round trip: after a run of insertions, a key that was absent at the start
/// maps to the value of its first insertion, whatever later insertions of the
/// same key supplied.
pub proof fn lemma_first_insertion_wins<V>(m: Map<i64, V>, items: Seq<(i64, V)>, i: int)
    requires
        0 <= i < items.len(),
        !m.contains_key(items[i].0),
        forall|j: int| 0 <= j < i ==> items[j].0 != items[i].0,
    ensures
        inserted_all(m, items).contains_key(items[i].0),
        inserted_all(m, items)[items[i].0] == items[i].1,
    decreases items.len(),
{
    let m1 = inserted(m, items[0].0, items[0].1);
    if i == 0 {
        lemma_present_key_kept(m1, items.drop_first(), items[0].0);
    } else {
        assert(items[0].0 != items[i].0);
        let rest = items.drop_first();
        assert(rest[i - 1] == items[i]);
        assert forall|j: int| 0 <= j < i - 1 implies #[trigger] rest[j].0 != rest[i - 1].0 by {
            assert(rest[j] == items[j + 1]);
        }
        lemma_first_insertion_wins(m1, items.drop_first(), i - 1);
    }
}

/// Every key of an in-order traversal is a key of the subtree.
pub proof fn lemma_in_order_keys<V>(t: TreapNode<V>)
    ensures
        forall|i: int| 0 <= i < t.in_order().len() ==> t.as_map().contains_key(#[trigger] t.in_order()[i]),
    decreases t,
{
    if let TreapNode::Node { key, left, right, .. } = t {
        lemma_in_order_keys(*left);
        lemma_in_order_keys(*right);
        let l = left.in_order();
        let r = right.in_order();
        assert forall|i: int| 0 <= i < t.in_order().len() implies t.as_map().contains_key(#[trigger] t.in_order()[i]) by {
            if i < l.len() {
                assert(t.in_order()[i] == l[i]);
            } else if i > l.len() {
                assert(t.in_order()[i] == r[i - l.len() - 1]);
            }
        }
    }
}

/// Search-tree order: an in-order traversal yields strictly ascending keys.
pub proof fn lemma_in_order_sorted<V>(t: TreapNode<V>)
    requires
        t.bst(),
    ensures
        forall|i: int, j: int| 0 <= i < j < t.in_order().len() ==> t.in_order()[i] < t.in_order()[j],
    decreases t,
{
    if let TreapNode::Node { key, left, right, .. } = t {
        lemma_in_order_sorted(*left);
        lemma_in_order_sorted(*right);
        lemma_in_order_keys(*left);
        lemma_in_order_keys(*right);
        let l = left.in_order();
        let r = right.in_order();
        let s = t.in_order();
        assert(s == l.push(key) + r);
        assert forall|i: int, j: int| 0 <= i < j < s.len() implies s[i] < s[j] by {
            if i < l.len() {
                assert(s[i] == l[i]);
                assert(left.as_map().contains_key(l[i]));
            } else if i == l.len() {
                assert(s[i] == key);
            } else {
                assert(s[i] == r[i - l.len() - 1]);
            }
            if j < l.len() {
                assert(s[j] == l[j]);
            } else if j == l.len() {
                assert(s[j] == key);
            } else {
                assert(s[j] == r[j - l.len() - 1]);
                assert(right.as_map().contains_key(r[j - l.len() - 1]));
            }
        }
    }
}

/// A treap: a search tree on keys that is also a min-heap on weights.
#[derive(Debug)]
pub struct Treap<V>(TreapNode<V>);

impl<V> View for Treap<V> {
    type V = Map<i64, V>;

    open spec fn view(&self) -> Map<i64, V> {
        self.node().as_map()
    }
}

impl<V> Treap<V> {
    pub closed spec fn node(self) -> TreapNode<V> {
        self.0
    }

    pub open spec fn wf(self) -> bool {
        self.node().wf()
    }

    pub fn new() -> (t: Self)
        ensures
            t.wf(),
            t.node() == TreapNode::<V>::Empty,
            t@ == Map::<i64, V>::empty(),
    {
        Treap(TreapNode::Empty)
    }

    /// Adds `key` with `weight` and `value`; a key that is present already
    /// leaves the treap as it was.
    pub fn insert(&mut self, key: i64, weight: i64, value: V)
        requires
            old(self).wf(),
        ensures
            final(self).wf(),
            final(self).node() == old(self).node().inserted_tree(key, weight, value),
            final(self)@ == inserted(old(self)@, key, value),
            old(self)@.contains_key(key) ==> *final(self) == *old(self),
    {
        self.0.insert(key, weight, value);
    }

    pub fn find<'a>(&'a self, key: &i64) -> (r: Option<&'a V>)
        requires
            self.wf(),
        ensures
            r == if self@.contains_key(*key) {
                Some(&self@[*key])
            } else {
                None
            },
    {
        self.0.find(key)
    }

    /// The root node, for walking the tree.
    pub fn root(&self) -> (r: &TreapNode<V>)
        ensures
            *r == self.node(),
    {
        &self.0
    }
}

} // verus!
