use treap_rust::bst::BST;
use treap_rust::treap_vec;
use treap_rust::{Treap, TreapNode};

fn in_order(node: &TreapNode<i64>, out: &mut Vec<i64>) {
    if let TreapNode::Node { key, left, right, .. } = node {
        in_order(left, out);
        out.push(*key);
        in_order(right, out);
    }
}

fn keys(node: &TreapNode<i64>) -> Vec<i64> {
    let mut out = Vec::new();
    in_order(node, &mut out);
    out
}

fn height(node: &TreapNode<i64>) -> usize {
    match node {
        TreapNode::Empty => 0,
        TreapNode::Node { left, right, .. } => 1 + height(left).max(height(right)),
    }
}

fn heap_ordered(node: &TreapNode<i64>) -> bool {
    match node {
        TreapNode::Empty => true,
        TreapNode::Node { weight, left, right, .. } => {
            let ok_l = match left.weight() {
                Some(w) => *weight <= *w,
                None => true,
            };
            let ok_r = match right.weight() {
                Some(w) => *weight <= *w,
                None => true,
            };
            ok_l && ok_r && heap_ordered(left) && heap_ordered(right)
        }
    }
}

fn root_key(node: &TreapNode<i64>) -> Option<i64> {
    match node {
        TreapNode::Node { key, .. } => Some(*key),
        TreapNode::Empty => None,
    }
}

fn leaf(key: i64, weight: i64) -> Box<TreapNode<i64>> {
    Box::new(TreapNode::Node {
        key,
        weight,
        value: key * 10,
        left: Box::new(TreapNode::Empty),
        right: Box::new(TreapNode::Empty),
    })
}

#[test]
fn scenario_lightest_key_becomes_root() {
    let mut t = Treap::new();
    let ks = [5, 3, 8, 1, 4];
    let ws = [10, 20, 5, 30, 15];
    for i in 0..5 {
        t.insert(ks[i], ws[i], ks[i] * 100);
    }
    assert_eq!(root_key(t.root()), Some(8));
    assert_eq!(keys(t.root()), vec![1, 3, 4, 5, 8]);
    assert!(heap_ordered(t.root()));
}

#[test]
fn arena_scenario_lightest_key_becomes_root() {
    let mut t = treap_vec::Treap::new();
    let ks = [5, 3, 8, 1, 4];
    let ws = [10, 20, 5, 30, 15];
    for i in 0..5 {
        t.insert(ks[i], ws[i], ks[i] * 100);
    }
    assert_eq!(t.root_key(), Some(8));
    assert_eq!(t.keys_in_order(), vec![1, 3, 4, 5, 8]);
    for k in ks {
        assert_eq!(t.find(&k), Some(&(k * 100)));
    }
}

#[test]
fn duplicate_insert_keeps_first_value_and_shape() {
    let mut t = Treap::new();
    t.insert(5, 10, "first");
    t.insert(3, 20, "three");
    t.insert(8, 30, "eight");
    t.insert(5, 1, "second");
    assert_eq!(t.find(&5), Some(&"first"));
    let mut ks = Vec::new();
    if let TreapNode::Node { key, .. } = t.root() {
        ks.push(*key);
    }
    assert_eq!(ks, vec![5]);
}

#[test]
fn arena_duplicate_insert_keeps_first_value_and_shape() {
    let mut t = treap_vec::Treap::new();
    t.insert(5, 10, 50);
    t.insert(3, 20, 30);
    t.insert(8, 30, 80);
    let before = t.keys_in_order();
    t.insert(5, 1, 99);
    assert_eq!(t.find(&5), Some(&50));
    assert_eq!(t.root_key(), Some(5));
    assert_eq!(t.keys_in_order(), before);
}

#[test]
fn round_trip_every_key() {
    let mut t = Treap::new();
    let mut a = treap_vec::Treap::new();
    let mut rng = fastrand::Rng::with_seed(7);
    for k in 0..500i64 {
        let key = (k * 7919) % 1000;
        let w = rng.i64(..);
        t.insert(key, w, key + 1);
        a.insert(key, w, key + 1);
    }
    for k in 0..500i64 {
        let key = (k * 7919) % 1000;
        assert_eq!(t.find(&key), Some(&(key + 1)));
        assert_eq!(a.find(&key), Some(&(key + 1)));
    }
    assert_eq!(t.find(&1001), None);
    assert_eq!(a.find(&-1), None);
    assert_eq!(keys(t.root()), a.keys_in_order());
}

#[test]
fn in_order_is_strictly_ascending() {
    let mut t = Treap::new();
    let mut a = treap_vec::Treap::new();
    let mut rng = fastrand::Rng::with_seed(11);
    for _ in 0..2000 {
        let key = rng.i64(-5000..5000);
        let w = rng.i64(..);
        t.insert(key, w, 0);
        a.insert(key, w, 0);
    }
    let ks = keys(t.root());
    assert!(ks.windows(2).all(|p| p[0] < p[1]));
    let ka = a.keys_in_order();
    assert!(ka.windows(2).all(|p| p[0] < p[1]));
    assert!(heap_ordered(t.root()));
}

#[test]
fn height_stays_logarithmic() {
    let n = 100_000i64;
    let mut t = Treap::new();
    let mut rng = fastrand::Rng::with_seed(2024);
    for k in 0..n {
        t.insert(k, rng.i64(..), k);
    }
    let h = height(t.root());
    let log2n = (n as f64).log2();
    assert!((h as f64) <= 5.0 * log2n, "height {} for {} keys", h, n);
    assert_eq!(t.find(&(n - 1)), Some(&(n - 1)));
}

#[test]
fn rotation_promotes_light_left_child() {
    // z(5, w10) has left child x(3, w1) with children 1 and 4; z's right is 8.
    let x = TreapNode::Node {
        key: 3,
        weight: 1,
        value: 30,
        left: leaf(1, 20),
        right: leaf(4, 30),
    };
    let mut z = TreapNode::Node {
        key: 5,
        weight: 10,
        value: 50,
        left: Box::new(x),
        right: leaf(8, 40),
    };
    let before = keys(&z);
    z.restore_left();
    assert_eq!(root_key(&z), Some(3));
    assert_eq!(keys(&z), before);
    assert!(heap_ordered(&z));
    assert_eq!(z.find(&4), Some(&40));
}

#[test]
fn rotation_promotes_light_right_child() {
    let x = TreapNode::Node {
        key: 8,
        weight: 1,
        value: 80,
        left: leaf(6, 20),
        right: leaf(9, 30),
    };
    let mut z = TreapNode::Node {
        key: 5,
        weight: 10,
        value: 50,
        left: leaf(2, 40),
        right: Box::new(x),
    };
    let before = keys(&z);
    z.restore_right();
    assert_eq!(root_key(&z), Some(8));
    assert_eq!(keys(&z), before);
    assert!(heap_ordered(&z));
}

#[test]
fn no_rotation_when_weights_equal() {
    let mut z = TreapNode::Node {
        key: 5,
        weight: 10,
        value: 50,
        left: leaf(3, 10),
        right: leaf(8, 10),
    };
    z.restore_left();
    z.restore_right();
    assert_eq!(root_key(&z), Some(5));
    assert_eq!(keys(&z), vec![3, 5, 8]);
}

#[test]
fn empty_treaps_find_nothing() {
    let t: Treap<i64> = Treap::new();
    assert_eq!(t.find(&0), None);
    let a: treap_vec::Treap<i64> = treap_vec::Treap::with_capacity(16);
    assert_eq!(a.find(&0), None);
    assert_eq!(a.root_key(), None);
    assert_eq!(a.keys_in_order(), Vec::<i64>::new());
}

#[test]
fn extreme_keys_and_weights() {
    let mut a = treap_vec::Treap::new();
    a.insert(i64::MAX, i64::MIN, 1);
    a.insert(i64::MIN, i64::MAX, 2);
    a.insert(0, 0, 3);
    assert_eq!(a.root_key(), Some(i64::MAX));
    assert_eq!(a.keys_in_order(), vec![i64::MIN, 0, i64::MAX]);
    assert_eq!(a.find(&i64::MIN), Some(&2));
}

#[test]
fn node_accessors() {
    let mut n = TreapNode::Node {
        key: 1,
        weight: 7,
        value: 10,
        left: leaf(0, 8),
        right: Box::new(TreapNode::Empty),
    };
    assert_eq!(n.weight(), Some(&7));
    assert_eq!(n.left().and_then(|l| l.weight()), Some(&8));
    assert_eq!(n.right().and_then(|r| r.weight()), None);
    let taken = n.take();
    assert_eq!(n.weight(), None);
    assert_eq!(taken.weight(), Some(&7));
}

#[test]
fn arena_node_accessors() {
    let mut n: treap_vec::TreapNode<i64> = treap_vec::TreapNode::Node {
        parent: Some(3),
        key: 1,
        weight: 7,
        value: 10,
        left: 4,
        right: 5,
    };
    assert!(!n.is_empty());
    assert_eq!(n.parent_idx(), Some(3));
    assert_eq!(n.children_idx(), Some((4, 5)));
    assert_eq!(n.weight(), Some(&7));
    *n.parent_mut() = None;
    assert_eq!(n.parent_idx(), None);
    let taken = n.take();
    assert!(n.is_empty());
    assert_eq!(n.children_idx(), None);
    assert_eq!(taken.children_idx(), Some((4, 5)));
}

#[test]
fn bst_keeps_first_value() {
    let mut b = BST::new();
    b.insert(2, "two");
    b.insert(1, "one");
    b.insert(3, "three");
    b.insert(2, "again");
    assert_eq!(b.find(&2), Some(&"two"));
    assert_eq!(b.find(&1), Some(&"one"));
    assert_eq!(b.find(&3), Some(&"three"));
    assert_eq!(b.find(&4), None);
}

fn shape(node: &TreapNode<i64>) -> String {
    match node {
        TreapNode::Empty => "_".to_string(),
        TreapNode::Node { key, left, right, .. } => {
            if let (TreapNode::Empty, TreapNode::Empty) = (left.as_ref(), right.as_ref()) {
                key.to_string()
            } else {
                format!("{}({},{})", key, shape(left), shape(right))
            }
        }
    }
}

fn arena_shape(slots: &Vec<treap_vec::TreapNode<i64>>, i: usize) -> String {
    match &slots[i] {
        treap_vec::TreapNode::Empty(_) => "_".to_string(),
        treap_vec::TreapNode::Node { key, left, right, .. } => {
            if slots[*left].is_empty() && slots[*right].is_empty() {
                key.to_string()
            } else {
                format!(
                    "{}({},{})",
                    key,
                    arena_shape(slots, *left),
                    arena_shape(slots, *right)
                )
            }
        }
    }
}

fn arena_links_ok(slots: &Vec<treap_vec::TreapNode<i64>>) -> bool {
    // Every slot reaches the root by parent links, and each parent lists it as a child.
    for i in 0..slots.len() {
        let mut cur = i;
        let mut steps = 0;
        while let Some(p) = slots[cur].parent_idx() {
            match slots[p].children_idx() {
                Some((l, r)) if l == cur || r == cur => {}
                _ => return false,
            }
            cur = p;
            steps += 1;
            if steps > slots.len() {
                return false;
            }
        }
        if cur != 0 {
            return false;
        }
    }
    true
}

const KS: [i64; 5] = [5, 3, 8, 1, 4];
const WS: [i64; 5] = [10, 20, 5, 30, 15];

#[test]
fn scenario_exact_shape_and_sixth_insert() {
    let mut t = Treap::new();
    let mut a = treap_vec::Treap::new();
    for i in 0..5 {
        t.insert(KS[i], WS[i], 0);
        a.insert(KS[i], WS[i], 0);
    }
    assert_eq!(shape(t.root()), "8(5(4(3(1,_),_),_),_)");
    assert_eq!(arena_shape(a.slots(), 0), "8(5(4(3(1,_),_),_),_)");
    t.insert(2, 7, 0);
    a.insert(2, 7, 0);
    assert_eq!(shape(t.root()), "8(2(1,5(4(3,_),_)),_)");
    assert_eq!(arena_shape(a.slots(), 0), "8(2(1,5(4(3,_),_)),_)");
    assert!(arena_links_ok(a.slots()));
}

#[test]
fn equal_weights_never_rotate() {
    let mut t = Treap::new();
    let mut a = treap_vec::Treap::new();
    for k in KS {
        t.insert(k, 0, 0);
        a.insert(k, 0, 0);
    }
    assert_eq!(shape(t.root()), "5(3(1,4),8)");
    assert_eq!(arena_shape(a.slots(), 0), "5(3(1,4),8)");
}

#[test]
fn lighter_new_key_becomes_root() {
    let mut t = Treap::new();
    t.insert(5, 10, 0);
    t.insert(7, 20, 0);
    assert_eq!(root_key(t.root()), Some(5));
    t.insert(6, 1, 0);
    assert_eq!(shape(t.root()), "6(5,7)");
    assert_eq!(t.root().weight(), Some(&1));
}

#[test]
fn arena_slot_count_grows_by_two_per_new_key() {
    let mut a = treap_vec::Treap::new();
    assert_eq!(a.slots().len(), 1);
    for i in 0..5 {
        a.insert(KS[i], WS[i], 0);
        assert_eq!(a.slots().len(), 1 + 2 * (i + 1));
    }
    a.insert(5, 1, 0);
    assert_eq!(a.slots().len(), 11);
    assert!(arena_links_ok(a.slots()));
}
