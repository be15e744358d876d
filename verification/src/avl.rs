use vstd::prelude::*;

use crate::bst::BuildError;
use crate::tree::{
    height, height_of, in_order, is_avl, lemma_height_le_len, lemma_ordered_sorted, nat_max,
    node_height, node_in_order, node_is_avl, node_ordered, ordered, Node,
};

verus! {

broadcast use {
    vstd::seq_lib::lemma_seq_concat_contains_all_elements,
    vstd::seq_lib::lemma_multiset_commutative,
    vstd::seq_lib::group_to_multiset_ensures,
    vstd::multiset::group_multiset_axioms,
};

/// What a left rotation does to a subtree: when the root `x` has a right
/// child `y`, `y` is promoted to the root, `x` becomes its left child, and
/// `y`'s old left subtree becomes `x`'s right subtree. Without a root or a
/// right child the subtree is left unchanged.
pub open spec fn left_rotated(t: Option<Box<Node>>, r: Option<Box<Node>>) -> bool {
    match t {
        None => r == t,
        Some(x) => match x.right {
            None => r == t,
            Some(y) => {
                &&& r matches Some(ry)
                &&& ry.value == y.value
                &&& ry.right == y.right
                &&& ry.left matches Some(rx)
                &&& rx.value == x.value
                &&& rx.left == x.left
                &&& rx.right == y.left
            },
        },
    }
}

/// What a right rotation does to a subtree: when the root `y` has a left
/// child `x`, `x` is promoted to the root, `y` becomes its right child, and
/// `x`'s old right subtree becomes `y`'s left subtree. Without a root or a
/// left child the subtree is left unchanged.
pub open spec fn right_rotated(t: Option<Box<Node>>, r: Option<Box<Node>>) -> bool {
    match t {
        None => r == t,
        Some(y) => match y.left {
            None => r == t,
            Some(x) => {
                &&& r matches Some(rx)
                &&& rx.value == x.value
                &&& rx.left == x.left
                &&& rx.right matches Some(ry)
                &&& ry.value == y.value
                &&& ry.right == y.right
                &&& ry.left == x.right
            },
        },
    }
}

/// Rotates the subtree in `node` to the left, promoting the right child;
/// a no-op when the root or its right child is absent.
pub fn left_rotate(node: &mut Option<Box<Node>>)
    ensures
        left_rotated(*old(node), *final(node)),
{
    if let Some(mut x) = node.take() {
        match x.right.take() {
            Some(mut y) => {
                x.right = y.left;
                y.left = Some(x);
                *node = Some(y);
            },
            None => {
                *node = Some(x);
            },
        }
    }
}

/// Rotates the subtree in `node` to the right, promoting the left child;
/// a no-op when the root or its left child is absent.
pub fn right_rotate(node: &mut Option<Box<Node>>)
    ensures
        right_rotated(*old(node), *final(node)),
{
    if let Some(mut y) = node.take() {
        match y.left.take() {
            Some(mut x) => {
                y.left = x.right;
                x.right = Some(y);
                *node = Some(x);
            },
            None => {
                *node = Some(y);
            },
        }
    }
}

/// A left rotation leaves the in-order key sequence as it was.
pub proof fn lemma_left_rotated_in_order(t: Option<Box<Node>>, r: Option<Box<Node>>)
    requires
        left_rotated(t, r),
    ensures
        in_order(r) == in_order(t),
{
    match t {
        None => {},
        Some(x) => match x.right {
            None => {},
            Some(y) => {
                let ry = r.unwrap();
                let rx = ry.left.unwrap();
                assert(in_order(t) == in_order(x.left) + seq![x.value] + in_order(x.right));
                assert(in_order(x.right) == in_order(y.left) + seq![y.value] + in_order(y.right));
                assert(in_order(r) == in_order(ry.left) + seq![ry.value] + in_order(ry.right));
                assert(in_order(ry.left) == in_order(rx.left) + seq![rx.value] + in_order(
                    rx.right,
                ));
                assert(in_order(r) =~= in_order(t));
            },
        },
    }
}

/// A right rotation leaves the in-order key sequence as it was.
pub proof fn lemma_right_rotated_in_order(t: Option<Box<Node>>, r: Option<Box<Node>>)
    requires
        right_rotated(t, r),
    ensures
        in_order(r) == in_order(t),
{
    match t {
        None => {},
        Some(y) => match y.left {
            None => {},
            Some(x) => {
                let rx = r.unwrap();
                let ry = rx.right.unwrap();
                assert(in_order(t) == in_order(y.left) + seq![y.value] + in_order(y.right));
                assert(in_order(y.left) == in_order(x.left) + seq![x.value] + in_order(x.right));
                assert(in_order(r) == in_order(rx.left) + seq![rx.value] + in_order(rx.right));
                assert(in_order(rx.right) == in_order(ry.left) + seq![ry.value] + in_order(
                    ry.right,
                ));
                assert(in_order(r) =~= in_order(t));
            },
        },
    }
}

/// A left rotation preserves the weak search-tree invariant.
pub proof fn lemma_left_rotated_ordered(t: Option<Box<Node>>, r: Option<Box<Node>>)
    requires
        left_rotated(t, r),
        ordered(t),
    ensures
        ordered(r),
{
    lemma_left_rotated_in_order(t, r);
    lemma_ordered_sorted(t);
    lemma_ordered_sorted(r);
}

/// A right rotation preserves the weak search-tree invariant.
pub proof fn lemma_right_rotated_ordered(t: Option<Box<Node>>, r: Option<Box<Node>>)
    requires
        right_rotated(t, r),
        ordered(t),
    ensures
        ordered(r),
{
    lemma_right_rotated_in_order(t, r);
    lemma_ordered_sorted(t);
    lemma_ordered_sorted(r);
}

/// Rotating one way and then the other — left then right, or right then left
/// — restores the original in-order key sequence, whatever the two rotations
/// do to the shape of the tree.
pub proof fn lemma_rotate_round_trip(
    t: Option<Box<Node>>,
    u: Option<Box<Node>>,
    w: Option<Box<Node>>,
)
    requires
        (left_rotated(t, u) && right_rotated(u, w)) || (right_rotated(t, u) && left_rotated(u, w)),
    ensures
        in_order(w) == in_order(t),
{
    if left_rotated(t, u) && right_rotated(u, w) {
        lemma_left_rotated_in_order(t, u);
        lemma_right_rotated_in_order(u, w);
    } else {
        lemma_right_rotated_in_order(t, u);
        lemma_left_rotated_in_order(u, w);
    }
}

/// The height of an absent subtree is 0, and a no-op rotation attempt — a
/// left rotation without a right child, or a right rotation without a left
/// child — leaves the tree, and so its height, unchanged.
pub proof fn lemma_noop_rotation(t: Option<Box<Node>>, r: Option<Box<Node>>)
    requires
        (left_rotated(t, r) && (t is None || t.unwrap().right is None)) || (right_rotated(t, r) && (
        t is None || t.unwrap().left is None)),
    ensures
        r == t,
        height_of(r) == height_of(t),
        height_of(Option::<Box<Node>>::None) == 0,
{
}

/// Balance factor of a node: the height of the left subtree minus the height
/// of the right one. The node is left unchanged.
pub fn balance_factor(node: &mut Box<Node>) -> (b: i32)
    requires
        node_height(**old(node)) <= i32::MAX,
    ensures
        *final(node) == *old(node),
        b == height_of(old(node).left) - height_of(old(node).right),
{
    height(&node.left) - height(&node.right)
}

/// Inserts `value` into the height-balanced tree in `root` and rebalances on
/// the way back up: equal or smaller keys descend left, larger ones right,
/// and a new leaf is attached at an absent subtree. At each node on the
/// unwind path the balance factor is checked; a subtree two higher on one
/// side is repaired by a single or a double rotation, chosen by which
/// grandchild subtree is the taller. The in-order keys afterwards are exactly
/// the old ones plus `value`, the weak search-tree invariant is preserved,
/// the height-balance invariant is restored at every node, and the height
/// grows by at most one.
#[verifier::rlimit(100)]
pub fn insert_avl_node(value: i32, root: &mut Option<Box<Node>>)
    requires
        is_avl(*old(root)),
        height_of(*old(root)) + 1 <= i32::MAX,
    ensures
        is_avl(*final(root)),
        *final(root) is Some,
        in_order(*final(root)).to_multiset() =~= in_order(*old(root)).to_multiset().insert(value),
        forall|k: i32|
            in_order(*final(root)).contains(k) ==> in_order(*old(root)).contains(k) || k == value,
        ordered(*old(root)) ==> ordered(*final(root)),
        height_of(*old(root)) <= height_of(*final(root)) <= height_of(*old(root)) + 1,
        height_of(*final(root)) == height_of(*old(root)) + 1 && height_of(*final(root)) >= 2
            ==> height_of(final(root).unwrap().left) != height_of(final(root).unwrap().right),
    decreases *old(root),
{
    match root.take() {
        None => {
            *root = Some(Box::new(Node { value, left: None, right: None }));
            proof {
                assert(in_order(*root) =~= Seq::empty().push(value));
            }
        },
        Some(mut n) => {
            let ghost t0 = *old(root);
            let ghost n0 = *n;
            proof {
                assert(is_avl(n0.left) && is_avl(n0.right));
                assert(in_order(t0) == in_order(n0.left) + seq![n0.value] + in_order(n0.right));
                assert(in_order(n0.left) + seq![n0.value] + in_order(n0.right) =~= in_order(
                    n0.left,
                ) + (seq![n0.value] + in_order(n0.right)));
            }
            if value <= n.value {
                insert_avl_node(value, &mut n.left);
            } else {
                insert_avl_node(value, &mut n.right);
            }
            let bal = balance_factor(&mut n);
            let ghost n1 = *n;
            proof {
                assert(n1.value == n0.value);
                assert(in_order(n1.left) + seq![n0.value] + in_order(n1.right) =~= in_order(
                    n1.left,
                ) + (seq![n0.value] + in_order(n1.right)));
            }
            if bal > 1 {
                proof {
                    assert(value <= n0.value && n1.right == n0.right);
                    assert(height_of(n1.left) == height_of(n0.right) + 2);
                    assert(height_of(n1.left) == height_of(n0.left) + 1);
                    assert(n1.left is Some);
                    assert(height_of(n1.left.unwrap().left) != height_of(n1.left.unwrap().right));
                }
                let dbl = if let Some(l) = &n.left {
                    height(&l.left) < height(&l.right)
                } else {
                    proof {
                        assert(false);
                    }
                    false
                };
                if dbl {
                    proof {
                        let l = n1.left.unwrap();
                        assert(height_of(l.right) == height_of(n0.right) + 1);
                        assert(height_of(l.left) == height_of(n0.right));
                        assert(l.right is Some);
                        assert(is_avl(l.right));
                    }
                    left_rotate(&mut n.left);
                    proof {
                        let l = n1.left.unwrap();
                        let m = l.right.unwrap();
                        lemma_left_rotated_in_order(n1.left, n.left);
                        if ordered(t0) {
                            assert(ordered(n1.left));
                            lemma_left_rotated_ordered(n1.left, n.left);
                        }
                        let l2 = n.left.unwrap();
                        let lx = l2.left.unwrap();
                        assert(lx.left == l.left && lx.right == m.left && l2.right == m.right);
                        assert(height_of(m.left) <= height_of(n0.right) && height_of(m.left) + 1
                            >= height_of(n0.right));
                        assert(height_of(m.right) <= height_of(n0.right) && height_of(m.right) + 1
                            >= height_of(n0.right));
                        assert(height_of(l2.left) == 1 + nat_max(
                            height_of(l.left),
                            height_of(m.left),
                        ));
                        assert(height_of(l2.left) == height_of(n0.right) + 1);
                        assert(is_avl(l2.left) && is_avl(l2.right));
                    }
                } else {
                    proof {
                        let l = n1.left.unwrap();
                        assert(height_of(l.left) == height_of(n0.right) + 1);
                        assert(height_of(l.right) == height_of(n0.right));
                        assert(is_avl(l.left) && is_avl(l.right));
                    }
                }
                let ghost n2 = n;
                *root = Some(n);
                right_rotate(root);
                proof {
                    let ls = n2.left.unwrap();
                    assert(height_of(ls.left) == height_of(n0.right) + 1);
                    assert(height_of(ls.right) <= height_of(n0.right) && height_of(ls.right) + 1
                        >= height_of(n0.right));
                    assert(is_avl(ls.left) && is_avl(ls.right));
                    assert(right_rotated(Some(n2), *root));
                    lemma_right_rotated_in_order(Some(n2), *root);
                    assert(in_order(Some(n2)) == in_order(n2.left) + seq![n0.value] + in_order(
                        n0.right,
                    ));
                    assert(in_order(n2.left) + seq![n0.value] + in_order(n0.right) =~= in_order(
                        n2.left,
                    ) + (seq![n0.value] + in_order(n0.right)));
                    assert(in_order(n2.left) == in_order(n1.left));
                    assert(in_order(n2.left).to_multiset() =~= in_order(
                        n0.left,
                    ).to_multiset().insert(value));
                    if ordered(t0) {
                        assert(ordered(n2.left));
                        assert forall|k: i32| in_order(n2.left).contains(k) implies k
                            <= n0.value by {
                            assert(in_order(n1.left).contains(k));
                        }
                        assert(ordered(Some(n2)));
                        lemma_right_rotated_ordered(Some(n2), *root);
                    }
                    let fx = root.unwrap();
                    let fy = fx.right.unwrap();
                    assert(fx.left == ls.left && fy.left == ls.right && fy.right == n0.right);
                    assert(height_of(fx.right) == 1 + nat_max(
                        height_of(ls.right),
                        height_of(n0.right),
                    ));
                    assert(height_of(fx.right) == height_of(n0.right) + 1);
                    assert(is_avl(fx.right));
                    assert(height_of(*root) == height_of(n0.right) + 2);
                    assert(height_of(t0) == height_of(n0.right) + 2);
                    assert(is_avl(*root));
                }
            } else if bal < -1 {
                proof {
                    assert(value > n0.value && n1.left == n0.left);
                    assert(height_of(n1.right) == height_of(n0.left) + 2);
                    assert(height_of(n1.right) == height_of(n0.right) + 1);
                    assert(n1.right is Some);
                    assert(height_of(n1.right.unwrap().left) != height_of(
                        n1.right.unwrap().right,
                    ));
                }
                let dbl = if let Some(r) = &n.right {
                    height(&r.right) < height(&r.left)
                } else {
                    proof {
                        assert(false);
                    }
                    false
                };
                if dbl {
                    proof {
                        let r = n1.right.unwrap();
                        assert(height_of(r.left) == height_of(n0.left) + 1);
                        assert(height_of(r.right) == height_of(n0.left));
                        assert(r.left is Some);
                        assert(is_avl(r.left));
                    }
                    right_rotate(&mut n.right);
                    proof {
                        let r = n1.right.unwrap();
                        let m = r.left.unwrap();
                        lemma_right_rotated_in_order(n1.right, n.right);
                        if ordered(t0) {
                            assert(ordered(n1.right));
                            lemma_right_rotated_ordered(n1.right, n.right);
                        }
                        let r2 = n.right.unwrap();
                        let ry = r2.right.unwrap();
                        assert(ry.right == r.right && ry.left == m.right && r2.left == m.left);
                        assert(height_of(m.left) <= height_of(n0.left) && height_of(m.left) + 1
                            >= height_of(n0.left));
                        assert(height_of(m.right) <= height_of(n0.left) && height_of(m.right) + 1
                            >= height_of(n0.left));
                        assert(height_of(r2.right) == 1 + nat_max(
                            height_of(m.right),
                            height_of(r.right),
                        ));
                        assert(height_of(r2.right) == height_of(n0.left) + 1);
                        assert(is_avl(r2.left) && is_avl(r2.right));
                    }
                } else {
                    proof {
                        let r = n1.right.unwrap();
                        assert(height_of(r.right) == height_of(n0.left) + 1);
                        assert(height_of(r.left) == height_of(n0.left));
                        assert(is_avl(r.left) && is_avl(r.right));
                    }
                }
                let ghost n2 = n;
                *root = Some(n);
                left_rotate(root);
                proof {
                    let rs = n2.right.unwrap();
                    assert(height_of(rs.right) == height_of(n0.left) + 1);
                    assert(height_of(rs.left) <= height_of(n0.left) && height_of(rs.left) + 1
                        >= height_of(n0.left));
                    assert(is_avl(rs.left) && is_avl(rs.right));
                    assert(left_rotated(Some(n2), *root));
                    lemma_left_rotated_in_order(Some(n2), *root);
                    assert(in_order(Some(n2)) == in_order(n0.left) + seq![n0.value] + in_order(
                        n2.right,
                    ));
                    assert(in_order(n0.left) + seq![n0.value] + in_order(n2.right) =~= in_order(
                        n0.left,
                    ) + (seq![n0.value] + in_order(n2.right)));
                    assert(in_order(n2.right) == in_order(n1.right));
                    assert(in_order(n2.right).to_multiset() =~= in_order(
                        n0.right,
                    ).to_multiset().insert(value));
                    if ordered(t0) {
                        assert(ordered(n2.right));
                        assert forall|k: i32| in_order(n2.right).contains(k) implies n0.value
                            <= k by {
                            assert(in_order(n1.right).contains(k));
                        }
                        assert(ordered(Some(n2)));
                        lemma_left_rotated_ordered(Some(n2), *root);
                    }
                    let fy = root.unwrap();
                    let fx = fy.left.unwrap();
                    assert(fy.right == rs.right && fx.right == rs.left && fx.left == n0.left);
                    assert(height_of(fy.left) == 1 + nat_max(
                        height_of(n0.left),
                        height_of(rs.left),
                    ));
                    assert(height_of(fy.left) == height_of(n0.left) + 1);
                    assert(is_avl(fy.left));
                    assert(height_of(*root) == height_of(n0.left) + 2);
                    assert(height_of(t0) == height_of(n0.left) + 2);
                    assert(is_avl(*root));
                }
            } else {
                *root = Some(n);
                proof {
                    assert(height_of(*root) == 1 + nat_max(
                        height_of(n1.left),
                        height_of(n1.right),
                    ));
                    assert(height_of(t0) == 1 + nat_max(height_of(n0.left), height_of(n0.right)));
                }
            }
        },
    }
}

/// Builds a height-balanced search tree from `dataset`: the first element
/// seeds the root and every remaining element is inserted in dataset order,
/// each insertion rebalancing as it unwinds. An empty dataset is rejected.
/// The tree holds exactly the keys of the dataset and satisfies both the weak
/// search-tree invariant and the height-balance invariant.
pub fn build_avl_tree(dataset: &Vec<i32>) -> (r: Result<Node, BuildError>)
    requires
        dataset@.len() <= i32::MAX,
    ensures
        dataset@.len() == 0 <==> r is Err,
        r is Err ==> r == Result::<Node, BuildError>::Err(BuildError::EmptyDataset),
        r matches Ok(t) ==> node_is_avl(t) && node_ordered(t) && node_in_order(t).to_multiset()
            =~= dataset@.to_multiset(),
{
    if dataset.len() == 0 {
        return Err(BuildError::EmptyDataset);
    }
    let seed = Node { value: dataset[0], left: None, right: None };
    let mut root: Option<Box<Node>> = Some(Box::new(seed));
    proof {
        assert(in_order(seed.left) =~= Seq::<i32>::empty());
        assert(is_avl(seed.left) && ordered(seed.left) && height_of(seed.left) == 0);
        assert(in_order(root) == in_order(seed.left) + seq![seed.value] + in_order(seed.right));
        assert(in_order(root) =~= Seq::empty().push(dataset@[0]));
        assert(dataset@.subrange(0, 1) =~= Seq::empty().push(dataset@[0]));
    }
    for i in 1..dataset.len()
        invariant
            i <= dataset@.len(),
            dataset@.len() <= i32::MAX,
            root is Some,
            is_avl(root),
            ordered(root),
            in_order(root).to_multiset() =~= dataset@.subrange(0, i as int).to_multiset(),
            in_order(root).len() == i,
    {
        proof {
            lemma_height_le_len(root);
        }
        let ghost prev = in_order(root);
        insert_avl_node(dataset[i], &mut root);
        proof {
            assert(dataset@.subrange(0, i + 1) =~= dataset@.subrange(0, i as int).push(
                dataset@[i as int],
            ));
            assert(prev.to_multiset().len() == prev.len());
            assert(in_order(root).to_multiset().len() == in_order(root).len());
        }
    }
    proof {
        assert(dataset@.subrange(0, dataset@.len() as int) =~= dataset@);
    }
    match root {
        Some(b) => Ok(*b),
        None => Err(BuildError::EmptyDataset),
    }
}

} // verus!
