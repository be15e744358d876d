use vstd::prelude::*;

verus! {

broadcast use vstd::seq_lib::lemma_seq_concat_contains_all_elements;

/// One node of a binary tree: a key and two optional, exclusively owned
/// subtrees. An absent child stands for an empty subtree.
#[derive(Debug)]
pub struct Node {
    pub value: i32,
    pub left: Option<Box<Node>>,
    pub right: Option<Box<Node>>,
}

/// The larger of two natural numbers.
pub open spec fn nat_max(a: nat, b: nat) -> nat {
    if a >= b {
        a
    } else {
        b
    }
}

/// Height of a subtree: 0 when absent, otherwise one more than the taller
/// child.
pub open spec fn height_of(t: Option<Box<Node>>) -> nat
    decreases t,
{
    match t {
        None => 0,
        Some(n) => 1 + nat_max(height_of(n.left), height_of(n.right)),
    }
}

/// Height of a tree given by its root node.
pub open spec fn node_height(n: Node) -> nat {
    1 + nat_max(height_of(n.left), height_of(n.right))
}

/// The keys of a subtree, listed by an in-order traversal: left subtree
/// first, then the node's own key, then the right subtree.
pub open spec fn in_order(t: Option<Box<Node>>) -> Seq<i32>
    decreases t,
{
    match t {
        None => Seq::empty(),
        Some(n) => in_order(n.left) + seq![n.value] + in_order(n.right),
    }
}

/// In-order traversal of a tree given by its root node.
pub open spec fn node_in_order(n: Node) -> Seq<i32> {
    in_order(n.left) + seq![n.value] + in_order(n.right)
}

/// A sequence is non-decreasing.
pub open spec fn sorted(s: Seq<i32>) -> bool {
    forall|i: int, j: int| 0 <= i < j < s.len() ==> s[i] <= s[j]
}

/// The strict search-tree invariant kept by the unbalanced engine: at every
/// node, all keys to the left are at most the node's key (ties go left) and
/// all keys to the right are strictly greater.
pub open spec fn is_bst(t: Option<Box<Node>>) -> bool
    decreases t,
{
    match t {
        None => true,
        Some(n) => is_bst(n.left) && is_bst(n.right) && (forall|k: i32|
            in_order(n.left).contains(k) ==> k <= n.value) && (forall|k: i32|
            in_order(n.right).contains(k) ==> n.value < k),
    }
}

/// The strict search-tree invariant, for a tree given by its root node.
pub open spec fn node_is_bst(n: Node) -> bool {
    is_bst(n.left) && is_bst(n.right) && (forall|k: i32| in_order(n.left).contains(k) ==> k
        <= n.value) && (forall|k: i32| in_order(n.right).contains(k) ==> n.value < k)
}

/// The weak search-tree invariant kept by the AVL engine, whose rotations can
/// move a duplicate key into a right subtree: at every node, all keys to the
/// left are at most the node's key, all keys to the right at least it. This
/// still pins the in-order traversal to be non-decreasing and suffices for
/// search.
pub open spec fn ordered(t: Option<Box<Node>>) -> bool
    decreases t,
{
    match t {
        None => true,
        Some(n) => ordered(n.left) && ordered(n.right) && (forall|k: i32|
            in_order(n.left).contains(k) ==> k <= n.value) && (forall|k: i32|
            in_order(n.right).contains(k) ==> n.value <= k),
    }
}

/// The weak search-tree invariant, for a tree given by its root node.
pub open spec fn node_ordered(n: Node) -> bool {
    ordered(n.left) && ordered(n.right) && (forall|k: i32| in_order(n.left).contains(k) ==> k
        <= n.value) && (forall|k: i32| in_order(n.right).contains(k) ==> n.value <= k)
}

/// The height-balance invariant of an AVL tree: at every node the heights of
/// the two subtrees differ by at most one.
pub open spec fn is_avl(t: Option<Box<Node>>) -> bool
    decreases t,
{
    match t {
        None => true,
        Some(n) => is_avl(n.left) && is_avl(n.right) && height_of(n.left) - height_of(n.right)
            <= 1 && height_of(n.right) - height_of(n.left) <= 1,
    }
}

/// The height-balance invariant, for a tree given by its root node.
pub open spec fn node_is_avl(n: Node) -> bool {
    is_avl(n.left) && is_avl(n.right) && height_of(n.left) - height_of(n.right) <= 1 && height_of(
        n.right,
    ) - height_of(n.left) <= 1
}

/// The strict search-tree invariant implies the weak one.
pub proof fn lemma_is_bst_ordered(t: Option<Box<Node>>)
    ensures
        is_bst(t) ==> ordered(t),
    decreases t,
{
    match t {
        None => {},
        Some(n) => {
            lemma_is_bst_ordered(n.left);
            lemma_is_bst_ordered(n.right);
        },
    }
}

/// An ordered tree is exactly one whose in-order traversal is non-decreasing.
/// In particular, every tree either engine builds has a sorted in-order
/// traversal.
pub proof fn lemma_ordered_sorted(t: Option<Box<Node>>)
    ensures
        ordered(t) <==> sorted(in_order(t)),
    decreases t,
{
    match t {
        None => {},
        Some(n) => {
            lemma_ordered_sorted(n.left);
            lemma_ordered_sorted(n.right);
            let l = in_order(n.left);
            let r = in_order(n.right);
            let v = n.value;
            let s = in_order(t);
            assert(s == l + seq![v] + r);
            if ordered(t) {
                assert forall|i: int, j: int| 0 <= i < j < s.len() implies s[i] <= s[j] by {
                    if i < l.len() {
                        assert(l.contains(l[i]));
                    }
                    if j >= l.len() + 1 {
                        assert(r.contains(r[j - l.len() - 1]));
                    }
                }
            }
            if sorted(s) {
                assert(s[l.len() as int] == v);
                assert forall|k: i32| l.contains(k) implies k <= v by {
                    let i = choose|i: int| 0 <= i < l.len() && l[i] == k;
                    assert(s[i] == k);
                }
                assert forall|k: i32| r.contains(k) implies v <= k by {
                    let i = choose|i: int| 0 <= i < r.len() && r[i] == k;
                    assert(s[l.len() + 1 + i] == k);
                }
                assert forall|i: int, j: int| 0 <= i < j < l.len() implies l[i] <= l[j] by {
                    assert(s[i] == l[i] && s[j] == l[j]);
                }
                assert forall|i: int, j: int| 0 <= i < j < r.len() implies r[i] <= r[j] by {
                    assert(s[l.len() + 1 + i] == r[i] && s[l.len() + 1 + j] == r[j]);
                }
            }
        },
    }
}

/// A tree's height never exceeds the number of its keys.
pub proof fn lemma_height_le_len(t: Option<Box<Node>>)
    ensures
        height_of(t) <= in_order(t).len(),
    decreases t,
{
    match t {
        None => {},
        Some(n) => {
            lemma_height_le_len(n.left);
            lemma_height_le_len(n.right);
            assert(in_order(t).len() == in_order(n.left).len() + 1 + in_order(n.right).len());
        },
    }
}

/// Computes the height of a subtree: 0 for an absent subtree, otherwise
/// one more than the taller child.
pub fn height(node: &Option<Box<Node>>) -> (h: i32)
    requires
        height_of(*node) <= i32::MAX,
    ensures
        h == height_of(*node),
    decreases *node,
{
    match node {
        None => 0,
        Some(n) => {
            let hl = height(&n.left);
            let hr = height(&n.right);
            if hl >= hr {
                hl + 1
            } else {
                hr + 1
            }
        },
    }
}

/// Collects the keys of a subtree by an in-order traversal: left subtree
/// first, then the node's own key, then the right subtree.
pub fn in_order_keys(node: &Option<Box<Node>>) -> (r: Vec<i32>)
    ensures
        r@ == in_order(*node),
    decreases *node,
{
    let mut r: Vec<i32> = Vec::new();
    match node {
        None => {},
        Some(n) => {
            let mut left_keys = in_order_keys(&n.left);
            r.append(&mut left_keys);
            r.push(n.value);
            let mut right_keys = in_order_keys(&n.right);
            r.append(&mut right_keys);
        },
    }
    proof {
        assert(r@ =~= in_order(*node));
    }
    r
}

} // verus!
