use vstd::prelude::*;

use crate::tree::{
    height_of, in_order, is_bst, node_height, node_in_order, node_is_bst, ordered, Node,
};

verus! {

broadcast use {
    vstd::seq_lib::lemma_seq_concat_contains_all_elements,
    vstd::seq_lib::lemma_multiset_commutative,
    vstd::seq_lib::group_to_multiset_ensures,
    vstd::multiset::group_multiset_axioms,
};

/// Building a tree from an empty dataset is rejected.
#[derive(Debug, Clone, Copy, PartialEq, Eq, Structural)]
pub enum BuildError {
    EmptyDataset,
}

/// Whether the three-way descent of `search` reaches the key `v` in the
/// subtree `t`: equal stops, smaller keys descend left, larger ones right.
pub open spec fn search_found(v: i32, t: Option<Box<Node>>) -> bool
    decreases t,
{
    match t {
        None => false,
        Some(n) => if v == n.value {
            true
        } else if v < n.value {
            search_found(v, n.left)
        } else {
            search_found(v, n.right)
        },
    }
}

/// `search_found` for a tree given by its root node.
pub open spec fn node_search_found(v: i32, n: Node) -> bool {
    if v == n.value {
        true
    } else if v < n.value {
        search_found(v, n.left)
    } else {
        search_found(v, n.right)
    }
}

/// How many nodes the three-way descent of `search` visits in the subtree
/// `t`: one per node on the descent path, none for an absent subtree.
pub open spec fn search_reads(v: i32, t: Option<Box<Node>>) -> nat
    decreases t,
{
    match t {
        None => 0,
        Some(n) => 1 + if v == n.value {
            0
        } else if v < n.value {
            search_reads(v, n.left)
        } else {
            search_reads(v, n.right)
        },
    }
}

/// `search_reads` for a tree given by its root node.
pub open spec fn node_search_reads(v: i32, n: Node) -> nat {
    1 + if v == n.value {
        0
    } else if v < n.value {
        search_reads(v, n.left)
    } else {
        search_reads(v, n.right)
    }
}

/// The exact shape the unbalanced insertion produces: the descent copies the
/// path — equal or smaller keys go left, larger ones right — and a new leaf
/// stands where the path met an absent subtree.
pub open spec fn bst_inserted(v: i32, t: Option<Box<Node>>, r: Option<Box<Node>>) -> bool
    decreases t,
{
    match t {
        None => r matches Some(n) && n.value == v && n.left is None && n.right is None,
        Some(n) => r matches Some(m) && m.value == n.value && (if v <= n.value {
            m.right == n.right && bst_inserted(v, n.left, m.left)
        } else {
            m.left == n.left && bst_inserted(v, n.right, m.right)
        }),
    }
}

/// The exact shape `insert_node` produces, for a tree given by its root node.
pub open spec fn node_bst_inserted(v: i32, n: Node, m: Node) -> bool {
    m.value == n.value && (if v <= n.value {
        m.right == n.right && bst_inserted(v, n.left, m.left)
    } else {
        m.left == n.left && bst_inserted(v, n.right, m.right)
    })
}

fn insert_into(value: i32, node: &mut Option<Box<Node>>)
    ensures
        bst_inserted(value, *old(node), *final(node)),
        in_order(*final(node)).to_multiset() =~= in_order(*old(node)).to_multiset().insert(value),
        forall|k: i32|
            in_order(*final(node)).contains(k) ==> in_order(*old(node)).contains(k) || k == value,
        is_bst(*old(node)) ==> is_bst(*final(node)),
        height_of(*old(node)) <= height_of(*final(node)) <= height_of(*old(node)) + 1,
    decreases *old(node),
{
    match node.take() {
        None => {
            *node = Some(Box::new(Node { value, left: None, right: None }));
            proof {
                assert(in_order(*node) =~= Seq::empty().push(value));
            }
        },
        Some(mut n) => {
            let ghost n0 = *n;
            if value <= n.value {
                insert_into(value, &mut n.left);
            } else {
                insert_into(value, &mut n.right);
            }
            proof {
                assert(in_order(n.left) + seq![n0.value] + in_order(n.right) =~= in_order(n.left)
                    + (seq![n0.value] + in_order(n.right)));
                assert(in_order(n0.left) + seq![n0.value] + in_order(n0.right) =~= in_order(
                    n0.left,
                ) + (seq![n0.value] + in_order(n0.right)));
            }
            *node = Some(n);
        },
    }
}

/// Inserts `value` into the tree rooted at `root`: equal or smaller keys
/// descend left, larger ones right, and a new leaf is attached where the
/// chosen side is absent. No rebalancing takes place. The in-order keys of
/// the tree afterwards are exactly the old ones plus `value`, the root key is
/// unchanged, the search-tree invariant is preserved, and the height grows by
/// at most one.
pub fn insert_node(value: i32, root: &mut Node)
    ensures
        node_bst_inserted(value, *old(root), *final(root)),
        node_in_order(*final(root)).to_multiset() =~= node_in_order(*old(root)).to_multiset()
            .insert(value),
        forall|k: i32|
            node_in_order(*final(root)).contains(k) ==> node_in_order(*old(root)).contains(k) || k
                == value,
        node_is_bst(*old(root)) ==> node_is_bst(*final(root)),
        final(root).value == old(root).value,
        node_height(*old(root)) <= node_height(*final(root)) <= node_height(*old(root)) + 1,
{
    let ghost r0 = *root;
    if value <= root.value {
        insert_into(value, &mut root.left);
    } else {
        insert_into(value, &mut root.right);
    }
    proof {
        assert(in_order(root.left) + seq![r0.value] + in_order(root.right) =~= in_order(root.left)
            + (seq![r0.value] + in_order(root.right)));
        assert(in_order(r0.left) + seq![r0.value] + in_order(r0.right) =~= in_order(r0.left) + (
        seq![r0.value] + in_order(r0.right)));
    }
}

/// Searches for `value` in the tree rooted at `root`, adding to `no_of_read`
/// one comparison per node visited: equal keys stop the walk, smaller keys
/// descend left, larger ones right, and reaching an absent subtree reports
/// the key absent. The count added is at least one and at most the height of
/// the tree.
pub fn search(value: i32, root: &Node, no_of_read: &mut i32) -> (found: bool)
    requires
        *old(no_of_read) + node_height(*root) <= i32::MAX,
    ensures
        found == node_search_found(value, *root),
        *final(no_of_read) == *old(no_of_read) + node_search_reads(value, *root),
        1 <= node_search_reads(value, *root) <= node_height(*root),
    decreases *root,
{
    *no_of_read += 1;
    if value == root.value {
        true
    } else if value < root.value {
        match &root.left {
            Some(left) => search(value, left, no_of_read),
            None => false,
        }
    } else {
        match &root.right {
            Some(right) => search(value, right, no_of_read),
            None => false,
        }
    }
}

/// Runs `search` for `value` over the tree rooted at `node` with a fresh
/// counter, and returns whether the key was found together with the number of
/// nodes visited.
pub fn search_value(node: &Node, value: i32) -> (r: (bool, i32))
    requires
        node_height(*node) <= i32::MAX,
    ensures
        r.0 == node_search_found(value, *node),
        r.1 == node_search_reads(value, *node),
        1 <= r.1 <= node_height(*node),
{
    let mut no_of_read: i32 = 0;
    let found = search(value, node, &mut no_of_read);
    (found, no_of_read)
}

/// Builds an unbalanced search tree from `dataset`: the first element seeds
/// the root and every remaining element is inserted in dataset order. An
/// empty dataset is rejected. The tree holds exactly the keys of the dataset
/// and satisfies the strict search-tree invariant.
pub fn build_tree(dataset: &Vec<i32>) -> (r: Result<Node, BuildError>)
    ensures
        dataset@.len() == 0 <==> r is Err,
        r is Err ==> r == Result::<Node, BuildError>::Err(BuildError::EmptyDataset),
        r matches Ok(t) ==> t.value == dataset@[0] && node_is_bst(t) && node_in_order(
            t,
        ).to_multiset() =~= dataset@.to_multiset(),
{
    if dataset.len() == 0 {
        return Err(BuildError::EmptyDataset);
    }
    let mut root = Node { value: dataset[0], left: None, right: None };
    proof {
        assert(node_in_order(root) =~= Seq::empty().push(dataset@[0]));
        assert(dataset@.subrange(0, 1) =~= Seq::empty().push(dataset@[0]));
    }
    for i in 1..dataset.len()
        invariant
            i <= dataset@.len(),
            root.value == dataset@[0],
            node_is_bst(root),
            node_in_order(root).to_multiset() =~= dataset@.subrange(0, i as int).to_multiset(),
    {
        insert_node(dataset[i], &mut root);
        proof {
            assert(dataset@.subrange(0, i + 1) =~= dataset@.subrange(0, i as int).push(
                dataset@[i as int],
            ));
        }
    }
    proof {
        assert(dataset@.subrange(0, dataset@.len() as int) =~= dataset@);
    }
    Ok(root)
}

/// Search correctness: on an ordered tree, the three-way descent finds a key
/// exactly when the key occurs in the in-order traversal.
pub proof fn lemma_search_correct(v: i32, t: Option<Box<Node>>)
    requires
        ordered(t),
    ensures
        search_found(v, t) <==> in_order(t).contains(v),
    decreases t,
{
    match t {
        None => {},
        Some(n) => {
            lemma_search_correct(v, n.left);
            lemma_search_correct(v, n.right);
            assert(seq![n.value][0] == n.value);
            if v == n.value {
                assert(in_order(t).contains(v));
            } else {
                assert forall|k: i32| seq![n.value].contains(k) implies k == n.value by {
                    let i = choose|i: int| 0 <= i < 1 && seq![n.value][i] == k;
                }
            }
        },
    }
}

/// Search correctness for a tree given by its root node.
pub proof fn lemma_node_search_correct(v: i32, n: Node)
    requires
        crate::tree::node_ordered(n),
    ensures
        node_search_found(v, n) <==> node_in_order(n).contains(v),
{
    lemma_search_correct(v, n.left);
    lemma_search_correct(v, n.right);
    assert(seq![n.value][0] == n.value);
    if v == n.value {
        assert(node_in_order(n).contains(v));
    } else {
        assert forall|k: i32| seq![n.value].contains(k) implies k == n.value by {
            let i = choose|i: int| 0 <= i < 1 && seq![n.value][i] == k;
        }
    }
}

/// Comparison-count bound: a search visits at least one node of a non-empty
/// tree and never more nodes than the tree is high.
pub proof fn lemma_search_reads_bounds(v: i32, t: Option<Box<Node>>)
    ensures
        search_reads(v, t) <= height_of(t),
        t is Some ==> 1 <= search_reads(v, t),
    decreases t,
{
    match t {
        None => {},
        Some(n) => {
            lemma_search_reads_bounds(v, n.left);
            lemma_search_reads_bounds(v, n.right);
        },
    }
}

} // verus!

