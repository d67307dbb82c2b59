//! An unbalanced binary search tree of integers. Equal values are kept, each
//! in a node of its own, to the right of the ones that came before.

use vstd::prelude::*;
use crate::binary_trees::tree::{
    ints, lemma_bst_is_ordered, lemma_delete_contents, lemma_delete_is_bst, lemma_inorder_sorted, lemma_insert_contents,
    lemma_insert_is_bst, lemma_listed, lemma_search_path, lemma_traversals_contain, Tree,
};

verus! {

/// A subtree: nothing, or an owned node.
pub(crate) type Link = Option<Box<BSTNode>>;

/// One node of the tree.
#[derive(Debug)]
pub(crate) struct BSTNode {
    left: Link,
    right: Link,
    data: i32,
}

/// A binary search tree.
#[derive(Debug)]
pub struct Bst {
    root: Link,
}

impl BSTNode {
    /// The tree that a link stands for.
    pub(crate) closed spec fn tree(link: Link) -> Tree
        decreases link,
    {
        match link {
            None => Tree::Empty,
            Some(node) => Tree::Node {
                left: Box::new(Self::tree(node.left)),
                value: node.data as int,
                right: Box::new(Self::tree(node.right)),
            },
        }
    }

    /// A node without children.
    fn new(data: i32) -> (r: Box<BSTNode>)
        ensures
            BSTNode::tree(Some(r)) == Tree::leaf(data as int),
            r.data == data,
    {
        let r = Box::new(BSTNode { left: None, right: None, data });
        assert(BSTNode::tree(r.left) == Tree::Empty);
        assert(BSTNode::tree(r.right) == Tree::Empty);
        r
    }
}

impl View for Bst {
    type V = Tree;

    closed spec fn view(&self) -> Tree {
        BSTNode::tree(self.root)
    }
}

impl Bst {
    /// The invariant of the type: the nodes are in search-tree order.
    pub open spec fn wf(&self) -> bool {
        self@.is_bst()
    }

    /// The empty tree.
    pub fn new() -> (r: Self)
        ensures
            r.wf(),
            r@ == Tree::Empty,
    {
        Self { root: None }
    }

    /// Adds `val` as a new leaf. A value already present is added again.
    pub fn insert(&mut self, val: i32)
        requires
            old(self).wf(),
        ensures
            final(self).wf(),
            final(self)@ == old(self)@.insert(val as int),
            final(self)@.contents() == old(self)@.contents().insert(val as int),
    {
        let node = BSTNode::new(val);
        match &mut self.root {
            Some(root) => Self::insert_node(root, node),
            None => self.root = Some(node),
        }
        proof {
            lemma_insert_is_bst(old(self)@, val as int);
            lemma_insert_contents(old(self)@, val as int);
        }
    }

    /// Hangs the leaf `node` below `curr`: to the left of every node whose
    /// value is larger than its own, to the right of the others.
    fn insert_node(curr: &mut Box<BSTNode>, node: Box<BSTNode>)
        requires
            BSTNode::tree(Some(node)) == Tree::leaf(node.data as int),
        ensures
            BSTNode::tree(Some(*final(curr))) == BSTNode::tree(Some(*old(curr))).insert(
                node.data as int,
            ),
        decreases *old(curr),
    {
        let ghost before = *curr;
        if node.data < curr.data {
            match &mut curr.left {
                Some(left) => Self::insert_node(left, node),
                None => curr.left = Some(node),
            }
            assert(BSTNode::tree(curr.left) == BSTNode::tree(before.left).insert(node.data as int));
        } else {
            match &mut curr.right {
                Some(right) => Self::insert_node(right, node),
                None => curr.right = Some(node),
            }
            assert(BSTNode::tree(curr.right) == BSTNode::tree(before.right).insert(
                node.data as int,
            ));
        }
    }

    /// Whether some node holds `val`.
    pub fn search(&self, val: i32) -> (found: bool)
        requires
            self.wf(),
        ensures
            found == self@.contains(val as int),
    {
        Self::search_node(&self.root, val)
    }

    /// Whether some node below `curr` holds `val`, found by going left where
    /// `val` is smaller than the node and right where it is larger.
    fn search_node(curr: &Link, val: i32) -> (found: bool)
        requires
            BSTNode::tree(*curr).is_bst(),
        ensures
            found == BSTNode::tree(*curr).contains(val as int),
        decreases *curr,
    {
        match curr {
            Some(node) => {
                proof {
                    lemma_search_path(BSTNode::tree(*curr), val as int);
                }
                if val < node.data {
                    Self::search_node(&node.left, val)
                } else if val > node.data {
                    Self::search_node(&node.right, val)
                } else {
                    true
                }
            },
            None => false,
        }
    }

    /// The values in ascending order: left subtree, node, right subtree.
    pub fn inorder_values(&self) -> (r: Vec<i32>)
        requires
            self.wf(),
        ensures
            ints(r@) == self@.inorder(),
            forall|i: int, j: int| 0 <= i <= j < r@.len() ==> r@[i] <= r@[j],
    {
        let mut out: Vec<i32> = Vec::new();
        Self::inorder(&self.root, &mut out);
        proof {
            assert(ints(Seq::<i32>::empty()) + self@.inorder() =~= self@.inorder());
            lemma_bst_is_ordered(self@);
            lemma_inorder_sorted(self@);
            assert forall|i: int, j: int| 0 <= i <= j < out@.len() implies out@[i] <= out@[j] by {
                assert(ints(out@)[i] == out@[i] as int);
                assert(ints(out@)[j] == out@[j] as int);
            }
        }
        out
    }

    /// The values from the root down: node, left subtree, right subtree.
    pub fn preorder_values(&self) -> (r: Vec<i32>)
        ensures
            ints(r@) == self@.preorder(),
    {
        let mut out: Vec<i32> = Vec::new();
        Self::preorder(&self.root, &mut out);
        assert(ints(Seq::<i32>::empty()) + self@.preorder() =~= self@.preorder());
        out
    }

    /// The values from the leaves up: left subtree, right subtree, node.
    pub fn postorder_values(&self) -> (r: Vec<i32>)
        ensures
            ints(r@) == self@.postorder(),
    {
        let mut out: Vec<i32> = Vec::new();
        Self::postorder(&self.root, &mut out);
        assert(ints(Seq::<i32>::empty()) + self@.postorder() =~= self@.postorder());
        out
    }

    /// Calls `visit_fn` on each value, in the order of `inorder_values`. When
    /// it returns, `visit_fn` has run on every value of the tree.
    pub fn inorder_traversal(&self, visit_fn: &mut impl FnMut(&i32))
        requires
            self.wf(),
            forall|x: i32| call_requires(*old(visit_fn), (&x,)),
        ensures
            forall|x: i32| self@.contains(x as int) ==> call_ensures(*final(visit_fn), (&x,), ()),
    {
        let values = self.inorder_values();
        Self::visit_all(&values, visit_fn);
        proof {
            assert forall|x: i32| self@.contains(x as int) implies call_ensures(
                *visit_fn,
                (&x,),
                (),
            ) by {
                lemma_traversals_contain(self@, x as int);
                lemma_listed(values@, x);
            }
        }
    }

    /// Calls `visit_fn` on each value, in the order of `preorder_values`.
    /// When it returns, `visit_fn` has run on every value of the tree.
    pub fn preorder_traversal(&self, visit_fn: &mut impl FnMut(&i32))
        requires
            forall|x: i32| call_requires(*old(visit_fn), (&x,)),
        ensures
            forall|x: i32| self@.contains(x as int) ==> call_ensures(*final(visit_fn), (&x,), ()),
    {
        let values = self.preorder_values();
        Self::visit_all(&values, visit_fn);
        proof {
            assert forall|x: i32| self@.contains(x as int) implies call_ensures(
                *visit_fn,
                (&x,),
                (),
            ) by {
                lemma_traversals_contain(self@, x as int);
                lemma_listed(values@, x);
            }
        }
    }

    /// Calls `visit_fn` on each value, in the order of `postorder_values`.
    /// When it returns, `visit_fn` has run on every value of the tree.
    pub fn postorder_traversal(&self, visit_fn: &mut impl FnMut(&i32))
        requires
            forall|x: i32| call_requires(*old(visit_fn), (&x,)),
        ensures
            forall|x: i32| self@.contains(x as int) ==> call_ensures(*final(visit_fn), (&x,), ()),
    {
        let values = self.postorder_values();
        Self::visit_all(&values, visit_fn);
        proof {
            assert forall|x: i32| self@.contains(x as int) implies call_ensures(
                *visit_fn,
                (&x,),
                (),
            ) by {
                lemma_traversals_contain(self@, x as int);
                lemma_listed(values@, x);
            }
        }
    }

    /// Appends the values below `node` to `out`: left subtree, node, right
    /// subtree.
    fn inorder(node: &Link, out: &mut Vec<i32>)
        ensures
            ints(final(out)@) == ints(old(out)@) + BSTNode::tree(*node).inorder(),
        decreases *node,
    {
        if let Some(n) = node {
            Self::inorder(&n.left, out);
            out.push(n.data);
            let ghost mid = out@;
            Self::inorder(&n.right, out);
            assert(ints(mid) =~= (ints(old(out)@) + BSTNode::tree(n.left).inorder()).push(
                n.data as int,
            ));
        }
        assert(ints(out@) =~= ints(old(out)@) + BSTNode::tree(*node).inorder());
    }

    /// Appends the values below `node` to `out`: node, left subtree, right
    /// subtree.
    fn preorder(node: &Link, out: &mut Vec<i32>)
        ensures
            ints(final(out)@) == ints(old(out)@) + BSTNode::tree(*node).preorder(),
        decreases *node,
    {
        if let Some(n) = node {
            out.push(n.data);
            let ghost first = out@;
            Self::preorder(&n.left, out);
            Self::preorder(&n.right, out);
            assert(ints(first) =~= ints(old(out)@).push(n.data as int));
        }
        assert(ints(out@) =~= ints(old(out)@) + BSTNode::tree(*node).preorder());
    }

    /// Appends the values below `node` to `out`: left subtree, right subtree,
    /// node.
    fn postorder(node: &Link, out: &mut Vec<i32>)
        ensures
            ints(final(out)@) == ints(old(out)@) + BSTNode::tree(*node).postorder(),
        decreases *node,
    {
        if let Some(n) = node {
            Self::postorder(&n.left, out);
            Self::postorder(&n.right, out);
            let ghost both = out@;
            out.push(n.data);
            assert(ints(out@) =~= ints(both).push(n.data as int));
        }
        assert(ints(out@) =~= ints(old(out)@) + BSTNode::tree(*node).postorder());
    }

    /// Calls `visit_fn` on each of `values`, first to last.
    fn visit_all(values: &Vec<i32>, visit_fn: &mut impl FnMut(&i32))
        requires
            forall|x: i32| call_requires(*old(visit_fn), (&x,)),
        ensures
            forall|j: int|
                0 <= j < values@.len() ==> call_ensures(
                    *final(visit_fn),
                    (&#[trigger] values@[j],),
                    (),
                ),
    {
        let mut i: usize = 0;
        while i < values.len()
            invariant
                i <= values.len(),
                forall|x: i32| call_requires(*visit_fn, (&x,)),
                forall|j: int|
                    0 <= j < i ==> call_ensures(*visit_fn, (&#[trigger] values@[j],), ()),
            decreases values.len() - i,
        {
            visit_fn(&values[i]);
            i += 1;
        }
    }

    /// Removes one node that holds `val`, if there is any: the first on the
    /// search path. Every other value stays.
    pub fn delete(&mut self, val: i32)
        requires
            old(self).wf(),
        ensures
            final(self).wf(),
            final(self)@ == old(self)@.delete(val as int),
            final(self)@.contents() == old(self)@.contents().remove(val as int),
    {
        self.root = Self::delete_node(self.root.take(), val);
        proof {
            lemma_delete_is_bst(old(self)@, val as int);
            lemma_delete_contents(old(self)@, val as int);
        }
    }

    /// The subtree `node` without the first node on the search path that
    /// holds `val`.
    fn delete_node(node: Link, val: i32) -> (r: Link)
        requires
            BSTNode::tree(node).is_bst(),
        ensures
            BSTNode::tree(r) == BSTNode::tree(node).delete(val as int),
        decreases node,
    {
        match node {
            Some(mut n) => {
                if val < n.data {
                    let new_left = Self::delete_node(n.left.take(), val);
                    n.left = new_left;
                    Some(n)
                } else if val > n.data {
                    let new_right = Self::delete_node(n.right.take(), val);
                    n.right = new_right;
                    Some(n)
                } else {
                    if n.left.is_none() {
                        return n.right.take();
                    } else if n.right.is_none() {
                        return n.left.take();
                    }
                    let new_data: i32 = Self::find_min(n.right.as_ref().unwrap()).data;
                    let new_right = Self::delete_node(n.right.take(), new_data);
                    n.right = new_right;
                    n.data = new_data;
                    Some(n)
                }
            },
            None => None,
        }
    }

    /// The leftmost node below and including `node`.
    fn find_min(node: &Box<BSTNode>) -> (r: &Box<BSTNode>)
        ensures
            r.data == BSTNode::tree(Some(*node)).min(),
        decreases *node,
    {
        assert(node.left is None <==> BSTNode::tree(node.left) is Empty);
        match &node.left {
            Some(left) => Self::find_min(left),
            None => node,
        }
    }
}

} // verus!
