//! A height-balanced binary search tree of integers. Every node records the
//! height of the subtree it heads; an insertion that leaves a node with one
//! side two levels deeper than the other is mended by rotations on the way
//! back up. Equal values are kept, each in a node of its own.

use vstd::prelude::*;
use crate::binary_trees::tree::{
    ints, lemma_contains_contents, lemma_inorder_sorted, lemma_rotate_left,
    lemma_rotate_left_height, lemma_rotate_right, lemma_rotate_right_height, Tree,
};

verus! {

/// A subtree: nothing, or an owned node.
pub(crate) type Link = Option<Box<AVLNode>>;

/// One node, with the height of the subtree it heads.
#[derive(Debug)]
pub(crate) struct AVLNode {
    left: Link,
    right: Link,
    data: i32,
    height: i32,
}

/// A height-balanced binary search tree.
#[derive(Debug)]
pub struct Avl {
    root: Link,
}

impl AVLNode {
    /// The tree that a link stands for.
    pub(crate) closed spec fn tree(link: Link) -> Tree
        decreases link,
    {
        match link {
            None => Tree::Empty,
            Some(node) => Tree::Node {
                left: Box::new(Self::tree(node.left)),
                value: node.data as int,
                right: Box::new(Self::tree(node.right)),
            },
        }
    }

    /// Whether every node below the link records the height of its subtree.
    pub(crate) closed spec fn heights_ok(link: Link) -> bool
        decreases link,
    {
        match link {
            None => true,
            Some(node) => {
                &&& Self::heights_ok(node.left)
                &&& Self::heights_ok(node.right)
                &&& node.height as int == Self::tree(link).height()
            },
        }
    }

    /// Whether the link heads a tree that is ordered and balanced and has its
    /// heights recorded.
    pub(crate) closed spec fn avl(link: Link) -> bool {
        &&& Self::heights_ok(link)
        &&& Self::tree(link).is_ordered()
        &&& Self::tree(link).is_balanced()
    }

    /// A node of height one that holds `data` and has no children.
    fn new(data: i32) -> (r: Box<AVLNode>)
        ensures
            AVLNode::tree(Some(r)) == Tree::leaf(data as int),
            AVLNode::avl(Some(r)),
            r.data == data,
    {
        let r = Box::new(AVLNode { left: None, right: None, data, height: 1 });
        proof {
            assert(AVLNode::tree(r.left) == Tree::Empty);
            assert(AVLNode::tree(r.right) == Tree::Empty);
            let t = AVLNode::tree(Some(r));
            assert(t->left.height() == 0 && t->right.height() == 0);
            assert(t.height() == 1);
            assert(AVLNode::heights_ok(r.left) && AVLNode::heights_ok(r.right));
            assert forall|x: int| !Tree::Empty.contains(x) by {}
            assert(t->left.is_ordered() && t->right.is_ordered());
            assert(t.is_ordered());
            assert(t->left.is_balanced() && t->right.is_balanced());
            assert(t.is_balanced());
        }
        r
    }

    /// The height recorded at a link: none for no node.
    fn height_of(link: &Link) -> (h: i32)
        requires
            AVLNode::heights_ok(*link),
        ensures
            h == AVLNode::tree(*link).height(),
    {
        match link {
            Some(node) => node.height,
            None => 0,
        }
    }

    /// Records at `node` the height that the heights of its children give.
    fn update_height(node: &mut Box<AVLNode>)
        requires
            AVLNode::heights_ok(old(node).left),
            AVLNode::heights_ok(old(node).right),
            AVLNode::tree(Some(*old(node))).height() <= i32::MAX,
        ensures
            final(node).left == old(node).left,
            final(node).right == old(node).right,
            final(node).data == old(node).data,
            AVLNode::tree(Some(*final(node))) == AVLNode::tree(Some(*old(node))),
            AVLNode::heights_ok(Some(*final(node))),
    {
        let hl: i32 = AVLNode::height_of(&node.left);
        let hr: i32 = AVLNode::height_of(&node.right);
        node.height = if hl >= hr {
            1 + hl
        } else {
            1 + hr
        };
    }

    /// Turns the subtree to the right about `node`: its left child comes up
    /// and `node` goes down to the right.
    fn rotate_right(mut node: Box<AVLNode>) -> (r: Box<AVLNode>)
        requires
            node.left is Some,
            AVLNode::heights_ok(node.left),
            AVLNode::heights_ok(node.right),
            AVLNode::tree(Some(node)).rotate_right().height() <= i32::MAX,
        ensures
            AVLNode::tree(Some(r)) == AVLNode::tree(Some(node)).rotate_right(),
            AVLNode::heights_ok(Some(r)),
    {
        let ghost turned = AVLNode::tree(Some(node)).rotate_right();
        let mut top: Box<AVLNode> = node.left.take().unwrap();
        node.left = top.right.take();
        assert(AVLNode::tree(Some(node)) == *turned->right);
        AVLNode::update_height(&mut node);
        top.right = Some(node);
        assert(AVLNode::tree(Some(top)) == turned);
        AVLNode::update_height(&mut top);
        top
    }

    /// Turns the subtree to the left about `node`: its right child comes up
    /// and `node` goes down to the left.
    fn rotate_left(mut node: Box<AVLNode>) -> (r: Box<AVLNode>)
        requires
            node.right is Some,
            AVLNode::heights_ok(node.left),
            AVLNode::heights_ok(node.right),
            AVLNode::tree(Some(node)).rotate_left().height() <= i32::MAX,
        ensures
            AVLNode::tree(Some(r)) == AVLNode::tree(Some(node)).rotate_left(),
            AVLNode::heights_ok(Some(r)),
    {
        let ghost turned = AVLNode::tree(Some(node)).rotate_left();
        let mut top: Box<AVLNode> = node.right.take().unwrap();
        node.right = top.left.take();
        assert(AVLNode::tree(Some(node)) == *turned->left);
        AVLNode::update_height(&mut node);
        top.left = Some(node);
        assert(AVLNode::tree(Some(top)) == turned);
        AVLNode::update_height(&mut top);
        top
    }
}

impl View for Avl {
    type V = Tree;

    closed spec fn view(&self) -> Tree {
        AVLNode::tree(self.root)
    }
}

impl Avl {
    /// The invariant of the type: the values are in order, the tree is
    /// balanced at every node, and every node records its height.
    pub closed spec fn wf(&self) -> bool {
        AVLNode::avl(self.root)
    }

    /// A well-formed tree is ordered and balanced, and its height fits the
    /// machine integer in which it is recorded.
    pub proof fn lemma_wf(&self)
        requires
            self.wf(),
        ensures
            self@.is_ordered(),
            self@.is_balanced(),
            self@.height() <= i32::MAX,
    {
    }

    /// The empty tree.
    pub fn new() -> (r: Self)
        ensures
            r.wf(),
            r@ == Tree::Empty,
    {
        Self { root: None }
    }

    /// Number of nodes on the longest way from the root down.
    pub fn height(&self) -> (h: i32)
        requires
            self.wf(),
        ensures
            h == self@.height(),
    {
        AVLNode::height_of(&self.root)
    }

    /// Adds `val`, keeping the order and the balance. A value already
    /// present is added again. The tree grows by one level at most.
    pub fn insert(&mut self, val: i32)
        requires
            old(self).wf(),
            old(self)@.height() < i32::MAX,
        ensures
            final(self).wf(),
            final(self)@.is_ordered(),
            final(self)@.is_balanced(),
            final(self)@.contents() == old(self)@.contents().insert(val as int),
            old(self)@.height() <= final(self)@.height() <= old(self)@.height() + 1,
            old(self)@ is Empty ==> final(self)@ == Tree::leaf(val as int),
    {
        let node = AVLNode::new(val);
        let root = Self::insert_node(self.root.take(), node);
        self.root = Some(root);
    }

    /// The subtree at `curr` with the leaf `node` added: below the left of
    /// every node whose value is larger than its own, below the right of the
    /// others, and every node on the way rebalanced.
    fn insert_node(curr: Link, node: Box<AVLNode>) -> (r: Box<AVLNode>)
        requires
            AVLNode::avl(curr),
            AVLNode::tree(curr).height() < i32::MAX,
            AVLNode::avl(Some(node)),
            AVLNode::tree(Some(node)) == Tree::leaf(node.data as int),
        ensures
            AVLNode::avl(Some(r)),
            AVLNode::tree(Some(r)).contents() == AVLNode::tree(curr).contents().insert(
                node.data as int,
            ),
            AVLNode::tree(curr).height() <= AVLNode::tree(Some(r)).height() <= AVLNode::tree(
                curr,
            ).height() + 1,
            curr is None ==> r == node,
        decreases curr,
    {
        match curr {
            None => {
                assert(AVLNode::tree(Some(node)).contents() =~= AVLNode::tree(
                    curr,
                ).contents().insert(node.data as int));
                node
            },
            Some(mut n) => {
                let ghost before = AVLNode::tree(curr);
                let ghost v = node.data as int;
                if node.data < n.data {
                    let grown = Self::insert_node(n.left.take(), node);
                    n.left = Some(grown);
                    proof {
                        let after = AVLNode::tree(n.left);
                        assert forall|x: int| #[trigger] after.contains(x) implies x
                            <= n.data by {
                            lemma_contains_contents(after, x);
                            lemma_contains_contents(*before->left, x);
                            assert(before->left.contains(x) ==> x <= n.data);
                        }
                    }
                } else {
                    let grown = Self::insert_node(n.right.take(), node);
                    n.right = Some(grown);
                    proof {
                        let after = AVLNode::tree(n.right);
                        assert forall|x: int| #[trigger] after.contains(x) implies x
                            >= n.data by {
                            lemma_contains_contents(after, x);
                            lemma_contains_contents(*before->right, x);
                            assert(before->right.contains(x) ==> x >= n.data);
                        }
                    }
                }
                proof {
                    let now = AVLNode::tree(Some(n));
                    assert(now.is_ordered());
                    assert(now.contents() =~= before.contents().insert(v));
                }
                Self::rebalance(n)
            },
        }
    }

    /// Mends a node one of whose sides may be two levels deeper than the
    /// other: the deeper side is turned up, after its own inner side has been
    /// turned outwards if that is the deeper one. A node that is in balance
    /// only has its height recorded.
    fn rebalance(mut n: Box<AVLNode>) -> (r: Box<AVLNode>)
        requires
            AVLNode::avl(n.left),
            AVLNode::avl(n.right),
            AVLNode::tree(Some(n)).is_ordered(),
            AVLNode::tree(n.left).height() <= AVLNode::tree(n.right).height() + 2,
            AVLNode::tree(n.right).height() <= AVLNode::tree(n.left).height() + 2,
            AVLNode::tree(Some(n)).height() <= i32::MAX,
        ensures
            AVLNode::avl(Some(r)),
            AVLNode::tree(Some(r)).contents() == AVLNode::tree(Some(n)).contents(),
            AVLNode::tree(Some(r)).inorder() == AVLNode::tree(Some(n)).inorder(),
            AVLNode::tree(Some(r)).height() <= AVLNode::tree(Some(n)).height(),
            AVLNode::tree(Some(r)).height() + 1 >= AVLNode::tree(Some(n)).height(),
            AVLNode::tree(Some(n)).is_balanced() ==> AVLNode::tree(Some(r)) == AVLNode::tree(
                Some(n),
            ),
    {
        let ghost t = AVLNode::tree(Some(n));
        let hl: i32 = AVLNode::height_of(&n.left);
        let hr: i32 = AVLNode::height_of(&n.right);
        if hl > hr + 1 {
            let mut l: Box<AVLNode> = n.left.take().unwrap();
            let ghost lt = AVLNode::tree(Some(l));
            assert(lt == *t->left);
            if AVLNode::height_of(&l.right) > AVLNode::height_of(&l.left) {
                proof {
                    lemma_rotate_left(lt);
                    lemma_rotate_left_height(lt);
                    assert(lt->right.is_balanced());
                    assert(lt.rotate_left().height() == lt.height());
                }
                l = AVLNode::rotate_left(l);
            }
            let ghost lt2 = AVLNode::tree(Some(l));
            n.left = Some(l);
            let ghost t2 = AVLNode::tree(Some(n));
            proof {
                assert(lt2.contents() == lt.contents());
                assert(t2.contents() =~= t.contents());
                assert(t2.inorder() =~= t.inorder());
                assert forall|x: int| #[trigger] lt2.contains(x) implies x <= n.data by {
                    lemma_contains_contents(lt2, x);
                    lemma_contains_contents(lt, x);
                    assert(t->left.contains(x) ==> x <= n.data);
                }
                assert(t2.is_ordered());
                lemma_rotate_right(t2);
                let a = *lt2->left;
                let b = *lt2->right;
                assert(a.is_balanced() && b.is_balanced());
                assert(t2.rotate_right()->left.is_balanced());
                assert(t2.rotate_right()->right.is_balanced());
                assert(t2.rotate_right().is_balanced());
            }
            AVLNode::rotate_right(n)
        } else if hr > hl + 1 {
            let mut r: Box<AVLNode> = n.right.take().unwrap();
            let ghost rt = AVLNode::tree(Some(r));
            assert(rt == *t->right);
            if AVLNode::height_of(&r.left) > AVLNode::height_of(&r.right) {
                proof {
                    lemma_rotate_right(rt);
                    lemma_rotate_right_height(rt);
                    assert(rt->left.is_balanced());
                    assert(rt.rotate_right().height() == rt.height());
                }
                r = AVLNode::rotate_right(r);
            }
            let ghost rt2 = AVLNode::tree(Some(r));
            n.right = Some(r);
            let ghost t2 = AVLNode::tree(Some(n));
            proof {
                assert(rt2.contents() == rt.contents());
                assert(t2.contents() =~= t.contents());
                assert(t2.inorder() =~= t.inorder());
                assert forall|x: int| #[trigger] rt2.contains(x) implies x >= n.data by {
                    lemma_contains_contents(rt2, x);
                    lemma_contains_contents(rt, x);
                    assert(t->right.contains(x) ==> x >= n.data);
                }
                assert(t2.is_ordered());
                lemma_rotate_left(t2);
                let b = *rt2->left;
                let c = *rt2->right;
                assert(b.is_balanced() && c.is_balanced());
                assert(t2.rotate_left()->left.is_balanced());
                assert(t2.rotate_left()->right.is_balanced());
                assert(t2.rotate_left().is_balanced());
            }
            AVLNode::rotate_left(n)
        } else {
            AVLNode::update_height(&mut n);
            n
        }
    }

    /// The values in ascending order.
    pub fn inorder_values(&self) -> (r: Vec<i32>)
        requires
            self.wf(),
        ensures
            ints(r@) == self@.inorder(),
            forall|i: int, j: int| 0 <= i <= j < r@.len() ==> r@[i] <= r@[j],
    {
        let mut out: Vec<i32> = Vec::new();
        Self::inorder(&self.root, &mut out);
        proof {
            assert(ints(Seq::<i32>::empty()) + self@.inorder() =~= self@.inorder());
            lemma_inorder_sorted(self@);
            assert forall|i: int, j: int| 0 <= i <= j < out@.len() implies out@[i] <= out@[j] by {
                assert(ints(out@)[i] == out@[i] as int);
                assert(ints(out@)[j] == out@[j] as int);
            }
        }
        out
    }

    /// Appends the values below `node` to `out`: left subtree, node, right
    /// subtree.
    fn inorder(node: &Link, out: &mut Vec<i32>)
        ensures
            ints(final(out)@) == ints(old(out)@) + AVLNode::tree(*node).inorder(),
        decreases *node,
    {
        if let Some(n) = node {
            Self::inorder(&n.left, out);
            out.push(n.data);
            let ghost mid = out@;
            Self::inorder(&n.right, out);
            assert(ints(mid) =~= (ints(old(out)@) + AVLNode::tree(n.left).inorder()).push(
                n.data as int,
            ));
        }
        assert(ints(out@) =~= ints(old(out)@) + AVLNode::tree(*node).inorder());
    }
}

} // verus!
