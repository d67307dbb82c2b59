//! Binary trees of integers as mathematical values, with the search-tree
//! operations defined on them and the facts that make those operations
//! meaningful.

use vstd::prelude::*;
use vstd::multiset::Multiset;

verus! {

/// A binary tree of integers.
pub enum Tree {
    /// The tree without nodes.
    Empty,
    /// A node with its two subtrees.
    Node { left: Box<Tree>, value: int, right: Box<Tree> },
}

impl Tree {
    /// The tree of one node.
    pub open spec fn leaf(v: int) -> Tree {
        Tree::Node { left: Box::new(Tree::Empty), value: v, right: Box::new(Tree::Empty) }
    }

    /// Whether `v` is the value of some node.
    pub open spec fn contains(self, v: int) -> bool
        decreases self,
    {
        match self {
            Tree::Empty => false,
            Tree::Node { left, value, right } => value == v || left.contains(v) || right.contains(v),
        }
    }

    /// The values with their multiplicities.
    pub open spec fn contents(self) -> Multiset<int>
        decreases self,
    {
        match self {
            Tree::Empty => Multiset::empty(),
            Tree::Node { left, value, right } => left.contents().add(right.contents()).insert(
                value,
            ),
        }
    }

    /// The search-tree order: at every node, all values to the left are
    /// smaller and none to the right is.
    pub open spec fn is_bst(self) -> bool
        decreases self,
    {
        match self {
            Tree::Empty => true,
            Tree::Node { left, value, right } => {
                &&& left.is_bst()
                &&& right.is_bst()
                &&& forall|x: int| #[trigger] left.contains(x) ==> x < value
                &&& forall|x: int| #[trigger] right.contains(x) ==> x >= value
            },
        }
    }

    /// The order that survives rotations: at every node, no value to the
    /// left is larger and none to the right is smaller.
    pub open spec fn is_ordered(self) -> bool
        decreases self,
    {
        match self {
            Tree::Empty => true,
            Tree::Node { left, value, right } => {
                &&& left.is_ordered()
                &&& right.is_ordered()
                &&& forall|x: int| #[trigger] left.contains(x) ==> x <= value
                &&& forall|x: int| #[trigger] right.contains(x) ==> x >= value
            },
        }
    }

    /// Number of nodes on the longest way down.
    pub open spec fn height(self) -> nat
        decreases self,
    {
        match self {
            Tree::Empty => 0,
            Tree::Node { left, value, right } => if left.height() >= right.height() {
                1 + left.height()
            } else {
                1 + right.height()
            },
        }
    }

    /// The balance of a height-balanced tree: at every node the heights of
    /// the two subtrees differ by one at most.
    pub open spec fn is_balanced(self) -> bool
        decreases self,
    {
        match self {
            Tree::Empty => true,
            Tree::Node { left, value, right } => {
                &&& left.is_balanced()
                &&& right.is_balanced()
                &&& left.height() <= right.height() + 1
                &&& right.height() <= left.height() + 1
            },
        }
    }

    /// The tree turned to the right about its root: the left child comes up,
    /// the root goes down to its right and takes over what stood between
    /// them. A tree without a left child stays.
    pub open spec fn rotate_right(self) -> Tree {
        if self is Node && *self->left is Node {
            let l = *self->left;
            Tree::Node {
                left: l->left,
                value: l->value,
                right: Box::new(Tree::Node { left: l->right, value: self->value, right: self->right }),
            }
        } else {
            self
        }
    }

    /// The tree turned to the left about its root: the right child comes up,
    /// the root goes down to its left and takes over what stood between
    /// them. A tree without a right child stays.
    pub open spec fn rotate_left(self) -> Tree {
        if self is Node && *self->right is Node {
            let r = *self->right;
            Tree::Node {
                left: Box::new(Tree::Node { left: self->left, value: self->value, right: r->left }),
                value: r->value,
                right: r->right,
            }
        } else {
            self
        }
    }

    /// Left subtree, node, right subtree.
    pub open spec fn inorder(self) -> Seq<int>
        decreases self,
    {
        match self {
            Tree::Empty => Seq::empty(),
            Tree::Node { left, value, right } => left.inorder().push(value) + right.inorder(),
        }
    }

    /// Node, left subtree, right subtree.
    pub open spec fn preorder(self) -> Seq<int>
        decreases self,
    {
        match self {
            Tree::Empty => Seq::empty(),
            Tree::Node { left, value, right } => seq![value] + left.preorder() + right.preorder(),
        }
    }

    /// Left subtree, right subtree, node.
    pub open spec fn postorder(self) -> Seq<int>
        decreases self,
    {
        match self {
            Tree::Empty => Seq::empty(),
            Tree::Node { left, value, right } => (left.postorder() + right.postorder()).push(
                value,
            ),
        }
    }

    /// The tree with `v` added as a new leaf: left of every node it is
    /// smaller than, right of the others.
    pub open spec fn insert(self, v: int) -> Tree
        decreases self,
    {
        match self {
            Tree::Empty => Tree::leaf(v),
            Tree::Node { left, value, right } => if v < value {
                Tree::Node { left: Box::new(left.insert(v)), value, right }
            } else {
                Tree::Node { left, value, right: Box::new(right.insert(v)) }
            },
        }
    }

    /// The value of the leftmost node.
    pub open spec fn min(self) -> int
        recommends
            self is Node,
        decreases self,
    {
        match self {
            Tree::Empty => 0int,
            Tree::Node { left, value, right } => if *left is Empty {
                value
            } else {
                left.min()
            },
        }
    }

    /// The tree without the first node on the search path that holds `v`. A
    /// node with one subtree gives way to it; a node with two takes the
    /// smallest value of its right subtree, which loses that value instead.
    pub open spec fn delete(self, v: int) -> Tree
        decreases self,
    {
        match self {
            Tree::Empty => Tree::Empty,
            Tree::Node { left, value, right } => if v < value {
                Tree::Node { left: Box::new(left.delete(v)), value, right }
            } else if v > value {
                Tree::Node { left, value, right: Box::new(right.delete(v)) }
            } else if *left is Empty {
                *right
            } else if *right is Empty {
                *left
            } else {
                Tree::Node { left, value: right.min(), right: Box::new(right.delete(right.min())) }
            },
        }
    }
}

/// Machine integers as mathematical ones, element by element.
pub open spec fn ints(s: Seq<i32>) -> Seq<int> {
    s.map_values(|x: i32| x as int)
}

/// A machine integer is listed exactly when its mathematical value is.
pub proof fn lemma_listed(s: Seq<i32>, x: i32)
    ensures
        ints(s).contains(x as int) <==> s.contains(x),
{
    if s.contains(x) {
        let i = choose|i: int| 0 <= i < s.len() && s[i] == x;
        assert(ints(s)[i] == x as int);
    }
    if ints(s).contains(x as int) {
        let i = choose|i: int| 0 <= i < ints(s).len() && ints(s)[i] == x as int;
        assert(s[i] == x);
    }
}

/// A value is in the tree exactly when it counts among the contents.
pub proof fn lemma_contains_contents(t: Tree, x: int)
    ensures
        t.contains(x) <==> t.contents().count(x) > 0,
    decreases t,
{
    match t {
        Tree::Empty => {},
        Tree::Node { left, value, right } => {
            lemma_contains_contents(*left, x);
            lemma_contains_contents(*right, x);
        },
    }
}

/// Insertion adds one occurrence of the value and nothing else.
pub proof fn lemma_insert_contents(t: Tree, v: int)
    ensures
        t.insert(v).contents() == t.contents().insert(v),
    decreases t,
{
    match t {
        Tree::Empty => {},
        Tree::Node { left, value, right } => {
            lemma_insert_contents(*left, v);
            lemma_insert_contents(*right, v);
        },
    }
    assert(t.insert(v).contents() =~= t.contents().insert(v));
}

/// After an insertion the tree holds the new value and what it held before.
pub proof fn lemma_insert_contains(t: Tree, v: int, x: int)
    ensures
        t.insert(v).contains(x) <==> (x == v || t.contains(x)),
{
    lemma_insert_contents(t, v);
    lemma_contains_contents(t.insert(v), x);
    lemma_contains_contents(t, x);
}

/// Insertion keeps the search-tree order.
pub proof fn lemma_insert_is_bst(t: Tree, v: int)
    requires
        t.is_bst(),
    ensures
        t.insert(v).is_bst(),
    decreases t,
{
    match t {
        Tree::Empty => {
            assert forall|x: int| !Tree::Empty.contains(x) by {}
        },
        Tree::Node { left, value, right } => {
            if v < value {
                lemma_insert_is_bst(*left, v);
                assert forall|x: int| #[trigger] left.insert(v).contains(x) implies x < value by {
                    lemma_insert_contains(*left, v, x);
                    assert(left.contains(x) ==> x < value);
                }
            } else {
                lemma_insert_is_bst(*right, v);
                assert forall|x: int| #[trigger] right.insert(v).contains(x) implies x >= value by {
                    lemma_insert_contains(*right, v, x);
                    assert(right.contains(x) ==> x >= value);
                }
            }
        },
    }
}

/// In a search tree a value can only be where the search looks for it.
pub proof fn lemma_search_path(t: Tree, v: int)
    requires
        t.is_bst(),
        t is Node,
    ensures
        v < t->value ==> (t.contains(v) <==> t->left.contains(v)),
        v > t->value ==> (t.contains(v) <==> t->right.contains(v)),
        v == t->value ==> t.contains(v),
{
    assert(t->left.contains(v) ==> v < t->value);
    assert(t->right.contains(v) ==> v >= t->value);
}

/// The leftmost value of a search tree is in the tree.
pub proof fn lemma_min_in_tree(t: Tree)
    requires
        t is Node,
    ensures
        t.contains(t.min()),
    decreases t,
{
    if *t->left is Node {
        lemma_min_in_tree(*t->left);
    }
}

/// No value of a search tree is smaller than the leftmost one.
pub proof fn lemma_min_is_least(t: Tree, x: int)
    requires
        t.is_bst(),
        t.contains(x),
    ensures
        t.min() <= x,
    decreases t,
{
    assert(t->right.contains(x) ==> x >= t->value);
    assert(t->left.contains(x) ==> x < t->value);
    if *t->left is Node {
        let m = t->left.min();
        lemma_min_in_tree(*t->left);
        assert(t->left.contains(m) ==> m < t->value);
        if t->left.contains(x) {
            lemma_min_is_least(*t->left, x);
        }
    } else {
        assert(!t->left.contains(x));
    }
}

/// Deletion from a search tree takes away one occurrence of the value, if
/// there is one, and nothing else.
pub proof fn lemma_delete_contents(t: Tree, v: int)
    requires
        t.is_bst(),
    ensures
        t.delete(v).contents() == t.contents().remove(v),
    decreases t,
{
    match t {
        Tree::Empty => {},
        Tree::Node { left, value, right } => {
            lemma_contains_contents(*left, v);
            lemma_contains_contents(*right, v);
            assert(left.contains(v) ==> v < value);
            assert(right.contains(v) ==> v >= value);
            if v < value {
                lemma_delete_contents(*left, v);
            } else if v > value {
                lemma_delete_contents(*right, v);
            } else if *left is Empty {
            } else if *right is Empty {
            } else {
                lemma_min_in_tree(*right);
                lemma_delete_contents(*right, right.min());
                lemma_contains_contents(*right, right.min());
            }
        },
    }
    assert(t.delete(v).contents() =~= t.contents().remove(v));
}

/// Deletion adds no value.
pub proof fn lemma_delete_contains(t: Tree, v: int, x: int)
    requires
        t.is_bst(),
        t.delete(v).contains(x),
    ensures
        t.contains(x),
{
    lemma_delete_contents(t, v);
    lemma_contains_contents(t.delete(v), x);
    lemma_contains_contents(t, x);
}

/// Deletion keeps the search-tree order.
pub proof fn lemma_delete_is_bst(t: Tree, v: int)
    requires
        t.is_bst(),
    ensures
        t.delete(v).is_bst(),
    decreases t,
{
    match t {
        Tree::Empty => {},
        Tree::Node { left, value, right } => {
            if v < value {
                lemma_delete_is_bst(*left, v);
                assert forall|x: int| #[trigger] left.delete(v).contains(x) implies x < value by {
                    lemma_delete_contains(*left, v, x);
                    assert(left.contains(x) ==> x < value);
                }
            } else if v > value {
                lemma_delete_is_bst(*right, v);
                assert forall|x: int| #[trigger] right.delete(v).contains(x) implies x
                    >= value by {
                    lemma_delete_contains(*right, v, x);
                    assert(right.contains(x) ==> x >= value);
                }
            } else if *left is Empty {
            } else if *right is Empty {
            } else {
                let m = right.min();
                lemma_min_in_tree(*right);
                lemma_delete_is_bst(*right, m);
                assert(right.contains(m) ==> m >= value);
                assert forall|x: int| #[trigger] left.contains(x) implies x < m by {
                    assert(left.contains(x) ==> x < value);
                }
                assert forall|x: int| #[trigger] right.delete(m).contains(x) implies x >= m by {
                    lemma_delete_contains(*right, m, x);
                    lemma_min_is_least(*right, x);
                }
            }
        },
    }
}

/// A sequence put together from two holds what either of them holds.
pub proof fn lemma_concat_contains(a: Seq<int>, b: Seq<int>, x: int)
    ensures
        (a + b).contains(x) <==> a.contains(x) || b.contains(x),
{
    if a.contains(x) {
        let i = choose|i: int| 0 <= i < a.len() && a[i] == x;
        assert((a + b)[i] == x);
    }
    if b.contains(x) {
        let i = choose|i: int| 0 <= i < b.len() && b[i] == x;
        assert((a + b)[a.len() + i] == x);
    }
    if (a + b).contains(x) {
        let i = choose|i: int| 0 <= i < (a + b).len() && (a + b)[i] == x;
        if i < a.len() {
            assert(a[i] == x);
        } else {
            assert(b[i - a.len()] == x);
        }
    }
}

/// Each of the three traversals lists exactly the values of the tree.
pub proof fn lemma_traversals_contain(t: Tree, x: int)
    ensures
        t.inorder().contains(x) <==> t.contains(x),
        t.preorder().contains(x) <==> t.contains(x),
        t.postorder().contains(x) <==> t.contains(x),
    decreases t,
{
    match t {
        Tree::Empty => {},
        Tree::Node { left, value, right } => {
            lemma_traversals_contain(*left, x);
            lemma_traversals_contain(*right, x);
            let one = seq![value];
            assert(one[0] == value);
            assert(one.contains(x) <==> x == value);

            assert(left.inorder().push(value) =~= left.inorder() + one);
            lemma_concat_contains(left.inorder(), one, x);
            lemma_concat_contains(left.inorder() + one, right.inorder(), x);

            lemma_concat_contains(one, left.preorder(), x);
            lemma_concat_contains(one + left.preorder(), right.preorder(), x);

            let both = left.postorder() + right.postorder();
            assert(both.push(value) =~= both + one);
            lemma_concat_contains(left.postorder(), right.postorder(), x);
            lemma_concat_contains(both, one, x);
        },
    }
}

/// Search-tree order is order: what holds strictly to the left holds
/// loosely as well.
pub proof fn lemma_bst_is_ordered(t: Tree)
    requires
        t.is_bst(),
    ensures
        t.is_ordered(),
    decreases t,
{
    match t {
        Tree::Empty => {},
        Tree::Node { left, value, right } => {
            lemma_bst_is_ordered(*left);
            lemma_bst_is_ordered(*right);
            assert forall|x: int| #[trigger] left.contains(x) implies x <= value by {
                assert(left.contains(x) ==> x < value);
            }
        },
    }
}

/// A right rotation keeps every value where an in-order walk finds it: the
/// contents and the order stay.
pub proof fn lemma_rotate_right(t: Tree)
    requires
        t is Node,
        *t->left is Node,
    ensures
        t.rotate_right().contents() == t.contents(),
        t.rotate_right().inorder() == t.inorder(),
        t.is_ordered() ==> t.rotate_right().is_ordered(),
{
    let l = *t->left;
    let a = *l->left;
    let b = *l->right;
    let c = *t->right;
    let v = t->value;
    let lv = l->value;
    let inner = Tree::Node { left: l->right, value: v, right: t->right };
    let turned = t.rotate_right();
    assert(turned->right == Box::new(inner));
    assert(inner.contents() =~= b.contents().add(c.contents()).insert(v));
    assert(l.contents() =~= a.contents().add(b.contents()).insert(lv));
    assert(turned.contents() =~= t.contents());
    assert(inner.inorder() =~= b.inorder().push(v) + c.inorder());
    assert(l.inorder() =~= a.inorder().push(lv) + b.inorder());
    assert(turned.inorder() =~= t.inorder());
    if t.is_ordered() {
        assert(l.is_ordered());
        assert(l.contains(lv));
        assert(l.contains(lv) ==> lv <= v);
        assert forall|x: int| #[trigger] b.contains(x) implies x <= v by {
            assert(l.contains(x));
            assert(l.contains(x) ==> x <= v);
        }
        assert forall|x: int| #[trigger] c.contains(x) implies x >= v by {}
        assert(inner.is_ordered());
        assert forall|x: int| #[trigger] inner.contains(x) implies x >= lv by {
            assert(b.contains(x) ==> x >= lv);
            assert(c.contains(x) ==> x >= v);
        }
        assert forall|x: int| #[trigger] a.contains(x) implies x <= lv by {}
        assert(turned.is_ordered());
    }
}

/// A left rotation keeps every value where an in-order walk finds it: the
/// contents and the order stay.
pub proof fn lemma_rotate_left(t: Tree)
    requires
        t is Node,
        *t->right is Node,
    ensures
        t.rotate_left().contents() == t.contents(),
        t.rotate_left().inorder() == t.inorder(),
        t.is_ordered() ==> t.rotate_left().is_ordered(),
{
    let r = *t->right;
    let a = *t->left;
    let b = *r->left;
    let c = *r->right;
    let v = t->value;
    let rv = r->value;
    let inner = Tree::Node { left: t->left, value: v, right: r->left };
    let turned = t.rotate_left();
    assert(turned->left == Box::new(inner));
    assert(inner.contents() =~= a.contents().add(b.contents()).insert(v));
    assert(r.contents() =~= b.contents().add(c.contents()).insert(rv));
    assert(turned.contents() =~= t.contents());
    assert(inner.inorder() =~= a.inorder().push(v) + b.inorder());
    assert(r.inorder() =~= b.inorder().push(rv) + c.inorder());
    assert(turned.inorder() =~= t.inorder());
    if t.is_ordered() {
        assert(r.is_ordered());
        assert(r.contains(rv));
        assert(r.contains(rv) ==> rv >= v);
        assert forall|x: int| #[trigger] b.contains(x) implies x >= v by {
            assert(r.contains(x));
            assert(r.contains(x) ==> x >= v);
        }
        assert forall|x: int| #[trigger] a.contains(x) implies x <= v by {}
        assert(inner.is_ordered());
        assert forall|x: int| #[trigger] inner.contains(x) implies x <= rv by {
            assert(b.contains(x) ==> x <= rv);
            assert(a.contains(x) ==> x <= v);
        }
        assert forall|x: int| #[trigger] c.contains(x) implies x >= rv by {}
        assert(turned.is_ordered());
    }
}

/// The larger of two heights.
pub open spec fn larger(a: nat, b: nat) -> nat {
    if a >= b {
        a
    } else {
        b
    }
}

/// The heights before and after a right rotation, from the heights of the
/// three subtrees that it moves.
pub proof fn lemma_rotate_right_height(t: Tree)
    requires
        t is Node,
        *t->left is Node,
    ensures
        t.height() == 1 + larger(
            1 + larger(t->left->left.height(), t->left->right.height()),
            t->right.height(),
        ),
        t.rotate_right().height() == 1 + larger(
            t->left->left.height(),
            1 + larger(t->left->right.height(), t->right.height()),
        ),
{
    let l = *t->left;
    let inner = Tree::Node { left: l->right, value: t->value, right: t->right };
    assert(t.rotate_right()->right == Box::new(inner));
    assert(l.height() == 1 + larger(l->left.height(), l->right.height()));
    assert(inner.height() == 1 + larger(l->right.height(), t->right.height()));
}

/// The heights before and after a left rotation, from the heights of the
/// three subtrees that it moves.
pub proof fn lemma_rotate_left_height(t: Tree)
    requires
        t is Node,
        *t->right is Node,
    ensures
        t.height() == 1 + larger(
            t->left.height(),
            1 + larger(t->right->left.height(), t->right->right.height()),
        ),
        t.rotate_left().height() == 1 + larger(
            1 + larger(t->left.height(), t->right->left.height()),
            t->right->right.height(),
        ),
{
    let r = *t->right;
    let inner = Tree::Node { left: t->left, value: t->value, right: r->left };
    assert(t.rotate_left()->left == Box::new(inner));
    assert(r.height() == 1 + larger(r->left.height(), r->right.height()));
    assert(inner.height() == 1 + larger(t->left.height(), r->left.height()));
}

/// The in-order traversal of an ordered tree is in ascending order.
pub proof fn lemma_inorder_sorted(t: Tree)
    requires
        t.is_ordered(),
    ensures
        forall|i: int, j: int| 0 <= i <= j < t.inorder().len() ==> t.inorder()[i] <= t.inorder()[j],
    decreases t,
{
    match t {
        Tree::Empty => {},
        Tree::Node { left, value, right } => {
            lemma_inorder_sorted(*left);
            lemma_inorder_sorted(*right);
            let l = left.inorder();
            let r = right.inorder();
            let all = t.inorder();
            assert forall|i: int, j: int| 0 <= i <= j < all.len() implies all[i] <= all[j] by {
                if i < l.len() {
                    assert(all[i] == l[i]);
                    assert(l.contains(l[i]));
                    lemma_traversals_contain(*left, l[i]);
                    assert(left.contains(l[i]) ==> l[i] <= value);
                } else if i > l.len() {
                    assert(all[i] == r[i - l.len() - 1]);
                }
                if j < l.len() {
                    assert(all[j] == l[j]);
                } else if j > l.len() {
                    let k = j - l.len() - 1;
                    assert(all[j] == r[k]);
                    assert(r.contains(r[k]));
                    lemma_traversals_contain(*right, r[k]);
                    assert(right.contains(r[k]) ==> r[k] >= value);
                }
            }
        },
    }
}

} // verus!
