//! The AVL tree itself: the recursive node representation, its ordering and
//! balance invariants, insertion with incremental rebalancing, and lookup.

use vstd::prelude::*;

use crate::seqs::all_above;
use crate::seqs::all_below;
use crate::seqs::lemma_all_above_concat;
use crate::seqs::lemma_all_above_of_set;
use crate::seqs::lemma_all_below_concat;
use crate::seqs::lemma_all_below_of_set;
use crate::seqs::lemma_concat_contains;
use crate::seqs::strict_sorted;

verus! {

broadcast use vstd::set::group_set_axioms;

/// Two to the power `n`.
pub open spec fn pow2(n: nat) -> nat
    decreases n,
{
    if n == 0 {
        1
    } else {
        2 * pow2((n - 1) as nat)
    }
}

/// The Fibonacci numbers, which govern the sparsest shape an AVL tree of a
/// given height can take.
pub open spec fn fib(n: nat) -> nat
    decreases n,
{
    if n == 0 {
        0
    } else if n == 1 {
        1
    } else {
        fib((n - 1) as nat) + fib((n - 2) as nat)
    }
}

proof fn lemma_pow2_mono(a: nat, b: nat)
    requires
        a <= b,
    ensures
        pow2(a) <= pow2(b),
        pow2(b) >= 1,
    decreases b,
{
    if a < b {
        lemma_pow2_mono(a, (b - 1) as nat);
    } else if b > 0 {
        lemma_pow2_mono((a - 1) as nat, (b - 1) as nat);
    }
}

proof fn lemma_fib_mono(a: nat, b: nat)
    requires
        a <= b,
    ensures
        fib(a) <= fib(b),
    decreases b,
{
    if a < b && b >= 2 {
        lemma_fib_mono(a, (b - 1) as nat);
    }
}

/// An AVL-balanced binary search tree of `usize` values: either empty, or a
/// root node owning two subtrees.
pub enum AVLTree {
    Empty,
    NonEmpty(Box<Node>),
}

/// One tree node: a value, its two owned subtrees, and the balance factor,
/// the height of the right subtree minus the height of the left one.
pub struct Node {
    pub value: usize,
    pub left: AVLTree,
    pub right: AVLTree,
    /// Height of the right subtree minus the height of the left one. It is
    /// maintained by insertion and stays in `{-1, 0, 1}` in a well-formed
    /// tree; rotations triggered by insertion restore it when it drifts.
    pub balance_factor: i8,
}

impl AVLTree {
    /// The in-order sequence of values held by the tree.
    pub open spec fn inorder(self) -> Seq<usize>
        decreases self,
    {
        match self {
            AVLTree::Empty => Seq::empty(),
            AVLTree::NonEmpty(node) => node.left.inorder() + seq![node.value]
                + node.right.inorder(),
        }
    }

    /// Height of the tree: an empty tree has height 0, a node is one taller
    /// than its taller subtree.
    pub open spec fn height(self) -> nat
        decreases self,
    {
        match self {
            AVLTree::Empty => 0,
            AVLTree::NonEmpty(node) => 1 + if node.left.height() >= node.right.height() {
                node.left.height()
            } else {
                node.right.height()
            },
        }
    }

    /// The binary-search-tree ordering: at every node, everything on the left
    /// is strictly below the value and everything on the right strictly above.
    pub open spec fn bst(self) -> bool
        decreases self,
    {
        match self {
            AVLTree::Empty => true,
            AVLTree::NonEmpty(node) => node.left.bst() && node.right.bst() && all_below(
                node.left.inorder(),
                node.value,
            ) && all_above(node.right.inorder(), node.value),
        }
    }

    /// The AVL balance invariant: every node's balance factor equals the
    /// height difference of its subtrees, which stays within one.
    pub open spec fn avl(self) -> bool
        decreases self,
    {
        match self {
            AVLTree::Empty => true,
            AVLTree::NonEmpty(node) => node.left.avl() && node.right.avl()
                && node.balance_factor as int == node.right.height() - node.left.height()
                && -1 <= node.balance_factor as int <= 1,
        }
    }

    /// A well-formed tree: ordered as a binary search tree and AVL-balanced.
    pub open spec fn wf(self) -> bool {
        self.bst() && self.avl()
    }

    /// The relaxed balance shape that appears momentarily during insertion:
    /// both subtrees fully balanced and the stored factor still the exact
    /// height difference, but that difference possibly reaching two.
    pub open spec fn almost_avl(self) -> bool {
        match self {
            AVLTree::Empty => true,
            AVLTree::NonEmpty(node) => node.left.avl() && node.right.avl()
                && node.balance_factor as int == node.right.height() - node.left.height()
                && -2 <= node.balance_factor as int <= 2,
        }
    }

    /// The root's value (meaningful only on a non-empty tree).
    pub open spec fn root_value(self) -> usize
        recommends
            self is NonEmpty,
    {
        match self {
            AVLTree::Empty => 0,
            AVLTree::NonEmpty(node) => node.value,
        }
    }

    /// The left subtree (empty on an empty tree).
    pub open spec fn left_tree(self) -> AVLTree {
        match self {
            AVLTree::Empty => AVLTree::Empty,
            AVLTree::NonEmpty(node) => node.left,
        }
    }

    /// The right subtree (empty on an empty tree).
    pub open spec fn right_tree(self) -> AVLTree {
        match self {
            AVLTree::Empty => AVLTree::Empty,
            AVLTree::NonEmpty(node) => node.right,
        }
    }

    /// The root's balance factor, as a mathematical integer; 0 on an empty tree.
    pub open spec fn bf(self) -> int {
        match self {
            AVLTree::Empty => 0,
            AVLTree::NonEmpty(node) => node.balance_factor as int,
        }
    }

    /// A tree with the given root value, subtrees and stored balance factor.
    pub open spec fn node_of(value: usize, left: AVLTree, right: AVLTree, bf: i8) -> AVLTree {
        AVLTree::NonEmpty(
            Box::new(Node { value, left, right, balance_factor: bf }),
        )
    }

    /// The rebalancing step as a function on trees: the rotation applied at a
    /// root whose factor has reached two in magnitude, with the recomputed
    /// factors of the rewired nodes given by the fixed tables. A root within
    /// one is returned untouched.
    pub open spec fn spec_balance(self) -> AVLTree {
        match self {
            AVLTree::Empty => self,
            AVLTree::NonEmpty(node) => {
                let left = node.left;
                let right = node.right;
                if node.balance_factor as int == -2 {
                    if left.bf() == -1 || left.bf() == 0 {
                        // single right rotation: the left child becomes the root
                        let a: i8 = if left.bf() == -1 { 0i8 } else { -1i8 };
                        let b: i8 = if left.bf() == -1 { 0i8 } else { 1i8 };
                        AVLTree::node_of(
                            left.root_value(),
                            left.left_tree(),
                            AVLTree::node_of(node.value, left.right_tree(), right, a),
                            b,
                        )
                    } else {
                        // double rotation: the left child's right child rises to the root
                        let g = left.right_tree();
                        let a: i8 = if g.bf() == -1 { 1i8 } else { 0i8 };
                        let b: i8 = if g.bf() == 1 { -1i8 } else { 0i8 };
                        AVLTree::node_of(
                            g.root_value(),
                            AVLTree::node_of(left.root_value(), left.left_tree(), g.left_tree(), b),
                            AVLTree::node_of(node.value, g.right_tree(), right, a),
                            0,
                        )
                    }
                } else if node.balance_factor as int == 2 {
                    if right.bf() == 1 || right.bf() == 0 {
                        // single left rotation: the right child becomes the root
                        let a: i8 = if right.bf() == 1 { 0i8 } else { 1i8 };
                        let b: i8 = if right.bf() == 1 { 0i8 } else { -1i8 };
                        AVLTree::node_of(
                            right.root_value(),
                            AVLTree::node_of(node.value, left, right.left_tree(), a),
                            right.right_tree(),
                            b,
                        )
                    } else {
                        // double rotation: the right child's left child rises to the root
                        let g = right.left_tree();
                        let a: i8 = if g.bf() == 1 { -1i8 } else { 0i8 };
                        let b: i8 = if g.bf() == -1 { 1i8 } else { 0i8 };
                        AVLTree::node_of(
                            g.root_value(),
                            AVLTree::node_of(node.value, left, g.left_tree(), a),
                            AVLTree::node_of(right.root_value(), g.right_tree(), right.right_tree(), b),
                            0,
                        )
                    }
                } else {
                    self
                }
            },
        }
    }

    /// Insertion as a function on trees, following the algorithm exactly:
    /// descend by comparison, materialize a node at an empty position, bump
    /// the balance factor on the grown side on the way out, and rebalance.
    /// Returns the new tree and the (inserted, deepened) signals.
    pub open spec fn spec_add(self, value: usize) -> (AVLTree, bool, bool)
        decreases self,
    {
        match self {
            AVLTree::Empty => (
                AVLTree::node_of(value, AVLTree::Empty, AVLTree::Empty, 0),
                true,
                true,
            ),
            AVLTree::NonEmpty(node) => if node.value == value {
                (self, false, false)
            } else if node.value < value {
                let sub = node.right.spec_add(value);
                let grown = sub.2;
                let new_bf: i8 = if grown {
                    (node.balance_factor + 1) as i8
                } else {
                    node.balance_factor
                };
                let mid = AVLTree::node_of(node.value, node.left, sub.0, new_bf);
                (mid.spec_balance(), sub.1, grown && node.balance_factor as int == 0)
            } else {
                let sub = node.left.spec_add(value);
                let grown = sub.2;
                let new_bf: i8 = if grown {
                    (node.balance_factor - 1) as i8
                } else {
                    node.balance_factor
                };
                let mid = AVLTree::node_of(node.value, sub.0, node.right, new_bf);
                (mid.spec_balance(), sub.1, grown && node.balance_factor as int == 0)
            },
        }
    }

    /// Bulk construction as a function on value sequences: each element
    /// inserted in input order into the tree built from the ones before it.
    pub open spec fn spec_from_iter(values: Seq<usize>) -> AVLTree
        decreases values.len(),
    {
        if values.len() == 0 {
            AVLTree::Empty
        } else {
            AVLTree::spec_from_iter(values.drop_last()).spec_add(values.last()).0
        }
    }
}

impl View for AVLTree {
    type V = Seq<usize>;

    open spec fn view(&self) -> Seq<usize> {
        self.inorder()
    }
}

impl Default for AVLTree {
    /// The empty tree.
    fn default() -> (t: Self)
        ensures
            t == AVLTree::Empty,
            t.wf(),
            t@ == Seq::<usize>::empty(),
    {
        AVLTree::Empty
    }
}

impl AVLTree {
    /// Moves the tree out, leaving an empty tree behind.
    fn take(&mut self) -> (t: Self)
        ensures
            t == *old(self),
            *final(self) == AVLTree::Empty,
    {
        let mut tmp = AVLTree::Empty;
        core::mem::swap(self, &mut tmp);
        tmp
    }

    /// Whether the tree holds no values.
    pub fn is_empty(&self) -> (b: bool)
        ensures
            b == (*self is Empty),
            b == (self@.len() == 0),
    {
        match self {
            AVLTree::Empty => true,
            AVLTree::NonEmpty(_) => {
                proof {
                    assert(self@.len() >= 1);
                }
                false
            },
        }
    }

    /// The number of values in the tree, computed by summing the subtrees.
    pub fn len(&self) -> (n: usize)
        requires
            self@.len() <= usize::MAX,
        ensures
            n == self@.len(),
        decreases self,
    {
        match self {
            AVLTree::Empty => 0,
            AVLTree::NonEmpty(node) => 1 + node.left.len() + node.right.len(),
        }
    }

    /// The height of a well-formed tree never exceeds the number of values.
    pub proof fn lemma_height_le_len(self)
        ensures
            self.height() <= self@.len(),
        decreases self,
    {
        match self {
            AVLTree::Empty => {},
            AVLTree::NonEmpty(node) => {
                node.left.lemma_height_le_len();
                node.right.lemma_height_le_len();
            },
        }
    }

    /// The height of the tree: 0 when empty, otherwise one more than the
    /// taller subtree's depth.
    pub fn depth(&self) -> (d: usize)
        requires
            self@.len() <= usize::MAX,
        ensures
            d == self.height(),
        decreases self,
    {
        proof {
            self.lemma_height_le_len();
        }
        match self {
            AVLTree::Empty => 0,
            AVLTree::NonEmpty(node) => {
                let dl = node.left.depth();
                let dr = node.right.depth();
                if dl >= dr {
                    1 + dl
                } else {
                    1 + dr
                }
            },
        }
    }

    /// A reference to the left subtree of a non-empty tree.
    pub fn left(&self) -> (r: &AVLTree)
        requires
            *self is NonEmpty,
        ensures
            *r == self.left_tree(),
    {
        match self {
            AVLTree::NonEmpty(node) => &node.left,
            AVLTree::Empty => vstd::pervasive::unreached(),
        }
    }

    /// A reference to the right subtree of a non-empty tree.
    pub fn right(&self) -> (r: &AVLTree)
        requires
            *self is NonEmpty,
        ensures
            *r == self.right_tree(),
    {
        match self {
            AVLTree::NonEmpty(node) => &node.right,
            AVLTree::Empty => vstd::pervasive::unreached(),
        }
    }

    /// The value at the root, if any.
    pub fn value(&self) -> (r: Option<&usize>)
        ensures
            *self is NonEmpty ==> (r matches Some(p) && *p == self.root_value()),
            *self is Empty ==> r is None,
    {
        match self {
            AVLTree::Empty => None,
            AVLTree::NonEmpty(node) => Some(&node.value),
        }
    }

    /// Looks a value up by binary search; returns a reference to the stored
    /// value when an equal one is present, and `None` otherwise.
    pub fn get(&self, value: &usize) -> (r: Option<&usize>)
        requires
            self.wf(),
        ensures
            r is Some <==> self@.contains(*value),
            r matches Some(p) ==> *p == *value,
        decreases self,
    {
        match self {
            AVLTree::Empty => {
                proof {
                    assert(!self@.contains(*value));
                }
                None
            },
            AVLTree::NonEmpty(node) => {
                proof {
                    lemma_concat_contains(
                        node.left.inorder() + seq![node.value],
                        node.right.inorder(),
                        *value,
                    );
                    lemma_concat_contains(node.left.inorder(), seq![node.value], *value);
                    assert(seq![node.value][0] == node.value);
                }
                if *value < node.value {
                    node.left.get(value)
                } else if *value > node.value {
                    node.right.get(value)
                } else {
                    Some(&node.value)
                }
            },
        }
    }

    /// The balance factor stored at the root of a non-empty tree.
    fn root_balance_factor(&self) -> (b: i8)
        requires
            *self is NonEmpty,
        ensures
            b as int == self.bf(),
    {
        match self {
            AVLTree::NonEmpty(node) => node.balance_factor,
            AVLTree::Empty => vstd::pervasive::unreached(),
        }
    }

    /// Overwrites the balance factor stored at the root, touching nothing else.
    fn set_root_balance_factor(&mut self, b: i8)
        requires
            *old(self) is NonEmpty,
        ensures
            *final(self) is NonEmpty,
            final(self).bf() == b as int,
            final(self).root_value() == old(self).root_value(),
            final(self).left_tree() == old(self).left_tree(),
            final(self).right_tree() == old(self).right_tree(),
            final(self)@ == old(self)@,
            final(self).height() == old(self).height(),
            old(self).bst() ==> final(self).bst(),
    {
        match self {
            AVLTree::NonEmpty(node) => {
                node.balance_factor = b;
            },
            AVLTree::Empty => {},
        }
        proof {
            reveal_with_fuel(AVLTree::inorder, 2);
            assert(self@ =~= old(self)@);
            reveal_with_fuel(AVLTree::height, 2);
            reveal_with_fuel(AVLTree::bst, 2);
        }
    }

    /// Right rotation: the left child becomes the root; the old root takes the
    /// left child's former right subtree as its new left subtree and becomes
    /// the new root's right child. Balance factors move with their nodes; the
    /// in-order sequence is unchanged.
    #[verifier::rlimit(50)]
    pub fn rotate_right(&mut self)
        requires
            *old(self) is NonEmpty,
            old(self).left_tree() is NonEmpty,
        ensures
            *final(self) is NonEmpty,
            final(self).right_tree() is NonEmpty,
            final(self).root_value() == old(self).left_tree().root_value(),
            final(self).bf() == old(self).left_tree().bf(),
            final(self).left_tree() == old(self).left_tree().left_tree(),
            final(self).right_tree().root_value() == old(self).root_value(),
            final(self).right_tree().bf() == old(self).bf(),
            final(self).right_tree().left_tree() == old(self).left_tree().right_tree(),
            final(self).right_tree().right_tree() == old(self).right_tree(),
            final(self)@ == old(self)@,
            old(self).bst() ==> final(self).bst(),
    {
        let t = self.take();
        match t {
            AVLTree::NonEmpty(node_box) => {
                let Node { value, left, right, balance_factor } = *node_box;
                match left {
                    AVLTree::NonEmpty(left_box) => {
                        let lnode = *left_box;
                        *self = AVLTree::NonEmpty(
                            Box::new(
                                Node {
                                    value: lnode.value,
                                    left: lnode.left,
                                    right: AVLTree::NonEmpty(
                                        Box::new(
                                            Node {
                                                value,
                                                left: lnode.right,
                                                right,
                                                balance_factor,
                                            },
                                        ),
                                    ),
                                    balance_factor: lnode.balance_factor,
                                },
                            ),
                        );
                        proof {
                            reveal_with_fuel(AVLTree::inorder, 3);
                            assert(self@ =~= old(self)@);
                            reveal_with_fuel(AVLTree::bst, 3);
                            if old(self).bst() {
                                let lseq = lnode.left.inorder() + seq![lnode.value];
                                lemma_all_below_concat(lseq, lnode.right.inorder(), value);
                                assert(lseq[lnode.left.inorder().len() as int] == lnode.value);
                                lemma_all_above_concat(
                                    lnode.right.inorder() + seq![value],
                                    right.inorder(),
                                    lnode.value,
                                );
                                lemma_all_above_concat(
                                    lnode.right.inorder(),
                                    seq![value],
                                    lnode.value,
                                );
                                assert(seq![value][0] == value);
                                assert(self.bst());
                            }
                        }
                    },
                    AVLTree::Empty => {},
                }
            },
            AVLTree::Empty => {},
        }
    }

    /// Left rotation, the mirror image of `rotate_right`: the right child
    /// becomes the root and the old root its left child.
    #[verifier::rlimit(50)]
    pub fn rotate_left(&mut self)
        requires
            *old(self) is NonEmpty,
            old(self).right_tree() is NonEmpty,
        ensures
            *final(self) is NonEmpty,
            final(self).left_tree() is NonEmpty,
            final(self).root_value() == old(self).right_tree().root_value(),
            final(self).bf() == old(self).right_tree().bf(),
            final(self).right_tree() == old(self).right_tree().right_tree(),
            final(self).left_tree().root_value() == old(self).root_value(),
            final(self).left_tree().bf() == old(self).bf(),
            final(self).left_tree().right_tree() == old(self).right_tree().left_tree(),
            final(self).left_tree().left_tree() == old(self).left_tree(),
            final(self)@ == old(self)@,
            old(self).bst() ==> final(self).bst(),
    {
        let t = self.take();
        match t {
            AVLTree::NonEmpty(node_box) => {
                let Node { value, left, right, balance_factor } = *node_box;
                match right {
                    AVLTree::NonEmpty(right_box) => {
                        let rnode = *right_box;
                        *self = AVLTree::NonEmpty(
                            Box::new(
                                Node {
                                    value: rnode.value,
                                    left: AVLTree::NonEmpty(
                                        Box::new(
                                            Node {
                                                value,
                                                left,
                                                right: rnode.left,
                                                balance_factor,
                                            },
                                        ),
                                    ),
                                    right: rnode.right,
                                    balance_factor: rnode.balance_factor,
                                },
                            ),
                        );
                        proof {
                            reveal_with_fuel(AVLTree::inorder, 3);
                            assert(self@ =~= old(self)@);
                            reveal_with_fuel(AVLTree::bst, 3);
                            if old(self).bst() {
                                let rseq = rnode.left.inorder() + seq![rnode.value];
                                lemma_all_above_concat(rseq, rnode.right.inorder(), value);
                                lemma_all_above_concat(rnode.left.inorder(), seq![rnode.value], value);
                                assert(rseq[rnode.left.inorder().len() as int] == rnode.value);
                                lemma_all_below_concat(
                                    left.inorder() + seq![value],
                                    rnode.left.inorder(),
                                    rnode.value,
                                );
                                lemma_all_below_concat(
                                    left.inorder(),
                                    seq![value],
                                    rnode.value,
                                );
                                assert(seq![value][0] == value);
                                assert(self.bst());
                            }
                        }
                    },
                    AVLTree::Empty => {},
                }
            },
            AVLTree::Empty => {},
        }
    }

    /// Inserts `value` into the tree unless an equal value is already there.
    /// Returns whether the value was inserted; the tree is rebalanced before
    /// the call returns.
    pub fn insert(&mut self, value: usize) -> (inserted: bool)
        requires
            old(self).wf(),
        ensures
            final(self).wf(),
            *final(self) == old(self).spec_add(value).0,
            final(self)@.to_set() == old(self)@.to_set().insert(value),
            inserted == !old(self)@.contains(value),
            !inserted ==> *final(self) == *old(self),
    {
        let r = self.add(value);
        r.0
    }

    /// Recursive insertion: places `value` at its ordered position unless an
    /// equal value is present, updates the balance factor on the way back
    /// out, and rebalances this subtree. Returns (inserted, deepened):
    /// whether the value was new, and whether the subtree grew taller.
    #[verifier::rlimit(100)]
    pub fn add(&mut self, value: usize) -> (r: (bool, bool))
        requires
            old(self).wf(),
        ensures
            final(self).wf(),
            *final(self) == old(self).spec_add(value).0,
            r.0 == old(self).spec_add(value).1,
            r.1 == old(self).spec_add(value).2,
            final(self)@.to_set() == old(self)@.to_set().insert(value),
            r.0 == !old(self)@.contains(value),
            !r.0 ==> *final(self) == *old(self),
            final(self).height() == old(self).height() + if r.1 {
                1int
            } else {
                0int
            },
            r.1 ==> final(self).bf() != 0 || final(self).height() == 1,
        decreases *old(self),
    {
        let ghost t0 = *self;
        let ret: (bool, bool) = match self {
            AVLTree::Empty => {
                *self = AVLTree::NonEmpty(
                    Box::new(
                        Node {
                            value,
                            left: AVLTree::Empty,
                            right: AVLTree::Empty,
                            balance_factor: 0,
                        },
                    ),
                );
                (true, true)
            },
            AVLTree::NonEmpty(node) => {
                proof {
                    reveal_with_fuel(AVLTree::avl, 2);
                }
                if node.value == value {
                    (false, false)
                } else if node.value < value {
                    let res = node.right.add(value);
                    if res.1 {
                        let rb = node.balance_factor;
                        let ret2: (bool, bool) = if rb == 0 {
                            (res.0, true)
                        } else {
                            (res.0, false)
                        };
                        node.balance_factor = rb + 1;
                        ret2
                    } else {
                        (res.0, false)
                    }
                } else {
                    let res = node.left.add(value);
                    if res.1 {
                        let rb = node.balance_factor;
                        let ret2: (bool, bool) = if rb == 0 {
                            (res.0, true)
                        } else {
                            (res.0, false)
                        };
                        node.balance_factor = rb - 1;
                        ret2
                    } else {
                        (res.0, false)
                    }
                }
            },
        };
        proof {
            reveal_with_fuel(AVLTree::inorder, 2);
            reveal_with_fuel(AVLTree::height, 2);
            reveal_with_fuel(AVLTree::bst, 2);
            reveal_with_fuel(AVLTree::avl, 2);
            if t0 is Empty {
                assert(self@ =~= seq![value]);
                assert(seq![value][0] == value);
                assert forall|x: usize|
                    self@.to_set().contains(x) <==> t0@.to_set().insert(value).contains(x) by {
                    assert(self@.contains(x) <==> x == value);
                }
                assert(self@.to_set() =~= t0@.to_set().insert(value));
            } else {
                let nv = t0.root_value();
                let l0 = t0.left_tree();
                let r0 = t0.right_tree();
                lemma_concat_contains(l0@ + seq![nv], r0@, value);
                lemma_concat_contains(l0@, seq![nv], value);
                assert(seq![nv][0] == nv);
                if value > nv {
                    let r1 = self.right_tree();
                    lemma_all_above_of_set(r0@, r1@, value, nv);
                    if l0@.contains(value) {
                        let j = choose|j: int| 0 <= j < l0@.len() && l0@[j] == value;
                        assert(l0@[j] < nv);
                    }
                    assert forall|x: usize|
                        self@.to_set().contains(x) <==> t0@.to_set().insert(value).contains(
                            x,
                        ) by {
                        assert(self@ == l0@ + seq![nv] + r1@);
                        assert(t0@ == l0@ + seq![nv] + r0@);
                        assert(r1@.to_set().contains(x) <==> r1@.contains(x));
                        assert(r1@.contains(x) <==> r0@.contains(x) || x == value);
                        lemma_concat_contains(l0@ + seq![nv], r1@, x);
                        lemma_concat_contains(l0@ + seq![nv], r0@, x);
                        lemma_concat_contains(l0@, seq![nv], x);
                    }
                    assert(self@.to_set() =~= t0@.to_set().insert(value));
                    assert(self.bst());
                    assert(self.almost_avl());
                } else if value < nv {
                    let l1 = self.left_tree();
                    lemma_all_below_of_set(l0@, l1@, value, nv);
                    if r0@.contains(value) {
                        let j = choose|j: int| 0 <= j < r0@.len() && r0@[j] == value;
                        assert(r0@[j] > nv);
                    }
                    assert forall|x: usize|
                        self@.to_set().contains(x) <==> t0@.to_set().insert(value).contains(
                            x,
                        ) by {
                        assert(self@ == l1@ + seq![nv] + r0@);
                        assert(t0@ == l0@ + seq![nv] + r0@);
                        assert(l1@.to_set().contains(x) <==> l1@.contains(x));
                        assert(l1@.contains(x) <==> l0@.contains(x) || x == value);
                        lemma_concat_contains(l1@ + seq![nv], r0@, x);
                        lemma_concat_contains(l0@ + seq![nv], r0@, x);
                        lemma_concat_contains(l1@, seq![nv], x);
                        lemma_concat_contains(l0@, seq![nv], x);
                    }
                    assert(self@.to_set() =~= t0@.to_set().insert(value));
                    assert(self.bst());
                    assert(self.almost_avl());
                } else {
                    assert(t0@[l0@.len() as int] == value);
                    assert(t0@.contains(value));
                    assert(t0@.to_set().insert(value) =~= t0@.to_set());
                }
            }
        }
        let ghost mid = *self;
        self.balance();
        proof {
            reveal_with_fuel(AVLTree::height, 2);
            reveal_with_fuel(AVLTree::avl, 2);
            assert(*self == t0.spec_add(value).0);
            assert(ret.0 == t0.spec_add(value).1);
            assert(ret.1 == t0.spec_add(value).2);
        }
        ret
    }

    /// Restores the AVL invariant at the root after an insertion below has
    /// pushed the root's balance factor to two in magnitude: applies the
    /// single or double rotation selected by the factors and recomputes the
    /// affected balance factors from the fixed tables; a factor still within
    /// one leaves the tree untouched.
    #[verifier::rlimit(100)]
    fn balance(&mut self)
        requires
            old(self).bst(),
            old(self).almost_avl(),
        ensures
            final(self).wf(),
            final(self)@ == old(self)@,
            *final(self) == old(self).spec_balance(),
            -1 <= old(self).bf() <= 1 ==> *final(self) == *old(self),
            old(self).bf() == -2 ==> (if old(self).left_tree().bf() == 0 {
                final(self).height() == old(self).height() && final(self).bf() == 1
            } else {
                final(self).height() + 1 == old(self).height() && final(self).bf() == 0
            }),
            old(self).bf() == 2 ==> (if old(self).right_tree().bf() == 0 {
                final(self).height() == old(self).height() && final(self).bf() == -1
            } else {
                final(self).height() + 1 == old(self).height() && final(self).bf() == 0
            }),
    {
        let ghost t0 = *old(self);
        if self.is_empty() {
            return ;
        }
        let root_bf = self.root_balance_factor();
        if root_bf == -2 {
            proof {
                if old(self).left_tree() is Empty {
                    assert(old(self).left_tree().height() == 0);
                }
                assert(old(self).left_tree() is NonEmpty);
            }
            let lf = self.left().root_balance_factor();
            if lf == -1 || lf == 0 {
                let ab: (i8, i8) = if lf == -1 {
                    (0, 0)
                } else {
                    (-1, 1)
                };
                self.rotate_right();
                match self {
                    AVLTree::NonEmpty(node) => node.right.set_root_balance_factor(ab.0),
                    AVLTree::Empty => {},
                }
                self.set_root_balance_factor(ab.1);
                proof {
                    reveal_with_fuel(AVLTree::height, 3);
                    reveal_with_fuel(AVLTree::avl, 3);
                    assert(self.avl());
                    assert(*self == t0.spec_balance());
                }
            } else {
                proof {
                    if old(self).left_tree().right_tree() is Empty {
                        assert(old(self).left_tree().right_tree().height() == 0);
                    }
                    assert(old(self).left_tree().right_tree() is NonEmpty);
                }
                let gf = self.left().right().root_balance_factor();
                let ab: (i8, i8) = if gf == -1 {
                    (1, 0)
                } else if gf == 0 {
                    (0, 0)
                } else {
                    (0, -1)
                };
                match self {
                    AVLTree::NonEmpty(node) => node.left.rotate_left(),
                    AVLTree::Empty => {},
                }
                self.rotate_right();
                match self {
                    AVLTree::NonEmpty(node) => node.right.set_root_balance_factor(ab.0),
                    AVLTree::Empty => {},
                }
                match self {
                    AVLTree::NonEmpty(node) => node.left.set_root_balance_factor(ab.1),
                    AVLTree::Empty => {},
                }
                self.set_root_balance_factor(0);
                proof {
                    reveal_with_fuel(AVLTree::height, 4);
                    reveal_with_fuel(AVLTree::avl, 4);
                    reveal_with_fuel(AVLTree::bst, 3);
                    assert(self.avl());
                    assert(*self == t0.spec_balance());
                }
            }
        } else if root_bf == 2 {
            proof {
                if old(self).right_tree() is Empty {
                    assert(old(self).right_tree().height() == 0);
                }
                assert(old(self).right_tree() is NonEmpty);
            }
            let rf = self.right().root_balance_factor();
            if rf == 1 || rf == 0 {
                let ab: (i8, i8) = if rf == 1 {
                    (0, 0)
                } else {
                    (1, -1)
                };
                self.rotate_left();
                match self {
                    AVLTree::NonEmpty(node) => node.left.set_root_balance_factor(ab.0),
                    AVLTree::Empty => {},
                }
                self.set_root_balance_factor(ab.1);
                proof {
                    reveal_with_fuel(AVLTree::height, 3);
                    reveal_with_fuel(AVLTree::avl, 3);
                    assert(self.avl());
                    assert(*self == t0.spec_balance());
                }
            } else {
                proof {
                    if old(self).right_tree().left_tree() is Empty {
                        assert(old(self).right_tree().left_tree().height() == 0);
                    }
                    assert(old(self).right_tree().left_tree() is NonEmpty);
                }
                let gf = self.right().left().root_balance_factor();
                let ab: (i8, i8) = if gf == 1 {
                    (-1, 0)
                } else if gf == 0 {
                    (0, 0)
                } else {
                    (0, 1)
                };
                match self {
                    AVLTree::NonEmpty(node) => node.right.rotate_right(),
                    AVLTree::Empty => {},
                }
                self.rotate_left();
                match self {
                    AVLTree::NonEmpty(node) => node.left.set_root_balance_factor(ab.0),
                    AVLTree::Empty => {},
                }
                match self {
                    AVLTree::NonEmpty(node) => node.right.set_root_balance_factor(ab.1),
                    AVLTree::Empty => {},
                }
                self.set_root_balance_factor(0);
                proof {
                    reveal_with_fuel(AVLTree::height, 4);
                    reveal_with_fuel(AVLTree::avl, 4);
                    reveal_with_fuel(AVLTree::bst, 3);
                    assert(self.avl());
                    assert(*self == t0.spec_balance());
                }
            }
        }
    }

    /// Ordered traversal of a search tree yields a strictly ascending
    /// sequence: the in-order sequence of a tree with the binary-search-tree
    /// ordering is strictly sorted, so it holds no duplicates.
    pub proof fn lemma_inorder_sorted(self)
        requires
            self.bst(),
        ensures
            strict_sorted(self@),
        decreases self,
    {
        match self {
            AVLTree::Empty => {},
            AVLTree::NonEmpty(node) => {
                node.left.lemma_inorder_sorted();
                node.right.lemma_inorder_sorted();
                let a = node.left.inorder();
                let m = a + seq![node.value];
                let s = self@;
                assert(s == m + node.right.inorder());
                assert forall|i: int, j: int| 0 <= i < j < s.len() implies s[i] < s[j] by {
                    if i < a.len() {
                        assert(s[i] == a[i]);
                    } else if i == a.len() {
                        assert(s[i] == node.value);
                    } else {
                        assert(s[i] == node.right.inorder()[i - a.len() - 1]);
                    }
                    if j < a.len() {
                        assert(s[j] == a[j]);
                    } else if j == a.len() {
                        assert(s[j] == node.value);
                    } else {
                        assert(s[j] == node.right.inorder()[j - a.len() - 1]);
                    }
                }
            },
        }
    }

    /// `len` counts exactly the distinct values: a well-formed tree holding
    /// the same set of values as any input sequence has as many values as
    /// the input has distinct elements.
    pub proof fn lemma_len_counts_distinct(self, values: Seq<usize>)
        requires
            self.wf(),
            self@.to_set() == values.to_set(),
        ensures
            self@.len() == values.to_set().len(),
    {
        self.lemma_inorder_sorted();
        assert forall|i: int, j: int|
            0 <= i < self@.len() && 0 <= j < self@.len() && i != j implies self@[i]
            != self@[j] by {
            if i < j {
                assert(self@[i] < self@[j]);
            } else {
                assert(self@[j] < self@[i]);
            }
        }
        self@.unique_seq_to_set();
    }

    /// Iteration over a well-formed tree never yields two adjacent equal
    /// values: repeated equal insertions leave no duplicates behind.
    pub proof fn lemma_no_adjacent_duplicates(self)
        requires
            self.wf(),
        ensures
            forall|i: int| 0 <= i && i + 1 < self@.len() ==> self@[i] != #[trigger] self@[i + 1],
    {
        self.lemma_inorder_sorted();
    }

    /// The AVL balance bound in integer form: a well-formed tree with `n`
    /// values and height `h` satisfies `n + 1 <= 2^h` (its height is at
    /// least the binary logarithm of `n + 1`) and `fib(h + 2) <= n + 1`
    /// (its height is at most logarithmic in `n`: the classical worst-case
    /// factor of about 1.44 on the binary logarithm follows numerically
    /// from the growth of the Fibonacci numbers).
    pub proof fn lemma_balance_bound(self)
        requires
            self.wf(),
        ensures
            self@.len() + 1 <= pow2(self.height()),
            fib(self.height() + 2) <= self@.len() + 1,
        decreases self,
    {
        match self {
            AVLTree::Empty => {
                assert(fib(2) == fib(1) + fib(0));
            },
            AVLTree::NonEmpty(node) => {
                node.left.lemma_balance_bound();
                node.right.lemma_balance_bound();
                let hl = node.left.height();
                let hr = node.right.height();
                let h = self.height();
                lemma_pow2_mono(hl, (h - 1) as nat);
                lemma_pow2_mono(hr, (h - 1) as nat);
                assert(pow2(h) == 2 * pow2((h - 1) as nat));
                assert(fib(h + 2) == fib((h + 1) as nat) + fib(h));
                if hl >= hr {
                    lemma_fib_mono((hl + 1) as nat, (hr + 2) as nat);
                } else {
                    lemma_fib_mono((hr + 1) as nat, (hl + 2) as nat);
                }
            },
        }
    }

    /// Builds a tree by inserting every element of `values` in turn; an
    /// element equal to one already present is silently dropped, so the tree
    /// ends up holding exactly the distinct values of the input.
    pub fn from_iter(values: Vec<usize>) -> (t: AVLTree)
        ensures
            t.wf(),
            t == AVLTree::spec_from_iter(values@),
            t@.to_set() == values@.to_set(),
    {
        let mut tree = AVLTree::Empty;
        let mut i: usize = 0;
        while i < values.len()
            invariant
                i <= values.len(),
                tree.wf(),
                tree == AVLTree::spec_from_iter(values@.take(i as int)),
                tree@.to_set() == values@.take(i as int).to_set(),
            decreases values.len() - i,
        {
            let ghost prev = values@.take(i as int);
            let v = values[i];
            tree.insert(v);
            i = i + 1;
            proof {
                let cur = values@.take(i as int);
                assert(cur =~= prev + seq![v]);
                assert(cur.drop_last() =~= prev);
                assert(cur.last() == v);
                assert(AVLTree::spec_from_iter(cur) == AVLTree::spec_from_iter(prev).spec_add(
                    v,
                ).0);
                assert forall|x: usize|
                    cur.to_set().contains(x) <==> prev.to_set().insert(v).contains(x) by {
                    lemma_concat_contains(prev, seq![v], x);
                    assert(seq![v][0] == v);
                }
                assert(cur.to_set() =~= prev.to_set().insert(v));
            }
        }
        proof {
            assert(values@.take(values@.len() as int) =~= values@);
        }
        tree
    }

    /// Indexed access: the value must be present, and a reference to the
    /// stored equal value is returned.
    pub fn index(&self, value: &usize) -> (r: &usize)
        requires
            self.wf(),
            self@.contains(*value),
        ensures
            *r == *value,
    {
        match self.get(value) {
            Some(r) => r,
            None => vstd::pervasive::unreached(),
        }
    }
}

} // verus!
