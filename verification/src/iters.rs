//! Iterators over the tree: a borrowing, bound-aware range iterator and a
//! consuming in-order iterator, both driven by an explicit descent stack
//! instead of recursion, so that traversal state survives between calls.

use vstd::prelude::*;

use crate::seqs::ge_bound;
use crate::seqs::keep_ge;
use crate::seqs::keep_lt;
use crate::seqs::lemma_keep_lt_members;
use crate::seqs::lemma_sorted_unique;
use crate::seqs::lt_bound;
use crate::seqs::lemma_keep_ge_concat;
use crate::seqs::lemma_keep_ge_members;
use crate::seqs::lemma_keep_ge_skip;
use crate::seqs::strict_sorted;
use crate::tree::AVLTree;
use crate::tree::Node;

verus! {

/// The optional bound behind an optional reference.
pub open spec fn deref_bound(b: Option<&usize>) -> Option<usize> {
    match b {
        Option::None => Option::None,
        Option::Some(p) => Option::Some(*p),
    }
}

/// Borrowing in-order iterator over a tree, bounded above by an optional
/// exclusive end value. The stack holds the descent path: the node on top is
/// the next to yield, and each stacked node still owes its own value and its
/// right subtree.
pub struct RangeIter<'a> {
    end: Option<usize>,
    stack: Vec<&'a Node>,
}

impl<'a> RangeIter<'a> {
    spec fn stack_seq(s: Seq<&'a Node>) -> Seq<usize>
        decreases s.len(),
    {
        if s.len() == 0 {
            Seq::empty()
        } else {
            seq![s.last().value] + s.last().right.inorder() + Self::stack_seq(s.drop_last())
        }
    }

    /// The values the descent stack still covers, in yield order, before the
    /// end bound cuts the walk short.
    pub closed spec fn remaining(self) -> Seq<usize> {
        Self::stack_seq(self.stack@)
    }

    /// The exclusive upper bound, if one was given.
    pub closed spec fn end_bound(self) -> Option<usize> {
        self.end
    }

    /// The values the iterator will actually yield: what the stack covers,
    /// cut at the end bound.
    pub open spec fn pending(self) -> Seq<usize> {
        keep_lt(self.remaining(), self.end_bound())
    }

    /// The iterator's invariant: what it still covers is strictly ascending.
    pub open spec fn wf_iter(self) -> bool {
        strict_sorted(self.remaining())
    }

    /// Positions the iterator: without a start bound the whole tree is
    /// covered; with one, exactly the values at or above it.
    pub(crate) fn new(tree: &'a AVLTree, start: Option<&usize>, end: Option<&usize>) -> (it: Self)
        requires
            tree.bst(),
        ensures
            it.wf_iter(),
            it.end_bound() == deref_bound(end),
            it.remaining() == keep_ge(tree@, deref_bound(start)),
    {
        let end_v: Option<usize> = match end {
            Option::None => None,
            Option::Some(p) => Some(*p),
        };
        let mut it = RangeIter { end: end_v, stack: Vec::new() };
        proof {
            assert(it.remaining() =~= Seq::<usize>::empty());
            tree.lemma_inorder_sorted();
            lemma_keep_ge_members(tree@, deref_bound(start));
        }
        match start {
            Option::None => {
                it.traverse_left(tree);
                proof {
                    assert(tree@ + Seq::<usize>::empty() =~= tree@);
                }
            },
            Option::Some(b) => {
                it.traverse(tree, b);
                proof {
                    assert(keep_ge(tree@, deref_bound(start)) + Seq::<usize>::empty() =~= keep_ge(
                        tree@,
                        deref_bound(start),
                    ));
                }
            },
        }
        it
    }

    /// Pushes the leftmost spine of `tree`, so that the whole subtree is
    /// covered, its smallest value on top.
    fn traverse_left(&mut self, tree: &'a AVLTree)
        ensures
            final(self).remaining() == tree@ + old(self).remaining(),
            final(self).end == old(self).end,
    {
        let mut cur: &'a AVLTree = tree;
        while !cur.is_empty()
            invariant
                cur@ + self.remaining() == tree@ + old(self).remaining(),
                self.end == old(self).end,
            decreases cur.height(),
        {
            match cur {
                AVLTree::NonEmpty(node) => {
                    let ghost s0 = self.stack@;
                    self.stack.push(&**node);
                    proof {
                        assert(self.stack@.drop_last() =~= s0);
                        assert(node.left.inorder() + ((seq![node.value] + node.right.inorder())
                            + Self::stack_seq(s0)) =~= cur@ + Self::stack_seq(s0));
                    }
                    cur = &node.left;
                },
                AVLTree::Empty => {
                    proof {
                        assert(false);
                    }
                },
            }
        }
        proof {
            assert(cur@ + self.remaining() =~= self.remaining());
        }
    }

    /// Descends comparing against `start`, stacking every node whose value
    /// is at or above it: the successor path. Afterwards exactly the values
    /// of the subtree at or above `start` are covered.
    fn traverse(&mut self, tree: &'a AVLTree, start: &usize)
        requires
            tree.bst(),
        ensures
            final(self).remaining() == keep_ge(tree@, Option::Some(*start)) + old(
                self,
            ).remaining(),
            final(self).end == old(self).end,
        decreases tree,
    {
        let ghost lo = Option::Some(*start);
        match tree {
            AVLTree::Empty => {
                proof {
                    assert(keep_ge(tree@, lo) + self.remaining() =~= self.remaining());
                }
            },
            AVLTree::NonEmpty(node) => {
                if *start < node.value {
                    let ghost s0 = self.stack@;
                    self.stack.push(&**node);
                    proof {
                        assert(self.stack@.drop_last() =~= s0);
                    }
                    self.traverse(&node.left, start);
                    proof {
                        let tail = seq![node.value] + node.right.inorder();
                        lemma_keep_ge_concat(node.left.inorder(), tail, lo);
                        assert(node.left.inorder() + tail =~= tree@);
                        assert(keep_ge(node.left.inorder(), lo) + ((seq![node.value]
                            + node.right.inorder()) + Self::stack_seq(s0)) =~= keep_ge(tree@, lo)
                            + Self::stack_seq(s0));
                    }
                } else if *start == node.value {
                    let ghost s0 = self.stack@;
                    self.stack.push(&**node);
                    proof {
                        assert(self.stack@.drop_last() =~= s0);
                        let tail = seq![node.value] + node.right.inorder();
                        assert forall|i: int| 0 <= i < node.left.inorder().len() implies !ge_bound(
                            lo,
                            node.left.inorder()[i],
                        ) by {}
                        lemma_keep_ge_skip(node.left.inorder(), tail, lo);
                        assert(node.left.inorder() + tail =~= tree@);
                        assert(tail[0] == node.value);
                        assert(keep_ge(tail, lo) == tail);
                        assert((seq![node.value] + node.right.inorder()) + Self::stack_seq(s0)
                            =~= keep_ge(tree@, lo) + Self::stack_seq(s0));
                    }
                } else {
                    self.traverse(&node.right, start);
                    proof {
                        let head = node.left.inorder() + seq![node.value];
                        assert forall|i: int| 0 <= i < head.len() implies !ge_bound(
                            lo,
                            head[i],
                        ) by {
                            if i < node.left.inorder().len() {
                                assert(head[i] == node.left.inorder()[i]);
                            } else {
                                assert(head[i] == node.value);
                            }
                        }
                        lemma_keep_ge_skip(head, node.right.inorder(), lo);
                        assert(head + node.right.inorder() == tree@);
                    }
                }
            },
        }
    }

    /// Yields the next value at or under the end bound: pops the top node,
    /// stops for good once a value at or past the bound shows up, and
    /// otherwise yields the value after stacking the node's right subtree.
    pub fn next(&mut self) -> (r: Option<&'a usize>)
        requires
            old(self).wf_iter(),
        ensures
            final(self).wf_iter(),
            final(self).end_bound() == old(self).end_bound(),
            old(self).pending().len() == 0 ==> r is None && final(self).pending()
                == Seq::<usize>::empty(),
            old(self).pending().len() > 0 ==> (r matches Some(p) && *p == old(self).pending()[0])
                && final(self).pending() == old(self).pending().drop_first(),
    {
        let popped = self.stack.pop();
        match popped {
            Option::None => {
                proof {
                    assert(old(self).remaining() =~= Seq::<usize>::empty());
                    assert(old(self).pending() =~= Seq::<usize>::empty());
                }
                None
            },
            Option::Some(node) => {
                let ghost rem0 = old(self).remaining();
                let ghost rest = Self::stack_seq(old(self).stack@.drop_last());
                proof {
                    assert(self.stack@ =~= old(self).stack@.drop_last());
                    assert(rem0 == (seq![node.value] + node.right.inorder()) + rest);
                    assert(rem0[0] == node.value);
                }
                let can_yield: bool = match self.end {
                    Option::None => true,
                    Option::Some(e) => node.value < e,
                };
                if can_yield {
                    self.traverse_left(&node.right);
                    proof {
                        assert(self.remaining() =~= rem0.drop_first());
                        assert forall|i: int, j: int|
                            0 <= i < j < self.remaining().len() implies self.remaining()[i]
                            < self.remaining()[j] by {
                            assert(self.remaining()[i] == rem0[i + 1]);
                            assert(self.remaining()[j] == rem0[j + 1]);
                        }
                        assert(old(self).pending() == seq![node.value] + keep_lt(
                            rem0.drop_first(),
                            self.end,
                        ));
                        assert(old(self).pending()[0] == node.value);
                        assert(self.pending() =~= old(self).pending().drop_first());
                    }
                    Some(&node.value)
                } else {
                    proof {
                        assert(self.remaining() == rest);
                        assert forall|i: int, j: int| 0 <= i < j < rest.len() implies rest[i]
                            < rest[j] by {
                            assert(rest[i] == rem0[i + 1 + node.right.inorder().len() as int]);
                            assert(rest[j] == rem0[j + 1 + node.right.inorder().len() as int]);
                        }
                        assert(old(self).pending() == Seq::<usize>::empty());
                        if rest.len() > 0 {
                            assert(rest[0] == rem0[1 + node.right.inorder().len() as int]);
                            assert(rest[0] > node.value);
                        }
                        assert(self.pending() == Seq::<usize>::empty());
                    }
                    None
                }
            },
        }
    }
}

/// Consuming in-order iterator: yields owned values in ascending order,
/// dismantling the tree as it goes. Stacked nodes have given up their left
/// subtrees but still own their value and right subtree.
pub struct IntoIter {
    stack: Vec<Node>,
}

impl IntoIter {
    spec fn stack_seq(s: Seq<Node>) -> Seq<usize>
        decreases s.len(),
    {
        if s.len() == 0 {
            Seq::empty()
        } else {
            seq![s.last().value] + s.last().right.inorder() + Self::stack_seq(s.drop_last())
        }
    }

    /// The values still owned by the iterator, in yield order.
    pub closed spec fn remaining(self) -> Seq<usize> {
        Self::stack_seq(self.stack@)
    }

    /// Takes the tree apart onto the descent stack; every value of the tree
    /// is still owned and will come out in order.
    pub fn new(tree: AVLTree) -> (it: Self)
        ensures
            it.remaining() == tree@,
    {
        let ghost view0 = tree@;
        let mut it = IntoIter { stack: Vec::new() };
        proof {
            assert(it.remaining() =~= Seq::<usize>::empty());
        }
        it.traverse_left(tree);
        proof {
            assert(view0 + Seq::<usize>::empty() =~= view0);
        }
        it
    }

    /// Moves the leftmost spine of `tree` onto the stack, smallest value on
    /// top; each moved node hands its left subtree on to the next step.
    fn traverse_left(&mut self, tree: AVLTree)
        ensures
            final(self).remaining() == tree@ + old(self).remaining(),
    {
        let ghost view0 = tree@;
        let mut cur = tree;
        while !cur.is_empty()
            invariant
                cur@ + self.remaining() == view0 + old(self).remaining(),
            decreases cur.height(),
        {
            match cur {
                AVLTree::NonEmpty(node_box) => {
                    let ghost c0 = *node_box;
                    let mut node = *node_box;
                    let mut l = AVLTree::Empty;
                    core::mem::swap(&mut node.left, &mut l);
                    let ghost s0 = self.stack@;
                    self.stack.push(node);
                    proof {
                        assert(self.stack@.drop_last() =~= s0);
                        assert(c0.left.inorder() + ((seq![c0.value] + c0.right.inorder())
                            + Self::stack_seq(s0)) =~= (c0.left.inorder() + seq![c0.value]
                            + c0.right.inorder()) + Self::stack_seq(s0));
                    }
                    cur = l;
                },
                AVLTree::Empty => {
                    proof {
                        assert(false);
                    }
                    cur = AVLTree::Empty;
                },
            }
        }
        proof {
            assert(cur@ + self.remaining() =~= self.remaining());
        }
    }

    /// Yields the smallest value still owned: pops the top node, moves the
    /// leftmost spine of its right subtree onto the stack, and hands the
    /// node's value out.
    pub fn next(&mut self) -> (r: Option<usize>)
        ensures
            old(self).remaining().len() == 0 ==> (r is None && final(self).remaining()
                == old(self).remaining()),
            old(self).remaining().len() > 0 ==> (r == Some(old(self).remaining()[0])
                && final(self).remaining() == old(self).remaining().drop_first()),
    {
        let popped = self.stack.pop();
        match popped {
            Option::None => None,
            Option::Some(node) => {
                let ghost rem0 = old(self).remaining();
                let ghost rest = Self::stack_seq(old(self).stack@.drop_last());
                let mut node = node;
                let mut rsub = AVLTree::Empty;
                core::mem::swap(&mut node.right, &mut rsub);
                proof {
                    assert(self.stack@ =~= old(self).stack@.drop_last());
                    assert(rem0 == (seq![node.value] + rsub@) + rest);
                    assert(rem0[0] == node.value);
                }
                self.traverse_left(rsub);
                proof {
                    assert(self.remaining() =~= rem0.drop_first());
                }
                Some(node.value)
            },
        }
    }
}

impl AVLTree {
    /// Borrowing in-order iterator over the whole tree, ascending.
    pub fn iter<'a>(&'a self) -> (it: RangeIter<'a>)
        requires
            self.wf(),
        ensures
            it.wf_iter(),
            it.end_bound() is None,
            it.remaining() == self@,
            it.pending() == self@,
    {
        let it = self.range(None, None);
        proof {
            assert(keep_ge(self@, Option::None) == self@);
        }
        it
    }

    /// Borrowing iterator over the half-open range `[start, end)`: inclusive
    /// of the start bound, exclusive of the end bound, unbounded on a side
    /// whose bound is absent.
    pub fn range<'a, 'b>(&'a self, start: Option<&'b usize>, end: Option<&'b usize>) -> (it:
        RangeIter<'a>)
        requires
            self.wf(),
        ensures
            it.wf_iter(),
            it.remaining() == keep_ge(self@, deref_bound(start)),
            it.end_bound() == deref_bound(end),
            it.pending() == keep_lt(keep_ge(self@, deref_bound(start)), deref_bound(end)),
    {
        RangeIter::new(self, start, end)
    }

    /// Consuming in-order iteration: every value of the tree, ascending,
    /// ownership handed to the caller.
    pub fn into_iter(self) -> (it: IntoIter)
        ensures
            it.remaining() == self@,
    {
        IntoIter::new(self)
    }
}

/// Range correctness: over a well-formed tree, the values a `range(start,
/// end)` iterator is set to yield are exactly the tree's values at or above
/// the start bound and strictly below the end bound, still strictly
/// ascending.
pub proof fn lemma_range_members(t: AVLTree, start: Option<usize>, end: Option<usize>)
    requires
        t.wf(),
    ensures
        strict_sorted(keep_lt(keep_ge(t@, start), end)),
        forall|x: usize|
            #[trigger] keep_lt(keep_ge(t@, start), end).contains(x) <==> t@.contains(x)
                && ge_bound(start, x) && lt_bound(end, x),
{
    t.lemma_inorder_sorted();
    lemma_keep_ge_members(t@, start);
    lemma_keep_lt_members(keep_ge(t@, start), end);
}

/// Order preservation: iteration over a well-formed tree yields its
/// in-order sequence, which is strictly ascending and coincides with any
/// sorted duplicate-free listing of the same values.
pub proof fn lemma_iteration_sorted(t: AVLTree, reference: Seq<usize>)
    requires
        t.wf(),
        strict_sorted(reference),
        reference.to_set() == t@.to_set(),
    ensures
        strict_sorted(t@),
        reference == t@,
{
    t.lemma_inorder_sorted();
    lemma_sorted_unique(reference, t@);
}

} // verus!
