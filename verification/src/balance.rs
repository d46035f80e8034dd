//! Keeping the tree balanced: rotations, and the rebalancing that every
//! structural change ends with.

use crate::rope::Rope;
use vstd::prelude::*;
use vstd::seq_lib::lemma_flatten_concat;

verus! {

impl Rope {
    /// Rotates the tree under the node left: the right child becomes the
    /// root and the old root its left child.
    fn rotate_left(self) -> (res: Rope)
        requires
            self.sound(),
            self.is_branch(),
            self.right_child().is_branch(),
        ensures
            res.sound(),
            res.is_branch(),
            res.left_child().is_branch(),
            res@ == self@,
            res.leaves() == self.leaves(),
            res.left_child().left_child() == self.left_child(),
            res.left_child().right_child() == self.right_child().left_child(),
            res.right_child() == self.right_child().right_child(),
    {
        proof {
            self.lemma_sound();
            self.lemma_branch();
            self.right_child().lemma_branch();
        }
        let (l, r) = self.into_children();
        let (rl, rr) = r.into_children();
        proof {
            lemma_flatten_concat(rl@, rr@);
            assert((l@ + rl@) + rr@ =~= l@ + (rl@ + rr@));
            assert((l.leaves() + rl.leaves()) + rr.leaves() =~= l.leaves() + (rl.leaves()
                + rr.leaves()));
        }
        let a = Rope::branch(l, rl);
        Rope::branch(a, rr)
    }

    /// Rotates the tree under the node right: the left child becomes the
    /// root and the old root its right child.
    fn rotate_right(self) -> (res: Rope)
        requires
            self.sound(),
            self.is_branch(),
            self.left_child().is_branch(),
        ensures
            res.sound(),
            res.is_branch(),
            res.right_child().is_branch(),
            res@ == self@,
            res.leaves() == self.leaves(),
            res.left_child() == self.left_child().left_child(),
            res.right_child().left_child() == self.left_child().right_child(),
            res.right_child().right_child() == self.right_child(),
    {
        proof {
            self.lemma_sound();
            self.lemma_branch();
            self.left_child().lemma_branch();
        }
        let (l, r) = self.into_children();
        let (ll, lr) = l.into_children();
        proof {
            lemma_flatten_concat(ll@, lr@);
            assert((ll@ + lr@) + r@ =~= ll@ + (lr@ + r@));
            assert((ll.leaves() + lr.leaves()) + r.leaves() =~= ll.leaves() + (lr.leaves()
                + r.leaves()));
        }
        let b = Rope::branch(lr, r);
        Rope::branch(ll, b)
    }

    /// Balances the tree under this node, given that both subtrees are
    /// balanced themselves, however far apart their heights are.
    ///
    /// The taller side is rotated up (after a rotation of its own where its
    /// inner grandchild is the taller one), and the subtree that moved down
    /// is rebalanced in turn.
    pub(crate) fn rebalance(self) -> (res: Rope)
        requires
            self.sound(),
            self.is_branch() ==> self.left_child().balanced() && self.right_child().balanced(),
        ensures
            res.wf(),
            res@ == self@,
            res.leaves() == self.leaves(),
            res.is_branch() == self.is_branch(),
            res.height() <= self.height() <= res.height() + 1,
            self.balanced() ==> res == self,
        decreases self.height(),
    {
        proof {
            self.lemma_sound();
        }
        if self.is_leaf() {
            return self;
        }
        proof {
            self.lemma_branch();
            self.left_child().lemma_sound();
            self.right_child().lemma_sound();
        }
        let hl: usize = self.left().tree_height();
        let hr: usize = self.right().tree_height();
        if hl > hr + 1 {
            proof {
                self.left_child().lemma_branch();
                self.left_child().left_child().lemma_sound();
                self.left_child().right_child().lemma_sound();
            }
            let inner_taller = self.left().left().tree_height() < self.left().right().tree_height();
            let turned = if inner_taller {
                proof {
                    self.left_child().right_child().lemma_branch();
                }
                let (l, r) = self.into_children();
                let l2 = l.rotate_left();
                proof {
                    l2.lemma_branch();
                    l2.left_child().lemma_branch();
                }
                Rope::branch(l2, r).rotate_right()
            } else {
                self.rotate_right()
            };
            proof {
                turned.lemma_branch();
                turned.right_child().lemma_branch();
                if inner_taller {
                    turned.left_child().lemma_branch();
                }
            }
            let (a, b0) = turned.into_children();
            let b = b0.rebalance();
            proof {
                a.lemma_sound();
                b.lemma_sound();
            }
            if a.tree_height() > b.tree_height() + 1 {
                proof {
                    a.lemma_branch();
                }
                let res = Rope::branch(a, b).rotate_right();
                proof {
                    res.lemma_branch();
                    res.right_child().lemma_branch();
                }
                res
            } else {
                Rope::branch(a, b)
            }
        } else if hr > hl + 1 {
            proof {
                self.right_child().lemma_branch();
                self.right_child().left_child().lemma_sound();
                self.right_child().right_child().lemma_sound();
            }
            let inner_taller = self.right().left().tree_height() > self.right().right().tree_height();
            let turned = if inner_taller {
                proof {
                    self.right_child().left_child().lemma_branch();
                }
                let (l, r) = self.into_children();
                let r2 = r.rotate_right();
                proof {
                    r2.lemma_branch();
                    r2.right_child().lemma_branch();
                }
                Rope::branch(l, r2).rotate_left()
            } else {
                self.rotate_left()
            };
            proof {
                turned.lemma_branch();
                turned.left_child().lemma_branch();
                if inner_taller {
                    turned.right_child().lemma_branch();
                }
            }
            let (a0, b) = turned.into_children();
            let a = a0.rebalance();
            proof {
                a.lemma_sound();
                b.lemma_sound();
            }
            if b.tree_height() > a.tree_height() + 1 {
                proof {
                    b.lemma_branch();
                }
                let res = Rope::branch(a, b).rotate_left();
                proof {
                    res.lemma_branch();
                    res.left_child().lemma_branch();
                }
                res
            } else {
                Rope::branch(a, b)
            }
        } else {
            self
        }
    }
    /// Tests if the rope adheres to the AVL balancing invariants: at every
    /// branch the heights of the two children differ by less than two.
    pub fn is_balanced(&self) -> (r: bool)
        requires
            self.sound(),
        ensures
            r == self.balanced(),
        decreases self.height(),
    {
        proof {
            self.lemma_sound();
        }
        if self.is_leaf() {
            true
        } else {
            proof {
                self.lemma_branch();
                self.left_child().lemma_sound();
                self.right_child().lemma_sound();
            }
            let left = self.left();
            let right = self.right();
            let hl: usize = left.tree_height();
            let hr: usize = right.tree_height();
            let diff: usize = if hl >= hr { hl - hr } else { hr - hl };
            diff < 2 && left.is_balanced() && right.is_balanced()
        }
    }

    /// Appends `rope` on the right: walks down the right spine to a node at
    /// most one taller than `rope`, makes a branch of the two there, and
    /// rebalances on the way back up.
    pub(crate) fn append_right(self, rope: Rope) -> (res: Rope)
        requires
            self.wf(),
            rope.wf(),
            self@.len() > 0,
            rope@.len() > 0,
            self.text().len() + rope.text().len() <= usize::MAX,
        ensures
            res.wf(),
            res.is_branch(),
            res@ == self@ + rope@,
            res.leaves() == self.leaves() + rope.leaves(),
        decreases self.height(),
    {
        proof {
            self.lemma_sound();
            rope.lemma_sound();
        }
        if self.tree_height() <= rope.tree_height() + 1 || self.is_leaf() {
            Rope::branch(self, rope).rebalance()
        } else {
            proof {
                self.lemma_branch();
            }
            let (l, r) = self.into_children();
            let r2 = r.append_right(rope);
            proof {
                l.lemma_sound();
                r2.lemma_sound();
                lemma_flatten_concat(r@, rope@);
                assert((l@ + r@) + rope@ =~= l@ + (r@ + rope@));
                assert((l.leaves() + r.leaves()) + rope.leaves() =~= l.leaves() + (r.leaves()
                    + rope.leaves()));
            }
            Rope::branch(l, r2).rebalance()
        }
    }

    /// Appends `rope` on the left: the mirror image of `append_right`.
    pub(crate) fn append_left(self, rope: Rope) -> (res: Rope)
        requires
            self.wf(),
            rope.wf(),
            self@.len() > 0,
            rope@.len() > 0,
            self.text().len() + rope.text().len() <= usize::MAX,
        ensures
            res.wf(),
            res.is_branch(),
            res@ == rope@ + self@,
            res.leaves() == rope.leaves() + self.leaves(),
        decreases self.height(),
    {
        proof {
            self.lemma_sound();
            rope.lemma_sound();
        }
        if self.tree_height() <= rope.tree_height() + 1 || self.is_leaf() {
            Rope::branch(rope, self).rebalance()
        } else {
            proof {
                self.lemma_branch();
            }
            let (l, r) = self.into_children();
            let l2 = l.append_left(rope);
            proof {
                r.lemma_sound();
                l2.lemma_sound();
                lemma_flatten_concat(rope@, l@);
                assert(rope@ + (l@ + r@) =~= (rope@ + l@) + r@);
                assert(rope.leaves() + (l.leaves() + r.leaves()) =~= (rope.leaves() + l.leaves())
                    + r.leaves());
            }
            Rope::branch(l2, r).rebalance()
        }
    }

    /// `left` followed by `right`, as one balanced rope.  An empty side is
    /// dropped; otherwise the shorter tree is hung into the taller one.
    pub(crate) fn join(left: Rope, right: Rope) -> (res: Rope)
        requires
            left.wf(),
            right.wf(),
            left.text().len() + right.text().len() <= usize::MAX,
        ensures
            res.wf(),
            res@ == left@ + right@,
            left@.len() > 0 && right@.len() > 0 ==> res.leaves() == left.leaves() + right.leaves(),
            left@.len() == 0 ==> res == right,
            left@.len() > 0 && right@.len() == 0 ==> res == left,
    {
        if left.cluster_count() == 0 {
            assert(left@ + right@ =~= right@);
            right
        } else if right.cluster_count() == 0 {
            assert(left@ + right@ =~= left@);
            left
        } else if left.tree_height() > right.tree_height() {
            left.append_right(right)
        } else {
            right.append_left(left)
        }
    }

    /// Appends another rope to the end of this one, consuming the other rope.
    pub fn append(&mut self, rope: Rope)
        requires
            old(self).wf(),
            rope.wf(),
            old(self).text().len() + rope.text().len() <= usize::MAX,
        ensures
            final(self).wf(),
            final(self)@ == old(self)@ + rope@,
            final(self).text() == old(self).text() + rope.text(),
            old(self)@.len() > 0 && rope@.len() > 0 ==> final(self).leaves() == old(self).leaves()
                + rope.leaves(),
            old(self)@.len() == 0 ==> *final(self) == rope,
            old(self)@.len() > 0 && rope@.len() == 0 ==> *final(self) == *old(self),
    {
        proof {
            lemma_flatten_concat(old(self)@, rope@);
        }
        let mut this = Rope::new();
        core::mem::swap(self, &mut this);
        *self = Rope::join(this, rope);
    }
}

} // verus!
