//! The rope itself: a height-balanced binary tree whose leaves hold runs of
//! text and whose nodes cache how many characters, grapheme clusters and line
//! endings lie below them.

use crate::leaf::Leaf;
use crate::model::{
    lemma_all_nonempty_concat, lemma_flatten_len_ge_count, lemma_line_endings_bound,
    lemma_line_endings_concat, line_endings,
};
use crate::string_utils::{all_nonempty, grapheme_clusters};
use vstd::prelude::*;
use vstd::seq_lib::lemma_flatten_concat;

verus! {

/// A branch that holds fewer clusters than this is folded into one leaf.
pub const MIN_NODE_SIZE: usize = 64;

/// No leaf holds more clusters than this.
pub const MAX_NODE_SIZE: usize = MIN_NODE_SIZE * 2;

/// A rope: text stored so that insertion, removal and positional queries stay
/// cheap however long the text grows.  Positions count grapheme clusters.
#[derive(Debug)]
pub struct Rope {
    data: RopeData,
    char_count_: usize,
    grapheme_count_: usize,
    line_ending_count: usize,
    tree_height: usize,
}

/// What a node holds: text, or two children.
#[derive(Debug)]
enum RopeData {
    Leaf(Leaf),
    Branch(Box<Rope>, Box<Rope>),
}

/// The larger of two numbers.
pub open spec fn max_nat(a: nat, b: nat) -> nat {
    if a >= b {
        a
    } else {
        b
    }
}

impl View for Rope {
    type V = Seq<Seq<char>>;

    /// The grapheme clusters of the rope, in order: those that the text of
    /// each leaf is cut into, leaf by leaf.
    open spec fn view(&self) -> Seq<Seq<char>> {
        self.clusters()
    }
}

impl Rope {
    /// The grapheme clusters below this node, left to right.
    pub closed spec fn clusters(self) -> Seq<Seq<char>>
        decreases self,
    {
        match self.data {
            RopeData::Leaf(leaf) => leaf@,
            RopeData::Branch(left, right) => left.clusters() + right.clusters(),
        }
    }

    /// The leaves below this node, left to right, each as the clusters it
    /// holds.
    pub closed spec fn leaves(self) -> Seq<Seq<Seq<char>>>
        decreases self,
    {
        match self.data {
            RopeData::Leaf(leaf) => seq![leaf@],
            RopeData::Branch(left, right) => left.leaves() + right.leaves(),
        }
    }

    /// The texts of the leaves below this node, left to right.
    pub open spec fn chunks(self) -> Seq<Seq<char>> {
        self.leaves().map_values(|leaf: Seq<Seq<char>>| leaf.flatten())
    }

    /// The text as characters.
    pub open spec fn text(self) -> Seq<char> {
        self@.flatten()
    }

    /// 1 for a leaf, one more than the taller child for a branch.
    pub closed spec fn height(self) -> nat
        decreases self,
    {
        match self.data {
            RopeData::Leaf(_) => 1,
            RopeData::Branch(left, right) => 1 + max_nat(left.height(), right.height()),
        }
    }

    /// This node is a branch, not a leaf.
    pub closed spec fn is_branch(self) -> bool {
        self.data is Branch
    }

    /// The left child of a branch.
    pub closed spec fn left_child(self) -> Rope
        recommends
            self.is_branch(),
    {
        match self.data {
            RopeData::Branch(left, _) => *left,
            RopeData::Leaf(_) => self,
        }
    }

    /// The right child of a branch.
    pub closed spec fn right_child(self) -> Rope
        recommends
            self.is_branch(),
    {
        match self.data {
            RopeData::Branch(_, right) => *right,
            RopeData::Leaf(_) => self,
        }
    }

    /// At every node the cached counts and the cached height are those of
    /// what lies below it: at a leaf the counts of its text, cut into its
    /// grapheme clusters, at a branch the sums over its children.
    pub closed spec fn counts_consistent(self) -> bool
        decreases self,
    {
        &&& self.char_count_ == self.clusters().flatten().len()
        &&& self.grapheme_count_ == self.clusters().len()
        &&& self.line_ending_count == line_endings(self.clusters())
        &&& self.tree_height == self.height()
        &&& match self.data {
            RopeData::Leaf(_) => true,
            RopeData::Branch(left, right) => left.counts_consistent() && right.counts_consistent(),
        }
    }

    /// Every leaf holds the grapheme clusters of its text, at most
    /// `MAX_NODE_SIZE` of them, and no leaf below the root is empty.
    pub closed spec fn leaves_bounded(self) -> bool
        decreases self,
    {
        match self.data {
            RopeData::Leaf(leaf) => leaf.wf() && leaf@.len() <= MAX_NODE_SIZE,
            RopeData::Branch(left, right) => {
                &&& left.leaves_bounded()
                &&& right.leaves_bounded()
                &&& left.clusters().len() > 0
                &&& right.clusters().len() > 0
            },
        }
    }

    /// At every branch the heights of the two children differ by at most one.
    pub closed spec fn balanced(self) -> bool
        decreases self,
    {
        match self.data {
            RopeData::Leaf(_) => true,
            RopeData::Branch(left, right) => {
                &&& left.height() <= right.height() + 1
                &&& right.height() <= left.height() + 1
                &&& left.balanced()
                &&& right.balanced()
            },
        }
    }

    /// Every leaf below the root holds at least `MIN_NODE_SIZE` clusters.
    /// Not part of the invariant: a leaf cut in two by a split or by an
    /// insert that found no room may hold fewer.
    pub open spec fn leaves_filled(self) -> bool {
        self.leaves().len() > 1 ==> forall|k: int|
            0 <= k < self.leaves().len() ==> (#[trigger] self.leaves()[k]).len()
                >= MIN_NODE_SIZE
    }

    /// Counts and leaves are in order; balance is not asked for.
    pub open spec fn sound(self) -> bool {
        self.counts_consistent() && self.leaves_bounded()
    }

    /// The invariant of a rope: consistent counts, bounded leaves, balance.
    pub open spec fn wf(self) -> bool {
        self.sound() && self.balanced()
    }

    /// What soundness gives: non-empty clusters, counts in the order
    /// line endings <= clusters <= characters, a height no larger than the
    /// number of clusters, and leaves that spell the text.
    pub proof fn lemma_sound(self)
        requires
            self.sound(),
        ensures
            all_nonempty(self@),
            line_endings(self@) <= self@.len() <= self.text().len(),
            self.height() >= 1,
            self.height() <= max_nat(1, self@.len()),
            self.leaves().len() >= 1,
            self.leaves().flatten() == self@,
            self.chunks().flatten() == self.text(),
            forall|k: int|
                0 <= k < self.leaves().len() ==> (#[trigger] self.leaves()[k]).len()
                    <= MAX_NODE_SIZE,
            self.is_branch() ==> forall|k: int|
                0 <= k < self.leaves().len() ==> (#[trigger] self.leaves()[k]).len() >= 1,
            self.text().len() <= usize::MAX,
            forall|k: int|
                0 <= k < self.leaves().len() ==> (#[trigger] self.leaves()[k])
                    == grapheme_clusters(self.leaves()[k].flatten()),
            !self.is_branch() ==> self.balanced() && self.leaves() == seq![self@],
            !self.is_branch() ==> self.height() == 1 && self@.len() <= MAX_NODE_SIZE,
            self.is_branch() ==> self.height() >= 2 && self@.len() >= 2 && self.leaves().len() >= 2,
        decreases self,
    {
        match self.data {
            RopeData::Leaf(leaf) => {
                leaf.lemma_wf();
                seq![leaf@].lemma_flatten_one_element();
                assert(self.chunks() =~= seq![leaf@.flatten()]);
                seq![leaf@.flatten()].lemma_flatten_one_element();
            },
            RopeData::Branch(left, right) => {
                left.lemma_sound();
                right.lemma_sound();
                lemma_all_nonempty_concat(left@, right@);
                lemma_flatten_concat(left@, right@);
                lemma_flatten_concat(left.leaves(), right.leaves());
                assert(self.chunks() =~= left.chunks() + right.chunks());
                lemma_flatten_concat(left.chunks(), right.chunks());
                if left.is_branch() {
                } else {
                    assert(left.leaves() =~= seq![left@]);
                }
                if right.is_branch() {
                } else {
                    assert(right.leaves() =~= seq![right@]);
                }
            },
        }
        lemma_line_endings_bound(self@);
        lemma_flatten_len_ge_count(self@);
    }

    /// How a branch relates to its two children.
    pub proof fn lemma_branch(self)
        requires
            self.is_branch(),
        ensures
            self@ == self.left_child()@ + self.right_child()@,
            self.text() == self.left_child().text() + self.right_child().text(),
            self.leaves() == self.left_child().leaves() + self.right_child().leaves(),
            self.height() == 1 + max_nat(self.left_child().height(), self.right_child().height()),
            self.sound() ==> {
                &&& self.left_child().sound()
                &&& self.right_child().sound()
                &&& self.left_child()@.len() > 0
                &&& self.right_child()@.len() > 0
            },
            self.balanced() <==> {
                &&& self.left_child().balanced()
                &&& self.right_child().balanced()
                &&& self.left_child().height() <= self.right_child().height() + 1
                &&& self.right_child().height() <= self.left_child().height() + 1
            },
    {
        lemma_flatten_concat(self.left_child()@, self.right_child()@);
    }

    /// Creates a new empty rope.
    pub fn new() -> (rope: Rope)
        ensures
            rope.wf(),
            rope@ == Seq::<Seq<char>>::empty(),
            rope.leaves() == seq![Seq::<Seq<char>>::empty()],
    {
        Rope::leaf_node(Leaf::new())
    }

    /// The number of characters in the text.
    pub fn char_count(&self) -> (n: usize)
        requires
            self.wf(),
        ensures
            n == self.text().len(),
    {
        self.char_count_
    }

    /// The number of grapheme clusters in the rope: the sum, over the
    /// leaves, of the grapheme clusters of the text of each.
    pub fn grapheme_count(&self) -> (n: usize)
        requires
            self.wf(),
        ensures
            n == self@.len(),
    {
        self.grapheme_count_
    }

    /// The number of lines: one more than the number of line endings, so
    /// that an empty text has one line.
    pub fn line_count(&self) -> (n: usize)
        requires
            self.wf(),
            line_endings(self@) < usize::MAX,
        ensures
            n == line_endings(self@) + 1,
    {
        self.line_ending_count + 1
    }

    /// A node that holds `leaf`, with its counts.
    pub(crate) fn leaf_node(leaf: Leaf) -> (rope: Rope)
        requires
            leaf.wf(),
            leaf@.len() <= MAX_NODE_SIZE,
        ensures
            rope.wf(),
            rope@ == leaf@,
            rope.text() == leaf.text(),
            rope.leaves() == seq![leaf@],
            rope.height() == 1,
            !rope.is_branch(),
    {
        proof {
            leaf.lemma_wf();
        }
        let mut rope = Rope {
            data: RopeData::Leaf(leaf),
            char_count_: 0,
            grapheme_count_: 0,
            line_ending_count: 0,
            tree_height: 1,
        };
        rope.update_stats();
        rope
    }

    /// A node with the two children given, with its counts.  Balance is up
    /// to the caller.
    pub(crate) fn branch(left: Rope, right: Rope) -> (rope: Rope)
        requires
            left.sound(),
            right.sound(),
            left@.len() > 0,
            right@.len() > 0,
            left.text().len() + right.text().len() <= usize::MAX,
        ensures
            rope.sound(),
            rope.is_branch(),
            rope.left_child() == left,
            rope.right_child() == right,
            rope@ == left@ + right@,
            rope.text() == left.text() + right.text(),
            rope.leaves() == left.leaves() + right.leaves(),
            rope.height() == 1 + max_nat(left.height(), right.height()),
            rope.balanced() <==> {
                &&& left.balanced()
                &&& right.balanced()
                &&& left.height() <= right.height() + 1
                &&& right.height() <= left.height() + 1
            },
    {
        proof {
            lemma_flatten_concat(left@, right@);
        }
        let mut rope = Rope {
            data: RopeData::Branch(Box::new(left), Box::new(right)),
            char_count_: 0,
            grapheme_count_: 0,
            line_ending_count: 0,
            tree_height: 1,
        };
        rope.update_stats();
        rope
    }

    /// The two children of a branch.
    pub(crate) fn into_children(self) -> (children: (Rope, Rope))
        requires
            self.is_branch(),
        ensures
            children.0 == self.left_child(),
            children.1 == self.right_child(),
    {
        match self.data {
            RopeData::Branch(left, right) => (*left, *right),
            RopeData::Leaf(_) => {
                proof {
                    assert(false);
                }
                (Rope::new(), Rope::new())
            },
        }
    }

    /// The left child of a branch.
    pub(crate) fn left(&self) -> (child: &Rope)
        requires
            self.is_branch(),
        ensures
            *child == self.left_child(),
    {
        match &self.data {
            RopeData::Branch(left, _) => &**left,
            RopeData::Leaf(_) => {
                proof {
                    assert(false);
                }
                self
            },
        }
    }

    /// The right child of a branch.
    pub(crate) fn right(&self) -> (child: &Rope)
        requires
            self.is_branch(),
        ensures
            *child == self.right_child(),
    {
        match &self.data {
            RopeData::Branch(_, right) => &**right,
            RopeData::Leaf(_) => {
                proof {
                    assert(false);
                }
                self
            },
        }
    }

    /// Whether this node is a leaf.
    pub(crate) fn is_leaf(&self) -> (r: bool)
        ensures
            r == !self.is_branch(),
    {
        match &self.data {
            RopeData::Leaf(_) => true,
            RopeData::Branch(_, _) => false,
        }
    }

    /// The leaf that a leaf node holds.
    pub(crate) fn into_leaf(self) -> (leaf: Leaf)
        requires
            !self.is_branch(),
        ensures
            leaf@ == self@,
            self.sound() ==> leaf.wf() && leaf@.len() <= MAX_NODE_SIZE,
    {
        match self.data {
            RopeData::Leaf(leaf) => leaf,
            RopeData::Branch(_, _) => {
                proof {
                    assert(false);
                }
                Leaf::new()
            },
        }
    }

    /// The leaf that a leaf node holds.
    pub(crate) fn leaf(&self) -> (leaf: &Leaf)
        requires
            !self.is_branch(),
        ensures
            leaf@ == self@,
            self.sound() ==> leaf.wf() && leaf@.len() <= MAX_NODE_SIZE,
        decreases self,
    {
        match &self.data {
            RopeData::Leaf(leaf) => leaf,
            RopeData::Branch(left, _) => {
                proof {
                    assert(false);
                }
                left.leaf()
            },
        }
    }

    /// The cached number of grapheme clusters.
    pub(crate) fn cluster_count(&self) -> (n: usize)
        requires
            self.sound(),
        ensures
            n == self@.len(),
    {
        self.grapheme_count_
    }

    /// The cached number of line endings.
    pub(crate) fn line_ending_count(&self) -> (n: usize)
        requires
            self.sound(),
        ensures
            n == line_endings(self@),
    {
        self.line_ending_count
    }

    /// The cached height.
    pub(crate) fn tree_height(&self) -> (h: usize)
        requires
            self.sound(),
        ensures
            h == self.height(),
    {
        self.tree_height
    }

    /// Recomputes the cached counts of this node: a leaf recounts its text, a
    /// branch sums its children.
    fn update_stats(&mut self)
        requires
            old(self).leaves_bounded(),
            old(self).data matches RopeData::Branch(left, right) ==> {
                &&& left.sound()
                &&& right.sound()
                &&& left.text().len() + right.text().len() <= usize::MAX
            },
        ensures
            final(self).data == old(self).data,
            final(self).sound(),
            final(self).data matches RopeData::Leaf(leaf) ==> {
                &&& final(self).char_count_ == leaf.text().len()
                &&& final(self).grapheme_count_ == grapheme_clusters(leaf.text()).len()
                &&& final(self).line_ending_count == line_endings(grapheme_clusters(leaf.text()))
                &&& final(self).tree_height == 1
            },
            final(self).data matches RopeData::Branch(left, right) ==> {
                &&& final(self).char_count_ == left.char_count_ + right.char_count_
                &&& final(self).grapheme_count_ == left.grapheme_count_ + right.grapheme_count_
                &&& final(self).line_ending_count == left.line_ending_count
                    + right.line_ending_count
                &&& final(self).tree_height == 1 + max_nat(
                    left.tree_height as nat,
                    right.tree_height as nat,
                )
            },
    {
        match &self.data {
            RopeData::Leaf(leaf) => {
                proof {
                    leaf.lemma_wf();
                }
                let cc = leaf.char_len();
                let gc = leaf.len();
                let lec = leaf.count_line_endings();
                self.char_count_ = cc;
                self.grapheme_count_ = gc;
                self.line_ending_count = lec;
                self.tree_height = 1;
            },
            RopeData::Branch(left, right) => {
                proof {
                    left.lemma_sound();
                    right.lemma_sound();
                    lemma_flatten_concat(left@, right@);
                    lemma_line_endings_concat(left@, right@);
                }
                let cc = left.char_count_ + right.char_count_;
                let gc = left.grapheme_count_ + right.grapheme_count_;
                let lec = left.line_ending_count + right.line_ending_count;
                let h = if left.tree_height >= right.tree_height {
                    left.tree_height
                } else {
                    right.tree_height
                } + 1;
                self.char_count_ = cc;
                self.grapheme_count_ = gc;
                self.line_ending_count = lec;
                self.tree_height = h;
            },
        }
    }
}

} // verus!
