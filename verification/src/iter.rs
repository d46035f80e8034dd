//! Walking a rope: leaf by leaf, cluster by cluster, line by line.

use crate::leaf::Leaf;
use crate::model::{lemma_flatten_split, line_endings, line_start};
use crate::rope::Rope;
use crate::slice::RopeSlice;
use vstd::prelude::*;
use vstd::seq_lib::lemma_flatten_concat;
use vstd::string::*;

verus! {

/// The leaves under a stack of nodes that are yet to be visited, the top of
/// the stack first.
spec fn pending_leaves(stack: Seq<&Rope>) -> Seq<Seq<Seq<char>>>
    decreases stack.len(),
{
    if stack.len() == 0 {
        Seq::empty()
    } else {
        stack.last().leaves() + pending_leaves(stack.drop_last())
    }
}

/// What is pending after a push.
proof fn lemma_pending_push(stack: Seq<&Rope>, node: &Rope)
    ensures
        pending_leaves(stack.push(node)) == node.leaves() + pending_leaves(stack),
{
    assert(stack.push(node).drop_last() =~= stack);
}

/// The texts of a run of leaves.
pub open spec fn leaf_texts(leaves: Seq<Seq<Seq<char>>>) -> Seq<Seq<char>> {
    leaves.map_values(|leaf: Seq<Seq<char>>| leaf.flatten())
}

/// An iterator over a rope's string chunks: the texts of its leaves, left to
/// right.
pub struct RopeChunkIter<'a> {
    node_stack: Vec<&'a Rope>,
}

impl<'a> RopeChunkIter<'a> {
    /// The nodes yet to be visited are well formed, and the next leaf is on
    /// top.
    pub closed spec fn wf(&self) -> bool {
        &&& forall|k: int|
            0 <= k < self.node_stack@.len() ==> (#[trigger] self.node_stack@[k]).wf()
        &&& self.node_stack@.len() > 0 ==> !self.node_stack@.last().is_branch()
    }

    /// The leaves that are yet to come, each as the clusters it holds.
    pub closed spec fn leaves(&self) -> Seq<Seq<Seq<char>>> {
        pending_leaves(self.node_stack@)
    }

    /// The chunks that are yet to come.
    pub open spec fn chunks(&self) -> Seq<Seq<char>> {
        leaf_texts(self.leaves())
    }

    /// The next leaf, if there is one.  Once it is taken, branches are popped
    /// and their children pushed, right before left, until a leaf is on top
    /// again.
    pub(crate) fn next_leaf(&mut self) -> (r: Option<&'a Leaf>)
        requires
            old(self).wf(),
        ensures
            final(self).wf(),
            match r {
                None => old(self).leaves().len() == 0 && final(self).leaves().len() == 0,
                Some(leaf) => {
                    &&& old(self).leaves().len() > 0
                    &&& leaf.wf()
                    &&& leaf@ == old(self).leaves()[0]
                    &&& final(self).leaves() == old(self).leaves().drop_first()
                },
            },
    {
        let ghost before = self.node_stack@;
        match self.node_stack.pop() {
            None => None,
            Some(node) => {
                proof {
                    node.lemma_sound();
                    assert(before.last() == node);
                    assert(self.node_stack@ =~= before.drop_last());
                    assert(pending_leaves(before) == node.leaves() + pending_leaves(
                        before.drop_last(),
                    ));
                    assert(node.leaves() =~= seq![node@]);
                    assert(pending_leaves(before).drop_first() =~= pending_leaves(
                        before.drop_last(),
                    ));
                }
                loop
                    invariant
                        forall|k: int|
                            0 <= k < self.node_stack@.len() ==> (#[trigger] self.node_stack@[k]).wf(),
                        pending_leaves(self.node_stack@) == pending_leaves(before).drop_first(),
                    ensures
                        self.node_stack@.len() > 0 ==> !self.node_stack@.last().is_branch(),
                    decreases
                            if self.node_stack@.len() > 0 {
                                self.node_stack@.last().height()
                            } else {
                                0
                            },
                {
                    let len: usize = self.node_stack.len();
                    if len == 0 {
                        break ;
                    }
                    if self.node_stack[len - 1].is_leaf() {
                        break ;
                    }
                    let ghost stack0 = self.node_stack@;
                    let top: &'a Rope = self.node_stack.pop().unwrap();
                    proof {
                        top.lemma_branch();
                        assert(self.node_stack@ =~= stack0.drop_last());
                        lemma_pending_push(self.node_stack@, &top.right_child());
                        lemma_pending_push(
                            self.node_stack@.push(&top.right_child()),
                            &top.left_child(),
                        );
                        assert(top.left_child().leaves() + (top.right_child().leaves()
                            + pending_leaves(stack0.drop_last())) =~= pending_leaves(stack0));
                    }
                    let right: &'a Rope = top.right();
                    let left: &'a Rope = top.left();
                    self.node_stack.push(right);
                    self.node_stack.push(left);
                }
                Some(node.leaf())
            },
        }
    }

    /// The next chunk, if there is one.
    pub fn next(&mut self) -> (r: Option<&'a str>)
        requires
            old(self).wf(),
        ensures
            final(self).wf(),
            match r {
                None => old(self).chunks().len() == 0 && final(self).chunks().len() == 0,
                Some(chunk) => {
                    &&& old(self).chunks().len() > 0
                    &&& chunk@ == old(self).chunks()[0]
                    &&& final(self).chunks() == old(self).chunks().drop_first()
                },
            },
    {
        match self.next_leaf() {
            None => None,
            Some(leaf) => {
                proof {
                    assert(leaf_texts(old(self).leaves().drop_first()) =~= leaf_texts(
                        old(self).leaves(),
                    ).drop_first());
                }
                Some(leaf.as_str())
            },
        }
    }
}

/// An iterator over a rope's grapheme clusters.  It walks the clusters of one
/// leaf at a time and moves on to the next leaf when that one is used up; a
/// bound, where it has one, says how many clusters it may still hand out.
pub struct RopeGraphemeIter<'a> {
    chunk_iter: RopeChunkIter<'a>,
    cur_chunk: &'a Leaf,
    cur_pos: usize,
    length: Option<usize>,
}

impl<'a> RopeGraphemeIter<'a> {
    /// The place in the current leaf lies within it, and the leaves yet to
    /// come are in order.
    pub closed spec fn wf(&self) -> bool {
        &&& self.chunk_iter.wf()
        &&& self.cur_chunk.wf()
        &&& self.cur_pos <= self.cur_chunk@.len()
    }

    /// The clusters from the current place to the end of the rope.
    pub closed spec fn to_end(&self) -> Seq<Seq<char>> {
        self.cur_chunk@.skip(self.cur_pos as int) + self.chunk_iter.leaves().flatten()
    }

    /// The bound on the number of clusters still to hand out, if there is
    /// one.
    pub closed spec fn bound(&self) -> Option<usize> {
        self.length
    }

    /// The clusters that are yet to come.
    pub open spec fn remaining(&self) -> Seq<Seq<char>> {
        match self.bound() {
            Some(n) if n <= self.to_end().len() => self.to_end().take(n as int),
            _ => self.to_end(),
        }
    }

    /// The next cluster, if there is one.
    pub fn next(&mut self) -> (r: Option<&'a str>)
        requires
            old(self).wf(),
        ensures
            final(self).wf(),
            match r {
                None => old(self).remaining().len() == 0 && final(self).remaining().len() == 0,
                Some(g) => {
                    &&& old(self).remaining().len() > 0
                    &&& g@ == old(self).remaining()[0]
                    &&& final(self).remaining() == old(self).remaining().drop_first()
                },
            },
    {
        if let Some(l) = self.length {
            if l == 0 {
                assert(self.remaining() =~= Seq::<Seq<char>>::empty());
                return None;
            }
        }
        loop
            invariant
                self.wf(),
                self.to_end() == old(self).to_end(),
                self.length == old(self).length,
                self.length matches Some(l) ==> l > 0,
            decreases self.chunk_iter.leaves().len(),
        {
            if self.cur_pos < self.cur_chunk.len() {
                let ghost before = self.to_end();
                let g = self.cur_chunk.grapheme(self.cur_pos);
                self.cur_pos += 1;
                if let Some(l) = self.length {
                    self.length = Some(l - 1);
                }
                proof {
                    assert(self.to_end() =~= before.drop_first());
                    assert(g@ == before[0]);
                    assert(self.remaining() =~= old(self).remaining().drop_first());
                }
                return Some(g);
            } else {
                let ghost leaves = self.chunk_iter.leaves();
                match self.chunk_iter.next_leaf() {
                    Some(leaf) => {
                        proof {
                            assert(leaves.flatten() == leaves.first() + leaves.drop_first().flatten());
                            assert(self.cur_chunk@.skip(self.cur_pos as int) =~= Seq::<
                                Seq<char>,
                            >::empty());
                            assert(leaf@.skip(0) =~= leaf@);
                        }
                        self.cur_chunk = leaf;
                        self.cur_pos = 0;
                        assert(self.to_end() =~= old(self).to_end());
                    },
                    None => {
                        proof {
                            assert(self.to_end() =~= Seq::<Seq<char>>::empty());
                        }
                        return None;
                    },
                }
            }
        }
    }
}

/// An iterator over a rope's lines, returned as slices.  A line runs from
/// its start up to the start of the next line, so it holds the line ending
/// that closes it.
pub struct RopeLineIter<'a> {
    rope: &'a Rope,
    li: usize,
}

impl<'a> RopeLineIter<'a> {
    /// The rope is well formed, and its lines can be counted.
    pub closed spec fn wf(&self) -> bool {
        self.rope.wf() && line_endings(self.rope@) < usize::MAX
    }

    /// The rope whose lines are walked.
    pub closed spec fn rope(&self) -> Rope {
        *self.rope
    }

    /// The index of the line that comes next.
    pub closed spec fn line(&self) -> int {
        self.li as int
    }

    /// The next line, if there is one.
    pub fn next(&mut self) -> (r: Option<RopeSlice<'a>>)
        requires
            old(self).wf(),
        ensures
            final(self).wf(),
            final(self).rope() == old(self).rope(),
            match r {
                None => {
                    &&& old(self).line() > line_endings(old(self).rope()@)
                    &&& final(self).line() == old(self).line()
                },
                Some(slice) => {
                    &&& old(self).line() <= line_endings(old(self).rope()@)
                    &&& final(self).line() == old(self).line() + 1
                    &&& slice.wf()
                    &&& slice.rope() == old(self).rope()
                    &&& slice.start() == line_start(old(self).rope()@, old(self).line())
                    &&& slice.end() == if old(self).line() < line_endings(old(self).rope()@) {
                        line_start(old(self).rope()@, old(self).line() + 1)
                    } else {
                        old(self).rope()@.len() as int
                    }
                },
            },
    {
        proof {
            self.rope.lemma_sound();
        }
        let endings: usize = self.rope.line_ending_count();
        if self.li > endings {
            None
        } else {
            let a = self.rope.line_index_to_grapheme_index(self.li);
            let b = if self.li < endings {
                let b = self.rope.line_index_to_grapheme_index(self.li + 1);
                proof {
                    crate::model::lemma_line_of_index(self.rope@, a as int);
                }
                b
            } else {
                self.rope.grapheme_count()
            };
            self.li += 1;
            Some(self.rope.slice(a, b))
        }
    }
}

impl Rope {
    /// Creates a chunk iterator for the rope.
    pub fn chunk_iter<'a>(&'a self) -> (iter: RopeChunkIter<'a>)
        requires
            self.wf(),
        ensures
            iter.wf(),
            iter.leaves() == self.leaves(),
            iter.chunks() == self.chunks(),
    {
        self.chunk_iter_at_index(0).1
    }

    /// Creates a chunk iterator starting at the chunk containing the given
    /// grapheme index.  Returns the grapheme index at which that chunk
    /// starts, and the iterator.  An index at or past the end of the text
    /// selects the last chunk.
    pub fn chunk_iter_at_index<'a>(&'a self, index: usize) -> (r: (usize, RopeChunkIter<'a>))
        requires
            self.wf(),
        ensures
            r.1.wf(),
            r.1.leaves().len() >= 1,
            r.1.leaves() == self.leaves().skip(self.leaves().len() - r.1.leaves().len()),
            r.0 == self.leaves().take(self.leaves().len() - r.1.leaves().len()).flatten().len(),
            r.1.leaves().flatten() == self@.skip(r.0 as int),
            r.0 <= index,
            r.0 <= self@.len(),
            index < self@.len() ==> index < r.0 + r.1.leaves()[0].len(),
            index >= self@.len() ==> r.1.leaves().len() == 1,
            index == 0 ==> r.1.leaves() == self.leaves(),
    {
        let mut node_stack: Vec<&'a Rope> = Vec::new();
        let mut cur_node: &'a Rope = self;
        let mut grapheme_i: usize = index;
        let ghost mut skipped: Seq<Seq<Seq<char>>> = Seq::empty();
        proof {
            assert(skipped + cur_node.leaves() + pending_leaves(node_stack@) =~= self.leaves());
            self.lemma_sound();
        }
        loop
            invariant
                self.wf(),
                cur_node.wf(),
                forall|k: int| 0 <= k < node_stack@.len() ==> (#[trigger] node_stack@[k]).wf(),
                skipped + cur_node.leaves() + pending_leaves(node_stack@) == self.leaves(),
                skipped.flatten().len() + grapheme_i == index,
                skipped.flatten().len() + cur_node@.len() + pending_leaves(
                    node_stack@,
                ).flatten().len() == self@.len(),
                index < self@.len() ==> grapheme_i < cur_node@.len(),
                index >= self@.len() ==> node_stack@.len() == 0,
                index == 0 ==> skipped.len() == 0,
            ensures
                !cur_node.is_branch(),
                skipped + cur_node.leaves() + pending_leaves(node_stack@) == self.leaves(),
                skipped.flatten().len() + grapheme_i == index,
                skipped.flatten().len() + cur_node@.len() + pending_leaves(
                    node_stack@,
                ).flatten().len() == self@.len(),
                index < self@.len() ==> grapheme_i < cur_node@.len(),
                index >= self@.len() ==> node_stack@.len() == 0,
                index == 0 ==> skipped.len() == 0,
                cur_node.wf(),
                forall|k: int| 0 <= k < node_stack@.len() ==> (#[trigger] node_stack@[k]).wf(),
            decreases cur_node.height(),
        {
            if cur_node.is_leaf() {
                break ;
            }
            proof {
                cur_node.lemma_branch();
                cur_node.lemma_sound();
                cur_node.left_child().lemma_sound();
                cur_node.right_child().lemma_sound();
            }
            let left: &'a Rope = cur_node.left();
            let right: &'a Rope = cur_node.right();
            if grapheme_i < left.cluster_count() {
                proof {
                    lemma_pending_push(node_stack@, right);
                    assert(skipped + left.leaves() + (right.leaves() + pending_leaves(node_stack@))
                        =~= skipped + (left.leaves() + right.leaves()) + pending_leaves(
                        node_stack@,
                    ));
                    lemma_flatten_concat(right.leaves(), pending_leaves(node_stack@));
                }
                node_stack.push(right);
                cur_node = left;
            } else {
                proof {
                    assert((skipped + left.leaves()) + right.leaves() + pending_leaves(node_stack@)
                        =~= skipped + (left.leaves() + right.leaves()) + pending_leaves(
                        node_stack@,
                    ));
                    lemma_flatten_concat(skipped, left.leaves());
                    skipped = skipped + left.leaves();
                }
                grapheme_i -= left.cluster_count();
                cur_node = right;
            }
        }
        proof {
            cur_node.lemma_sound();
            lemma_pending_push(node_stack@, cur_node);
            let rest = cur_node.leaves() + pending_leaves(node_stack@);
            assert(skipped + rest =~= self.leaves());
            assert(self.leaves().skip(skipped.len() as int) =~= rest);
            assert(self.leaves().take(skipped.len() as int) =~= skipped);
            lemma_flatten_split(self.leaves(), skipped.len() as int);
            lemma_flatten_concat(cur_node.leaves(), pending_leaves(node_stack@));
            assert(cur_node.leaves() =~= seq![cur_node@]);
            seq![cur_node@].lemma_flatten_one_element();
        }
        node_stack.push(cur_node);
        (index - grapheme_i, RopeChunkIter { node_stack })
    }

    /// Makes a copy of the rope as a string.
    pub fn to_string(&self) -> (s: String)
        requires
            self.wf(),
        ensures
            s@ == self.text(),
    {
        let mut s = String::new();
        let mut iter = self.chunk_iter();
        proof {
            self.lemma_sound();
            assert(s@ + iter.chunks().flatten() =~= self.text());
        }
        loop
            invariant
                iter.wf(),
                s@ + iter.chunks().flatten() == self.text(),
            ensures
                s@ == self.text(),
            decreases iter.chunks().len(),
        {
            let ghost before = iter.chunks();
            match iter.next() {
                Some(chunk) => {
                    proof {
                        assert(before.flatten() == before.first() + before.drop_first().flatten());
                        assert((s@ + chunk@) + iter.chunks().flatten() =~= s@ + (chunk@
                            + iter.chunks().flatten()));
                    }
                    s.append(chunk);
                },
                None => {
                    proof {
                        assert(iter.chunks().flatten() =~= Seq::<char>::empty());
                        assert(s@ + Seq::<char>::empty() =~= s@);
                    }
                    break ;
                },
            }
        }
        s
    }
    /// Creates an iterator at the first grapheme of the rope.
    pub fn grapheme_iter<'a>(&'a self) -> (iter: RopeGraphemeIter<'a>)
        requires
            self.wf(),
        ensures
            iter.wf(),
            iter.remaining() == self@,
    {
        let iter = self.grapheme_iter_at_index(0);
        assert(self@.skip(0) =~= self@);
        iter
    }

    /// Creates an iterator at the given grapheme index.  An index past the
    /// end gives an iterator with nothing left.
    pub fn grapheme_iter_at_index<'a>(&'a self, index: usize) -> (iter: RopeGraphemeIter<'a>)
        requires
            self.wf(),
        ensures
            iter.wf(),
            iter.bound() is None,
            iter.remaining() == self@.skip(
                if index <= self@.len() { index as int } else { self@.len() as int },
            ),
    {
        let (start, mut chunk_iter) = self.chunk_iter_at_index(index);
        let ghost leaves = chunk_iter.leaves();
        match chunk_iter.next_leaf() {
            Some(leaf) => {
                let in_leaf: usize = index - start;
                let count: usize = leaf.len();
                let cur_pos: usize = if in_leaf < count { in_leaf } else { count };
                let iter = RopeGraphemeIter { chunk_iter, cur_chunk: leaf, cur_pos, length: None };
                proof {
                    assert(leaves.flatten() == leaves.first() + leaves.drop_first().flatten());
                    let rest = leaves.drop_first();
                    assert(iter.to_end() == leaf@.skip(cur_pos as int) + rest.flatten());
                    assert(self@.skip(start as int) == leaf@ + rest.flatten());
                    if index >= self@.len() {
                        assert(rest =~= Seq::<Seq<Seq<char>>>::empty());
                        assert(rest.flatten() =~= Seq::<Seq<char>>::empty());
                        assert(self@.skip(start as int).len() == leaf@.len());
                    } else {
                        assert(self@.skip(start as int).skip(in_leaf as int) =~= self@.skip(
                            index as int,
                        ));
                        assert((leaf@ + rest.flatten()).skip(in_leaf as int) =~= leaf@.skip(
                            in_leaf as int,
                        ) + rest.flatten());
                    }
                    assert(iter.to_end() =~= self@.skip(
                        if index <= self@.len() { index as int } else { self@.len() as int },
                    ));
                }
                iter
            },
            None => {
                proof {
                    assert(false);
                }
                RopeGraphemeIter { chunk_iter, cur_chunk: self.leaf(), cur_pos: 0, length: None }
            },
        }
    }

    /// Creates an iterator that starts at `pos_a` and stops just before
    /// `pos_b`, or at the end of the text if that comes first.
    pub fn grapheme_iter_between_indices<'a>(&'a self, pos_a: usize, pos_b: usize) -> (iter:
        RopeGraphemeIter<'a>)
        requires
            self.wf(),
            pos_a <= pos_b,
        ensures
            iter.wf(),
            iter.remaining() == self@.subrange(
                if pos_a <= self@.len() { pos_a as int } else { self@.len() as int },
                if pos_b <= self@.len() { pos_b as int } else { self@.len() as int },
            ),
    {
        let mut iter = self.grapheme_iter_at_index(pos_a);
        let ghost to_end = iter.to_end();
        iter.length = Some(pos_b - pos_a);
        proof {
            assert(iter.to_end() == to_end);
            assert(iter.remaining() =~= self@.subrange(
                if pos_a <= self@.len() { pos_a as int } else { self@.len() as int },
                if pos_b <= self@.len() { pos_b as int } else { self@.len() as int },
            ));
        }
        iter
    }

    /// Creates an iterator over the lines in the rope.
    pub fn line_iter<'a>(&'a self) -> (iter: RopeLineIter<'a>)
        requires
            self.wf(),
            line_endings(self@) < usize::MAX,
        ensures
            iter.wf(),
            iter.rope() == *self,
            iter.line() == 0,
    {
        RopeLineIter { rope: self, li: 0 }
    }

    /// Creates an iterator over the lines in the rope, starting at the given
    /// line index.
    pub fn line_iter_at_index<'a>(&'a self, index: usize) -> (iter: RopeLineIter<'a>)
        requires
            self.wf(),
            line_endings(self@) < usize::MAX,
        ensures
            iter.wf(),
            iter.rope() == *self,
            iter.line() == index,
    {
        RopeLineIter { rope: self, li: index }
    }
}

} // verus!
