//! Building a rope from a whole text in one pass.

use crate::leaf::Leaf;
use crate::rope::{Rope, MAX_NODE_SIZE};
use crate::model::{lemma_flatten_split, lemma_settled_subrange, settled};
use crate::string_utils::{all_nonempty, cluster_views, grapheme_clusters, segment};
use vstd::prelude::*;
use crate::model::lemma_flatten_len_ge_count;
use vstd::seq_lib::lemma_flatten_concat;
use vstd::string::*;

verus! {

/// The clusters held by a stack of ropes, bottom first.
spec fn stack_clusters(stack: Seq<Rope>) -> Seq<Seq<char>>
    decreases stack.len(),
{
    if stack.len() == 0 {
        Seq::empty()
    } else {
        stack_clusters(stack.drop_last()) + stack.last()@
    }
}

/// The leaves held by a stack of ropes, bottom first.
spec fn stack_leaves(stack: Seq<Rope>) -> Seq<Seq<Seq<char>>>
    decreases stack.len(),
{
    if stack.len() == 0 {
        Seq::empty()
    } else {
        stack_leaves(stack.drop_last()) + stack.last().leaves()
    }
}

/// Every leaf but the last holds exactly `MAX_NODE_SIZE` clusters.
pub open spec fn all_but_last_full(leaves: Seq<Seq<Seq<char>>>) -> bool {
    forall|k: int| 0 <= k < leaves.len() - 1 ==> (#[trigger] leaves[k]).len() == MAX_NODE_SIZE
}

/// Every leaf holds exactly `MAX_NODE_SIZE` clusters.
spec fn all_full(leaves: Seq<Seq<Seq<char>>>) -> bool {
    forall|k: int| 0 <= k < leaves.len() ==> (#[trigger] leaves[k]).len() == MAX_NODE_SIZE
}

/// The clusters `g` are known to be what their text is cut into, run by
/// run: they are settled, or they fit one leaf and are the clusters of their
/// text.
pub open spec fn cut_as_given(g: Seq<Seq<char>>) -> bool {
    settled(g) || (g.len() <= MAX_NODE_SIZE && grapheme_clusters(g.flatten()) == g)
}

/// The text of the pieces `g` goes into one leaf: there are no more than
/// `MAX_NODE_SIZE` pieces, and their text is cut into no more than
/// `MAX_NODE_SIZE` clusters.
pub open spec fn fits_one_leaf(g: Seq<Seq<char>>) -> bool {
    g.len() <= MAX_NODE_SIZE && grapheme_clusters(g.flatten()).len() <= MAX_NODE_SIZE
}

/// Every rope on the stack is a well-formed, non-empty rope.
spec fn stack_ok(stack: Seq<Rope>) -> bool {
    forall|k: int| 0 <= k < stack.len() ==> (#[trigger] stack[k]).wf() && stack[k]@.len() > 0
}

/// What a stack holds after a push.
proof fn lemma_stack_push(stack: Seq<Rope>, rope: Rope)
    ensures
        stack_clusters(stack.push(rope)) == stack_clusters(stack) + rope@,
        stack_leaves(stack.push(rope)) == stack_leaves(stack) + rope.leaves(),
{
    assert(stack.push(rope).drop_last() =~= stack);
}

/// The text of the top of the stack is part of the text of the whole stack.
proof fn lemma_stack_top_len(stack: Seq<Rope>)
    requires
        stack.len() > 0,
    ensures
        stack_clusters(stack).flatten().len() == stack_clusters(stack.drop_last()).flatten().len()
            + stack.last().text().len(),
{
    lemma_flatten_concat(stack_clusters(stack.drop_last()), stack.last()@);
}

impl Rope {
    /// Creates a rope from a text that is given as a run of pieces, one
    /// string each.
    ///
    /// The pieces are gathered, `MAX_NODE_SIZE` at a time, into the text of a
    /// leaf.  Every new leaf goes on a stack; while the rope under the top of
    /// the stack is no taller than the top, the two are merged.  What is left
    /// on the stack at the end is appended together from the top down.
    /// Where the pieces are the clusters that their text is cut into, they
    /// are the clusters of the rope, and every leaf but the last is full.
    pub fn from_graphemes(clusters: &Vec<String>) -> (rope: Rope)
        requires
            all_nonempty(cluster_views(clusters@)),
            cluster_views(clusters@).flatten().len() <= usize::MAX,
        ensures
            rope.wf(),
            rope.text() == cluster_views(clusters@).flatten(),
            cut_as_given(cluster_views(clusters@)) ==> rope@ == cluster_views(clusters@)
                && all_but_last_full(rope.leaves()),
            fits_one_leaf(cluster_views(clusters@)) ==> rope.leaves() == seq![
                grapheme_clusters(cluster_views(clusters@).flatten()),
            ],
    {
        let ghost all = cluster_views(clusters@);
        let ghost known = cut_as_given(all);
        let ghost single = fits_one_leaf(all);
        let n: usize = clusters.len();
        let mut stack: Vec<Rope> = Vec::new();
        let mut i: usize = 0;
        assert(all.take(0) =~= stack_clusters(stack@));
        while i < n
            invariant
                i <= n == clusters@.len(),
                all == cluster_views(clusters@),
                known == cut_as_given(all),
                all_nonempty(all),
                all.flatten().len() <= usize::MAX,
                stack_ok(stack@),
                stack_clusters(stack@).flatten() == all.take(i as int).flatten(),
                known ==> stack_clusters(stack@) == all.take(i as int),
                known ==> all_but_last_full(stack_leaves(stack@)),
                known && i < n ==> all_full(stack_leaves(stack@)),
                i == 0 || i == n || i >= MAX_NODE_SIZE,
                single == fits_one_leaf(all),
                i == 0 ==> stack@.len() == 0,
                single && i > 0 ==> stack@.len() == 1 && stack@[0].leaves() == seq![
                    grapheme_clusters(all.flatten()),
                ],
            decreases n - i,
        {
            let end: usize = if n - i > MAX_NODE_SIZE {
                i + MAX_NODE_SIZE
            } else {
                n
            };
            let leaf = Leaf::from_clusters(clusters, i, end);
            let ghost chunk = all.subrange(i as int, end as int);
            proof {
                leaf.lemma_wf();
                if known {
                    if settled(all) {
                        lemma_settled_subrange(all, i as int, end as int);
                    } else {
                        assert(chunk =~= all);
                    }
                    assert(leaf@ == chunk);
                }
                if single {
                    assert(chunk =~= all);
                }
            }
            let node = Rope::split_if_too_large(leaf);
            proof {
                node.lemma_sound();
                lemma_stack_push(stack@, node);
                assert(all.take(i as int) + chunk =~= all.take(end as int));
                lemma_flatten_concat(all.take(i as int), chunk);
                lemma_flatten_concat(stack_clusters(stack@), node@);
                crate::model::lemma_all_nonempty_subrange(all, i as int, end as int);
                lemma_flatten_len_ge_count(chunk);
                assert(node@.len() > 0) by {
                    if node@.len() == 0 {
                        assert(node@.flatten() =~= Seq::<char>::empty());
                    }
                }
            }
            stack.push(node);
            i = end;
            loop
                invariant
                    i <= n == clusters@.len(),
                    all == cluster_views(clusters@),
                    known == cut_as_given(all),
                    all.flatten().len() <= usize::MAX,
                    stack_ok(stack@),
                    stack_clusters(stack@).flatten() == all.take(i as int).flatten(),
                    known ==> stack_clusters(stack@) == all.take(i as int),
                    known ==> all_but_last_full(stack_leaves(stack@)),
                    known && i < n ==> all_full(stack_leaves(stack@)),
                    i > 0,
                    single ==> stack@.len() == 1 && stack@[0].leaves() == seq![
                        grapheme_clusters(all.flatten()),
                    ],
                decreases stack@.len(),
            {
                let len: usize = stack.len();
                if len > 1 {
                    proof {
                        stack@[len - 2].lemma_sound();
                        stack@[len - 1].lemma_sound();
                    }
                }
                if len > 1 && stack[len - 2].tree_height() <= stack[len - 1].tree_height() {
                    let ghost before = stack@;
                    let right = stack.pop().unwrap();
                    let left = stack.pop().unwrap();
                    proof {
                        let rest = before.drop_last().drop_last();
                        assert(stack@ =~= rest);
                        assert(before.drop_last().last() == left);
                        assert(stack_leaves(before) == stack_leaves(before.drop_last())
                            + right.leaves());
                        assert(stack_leaves(before.drop_last()) == stack_leaves(rest)
                            + left.leaves());
                        lemma_stack_top_len(before);
                        lemma_stack_top_len(before.drop_last());
                        lemma_flatten_split(all, i as int);
                        assert((stack_clusters(rest) + left@) + right@ =~= stack_clusters(rest) + (
                        left@ + right@));
                        assert((stack_leaves(rest) + left.leaves()) + right.leaves()
                            =~= stack_leaves(rest) + (left.leaves() + right.leaves()));
                    }
                    let merged = Rope::branch(left, right).rebalance();
                    proof {
                        lemma_stack_push(stack@, merged);
                    }
                    stack.push(merged);
                } else {
                    break ;
                }
            }
        }
        assert(all.take(n as int) =~= all);
        if stack.len() == 0 {
            let rope = Rope::new();
            proof {
                assert(all =~= Seq::<Seq<char>>::empty());
                rope.lemma_sound();
                assert(rope.leaves()[0] == grapheme_clusters(rope.leaves()[0].flatten()));
            }
            rope
        } else {
            while stack.len() > 1
                invariant
                    stack@.len() >= 1,
                    all.flatten().len() <= usize::MAX,
                    stack_ok(stack@),
                    stack_clusters(stack@).flatten() == all.flatten(),
                    known ==> stack_clusters(stack@) == all,
                    known ==> all_but_last_full(stack_leaves(stack@)),
                    single ==> stack@.len() == 1 && stack@[0].leaves() == seq![
                        grapheme_clusters(all.flatten()),
                    ],
                decreases stack@.len(),
            {
                let ghost before = stack@;
                let right = stack.pop().unwrap();
                let left = stack.pop().unwrap();
                proof {
                    let rest = before.drop_last().drop_last();
                    assert(stack@ =~= rest);
                    assert(before.drop_last().last() == left);
                    assert(stack_leaves(before) == stack_leaves(before.drop_last())
                        + right.leaves());
                    assert(stack_leaves(before.drop_last()) == stack_leaves(rest) + left.leaves());
                    lemma_stack_top_len(before);
                    lemma_stack_top_len(before.drop_last());
                    assert((stack_clusters(rest) + left@) + right@ =~= stack_clusters(rest) + (left@
                        + right@));
                    assert((stack_leaves(rest) + left.leaves()) + right.leaves() =~= stack_leaves(
                        rest,
                    ) + (left.leaves() + right.leaves()));
                }
                let merged = left.append_right(right);
                proof {
                    lemma_stack_push(stack@, merged);
                }
                stack.push(merged);
            }
            let ghost last = stack@;
            let rope = stack.pop().unwrap();
            proof {
                assert(last.drop_last() =~= Seq::<Rope>::empty());
                assert(stack_clusters(last) =~= rope@);
                assert(stack_leaves(last) == stack_leaves(last.drop_last()) + rope.leaves());
                assert(stack_leaves(last) =~= rope.leaves());
            }
            rope
        }
    }

    /// Creates a new rope from a string slice.
    pub fn from_str(s: &str) -> (rope: Rope)
        ensures
            rope.wf(),
            rope.text() == s@,
            cut_as_given(grapheme_clusters(s@)) ==> rope@ == grapheme_clusters(s@)
                && all_but_last_full(rope.leaves()),
            grapheme_clusters(s@).len() <= MAX_NODE_SIZE ==> rope@ == grapheme_clusters(s@)
                && rope.leaves() == seq![grapheme_clusters(s@)],
    {
        let _chars: usize = s.unicode_len();
        let clusters = segment(s);
        Rope::from_graphemes(&clusters)
    }

    /// Creates a new rope from a string slice whose counts of characters,
    /// grapheme clusters and line endings the caller already has.  The counts
    /// are a hint only: the rope counts for itself.
    pub fn from_str_with_count(s: &str, c_count: usize, g_count: usize, le_count: usize) -> (rope:
        Rope)
        ensures
            rope.wf(),
            rope.text() == s@,
            cut_as_given(grapheme_clusters(s@)) ==> rope@ == grapheme_clusters(s@)
                && all_but_last_full(rope.leaves()),
            grapheme_clusters(s@).len() <= MAX_NODE_SIZE ==> rope@ == grapheme_clusters(s@)
                && rope.leaves() == seq![grapheme_clusters(s@)],
    {
        Rope::from_str(s)
    }

    /// Creates a new rope from a string, consuming the string.
    pub fn from_string(s: String) -> (rope: Rope)
        ensures
            rope.wf(),
            rope.text() == s@,
            cut_as_given(grapheme_clusters(s@)) ==> rope@ == grapheme_clusters(s@)
                && all_but_last_full(rope.leaves()),
            grapheme_clusters(s@).len() <= MAX_NODE_SIZE ==> rope@ == grapheme_clusters(s@)
                && rope.leaves() == seq![grapheme_clusters(s@)],
    {
        Rope::from_str(s.as_str())
    }
}

} // verus!
