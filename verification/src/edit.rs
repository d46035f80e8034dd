//! Editing a rope: inserting text, removing a range, and splitting in two.
//! Positions are grapheme indices.
//!
//! An edit changes the text of the leaves it touches, and each of those
//! leaves cuts its new text into grapheme clusters.  What the text is
//! afterwards is therefore stated for every input.  What the clusters are
//! afterwards is stated where the clusters one would expect are `settled`:
//! where no cluster fuses with its new neighbour.

use crate::leaf::Leaf;
use crate::model::{
    chars_before, cut_out, insert_fits, is_cluster_boundary, leaf_with, leaves_after_insert,
    lemma_boundary_cluster, lemma_chars_before_bounds, lemma_insert_leaves_left,
    lemma_insert_leaves_right,
    lemma_chars_before_rising, lemma_chars_before_split, lemma_cut_out_concat,
    lemma_cut_text_concat, lemma_settled_parts, lemma_settled_subrange, lemma_settled_whole,
    lemma_splice_left, lemma_splice_right, lemma_spliced_concat, lemma_spliced_text,
    lemma_text_has_clusters, settled, spliced,
};
use crate::rope::{Rope, MAX_NODE_SIZE, MIN_NODE_SIZE};
use crate::string_utils::{all_nonempty, cluster_views, grapheme_clusters, segment};
use vstd::prelude::*;
use vstd::seq_lib::lemma_flatten_concat;
use vstd::string::*;

verus! {

/// The text of the given clusters as one string.
pub fn concat_clusters(clusters: &Vec<String>) -> (text: String)
    ensures
        text@ == cluster_views(clusters@).flatten(),
{
    let ghost g = cluster_views(clusters@);
    let mut text = String::new();
    let mut i: usize = 0;
    assert(g.take(0).flatten() =~= Seq::<char>::empty());
    while i < clusters.len()
        invariant
            i <= clusters@.len(),
            g == cluster_views(clusters@),
            text@ == g.take(i as int).flatten(),
        decreases clusters@.len() - i,
    {
        proof {
            assert(g.take(i + 1) =~= g.take(i as int).push(g[i as int]));
            g.take(i as int).lemma_flatten_push(g[i as int]);
        }
        text.append(clusters[i].as_str());
        i += 1;
    }
    assert(g.take(g.len() as int) =~= g);
    text
}

impl Rope {
    /// The text below this node as a single leaf.
    fn into_one_leaf(self) -> (leaf: Leaf)
        requires
            self.sound(),
        ensures
            leaf.wf(),
            leaf.text() == self.text(),
        decreases self.height(),
    {
        if self.is_leaf() {
            let leaf = self.into_leaf();
            proof {
                leaf.lemma_wf();
            }
            leaf
        } else {
            proof {
                self.lemma_branch();
            }
            let (l, r) = self.into_children();
            let mut left = l.into_one_leaf();
            let right = r.into_one_leaf();
            left.append(&right);
            left
        }
    }

    /// Splits a leaf that holds more than `MAX_NODE_SIZE` clusters in half,
    /// at the cluster in the middle, and the halves in turn until every leaf
    /// is within bounds; a leaf within bounds becomes a node as it is.
    pub(crate) fn split_if_too_large(leaf: Leaf) -> (res: Rope)
        requires
            leaf.wf(),
        ensures
            res.wf(),
            res.text() == leaf.text(),
            leaf@.len() <= MAX_NODE_SIZE ==> res@ == leaf@ && res.leaves() == seq![leaf@],
            settled(leaf@) ==> res@ == leaf@,
        decreases leaf.text().len(),
    {
        proof {
            leaf.lemma_wf();
        }
        let count: usize = leaf.len();
        if count <= MAX_NODE_SIZE {
            Rope::leaf_node(leaf)
        } else {
            let mid: usize = count / 2;
            let _chars: usize = leaf.char_len();
            let ghost whole = leaf@;
            let ghost text = leaf.text();
            let mut head = leaf;
            let tail = head.split_off(mid);
            proof {
                lemma_chars_before_rising(whole, 0, mid as int);
                lemma_chars_before_rising(whole, mid as int, count as int);
                lemma_chars_before_bounds(whole, mid as int, count as int);
                head.lemma_wf();
                tail.lemma_wf();
                if settled(whole) {
                    lemma_settled_subrange(whole, 0, mid as int);
                    lemma_settled_subrange(whole, mid as int, count as int);
                    assert(whole.take(mid as int) + whole.skip(mid as int) =~= whole);
                }
            }
            let l = Rope::split_if_too_large(head);
            let r = Rope::split_if_too_large(tail);
            proof {
                lemma_flatten_concat(l@, r@);
                assert(text.take(chars_before(whole, mid as int) as int) + text.skip(
                    chars_before(whole, mid as int) as int,
                ) =~= text);
            }
            Rope::join(l, r)
        }
    }

    /// Folds a branch that holds fewer than `MIN_NODE_SIZE` clusters into a
    /// single leaf; any other node is rebalanced.
    fn merge_if_too_small(self) -> (res: Rope)
        requires
            self.sound(),
            self.is_branch() ==> self.left_child().balanced() && self.right_child().balanced(),
        ensures
            res.wf(),
            res.text() == self.text(),
            !(self.is_branch() && self@.len() < MIN_NODE_SIZE) ==> res@ == self@ && res.leaves()
                == self.leaves(),
            settled(self@) ==> res@ == self@,
    {
        proof {
            self.lemma_sound();
        }
        if self.cluster_count() < MIN_NODE_SIZE && !self.is_leaf() {
            let ghost clusters = self@;
            let leaf = self.into_one_leaf();
            proof {
                leaf.lemma_wf();
                if settled(clusters) {
                    lemma_settled_whole(clusters);
                }
            }
            Rope::split_if_too_large(leaf)
        } else {
            self.rebalance()
        }
    }

    /// The text of a leaf before cluster `pos` and the text from it on, as
    /// two ropes.
    fn split_leaf(leaf: Leaf, pos: usize) -> (halves: (Rope, Rope))
        requires
            leaf.wf(),
            pos <= leaf@.len(),
        ensures
            halves.0.wf(),
            halves.1.wf(),
            halves.0.text() == leaf.text().take(chars_before(leaf@, pos as int) as int),
            halves.1.text() == leaf.text().skip(chars_before(leaf@, pos as int) as int),
            settled(leaf@.take(pos as int)) ==> halves.0@ == leaf@.take(pos as int),
            settled(leaf@.skip(pos as int)) ==> halves.1@ == leaf@.skip(pos as int),
    {
        let ghost whole = leaf@;
        proof {
            leaf.lemma_wf();
        }
        let mut head = leaf;
        let tail = head.split_off(pos);
        proof {
            head.lemma_wf();
            tail.lemma_wf();
            lemma_chars_before_bounds(whole, pos as int, whole.len() as int);
            if settled(whole.take(pos as int)) {
                lemma_settled_whole(whole.take(pos as int));
            }
            if settled(whole.skip(pos as int)) {
                lemma_settled_whole(whole.skip(pos as int));
            }
        }
        (Rope::split_if_too_large(head), Rope::split_if_too_large(tail))
    }

    /// The text before cluster `pos` and the text from it on, as two ropes.
    /// At a leaf the text is cut in two; at a branch the child that holds
    /// `pos` is split, and the other child is joined to the half on its side.
    fn split_node(self, pos: usize) -> (halves: (Rope, Rope))
        requires
            self.wf(),
            pos <= self@.len(),
        ensures
            halves.0.wf(),
            halves.1.wf(),
            halves.0.text() == self.text().take(chars_before(self@, pos as int) as int),
            halves.1.text() == self.text().skip(chars_before(self@, pos as int) as int),
            settled(self@) ==> halves.0@ == self@.take(pos as int) && halves.1@ == self@.skip(
                pos as int,
            ),
        decreases self.height(),
    {
        proof {
            self.lemma_sound();
        }
        if self.is_leaf() {
            let leaf = self.into_leaf();
            proof {
                leaf.lemma_wf();
                if settled(leaf@) {
                    lemma_settled_subrange(leaf@, 0, pos as int);
                    lemma_settled_subrange(leaf@, pos as int, leaf@.len() as int);
                }
            }
            Rope::split_leaf(leaf, pos)
        } else {
            proof {
                self.lemma_branch();
            }
            let (l, r) = self.into_children();
            let lgc: usize = l.cluster_count();
            proof {
                l.lemma_sound();
                r.lemma_sound();
                lemma_chars_before_split(l@, r@, pos as int);
                if settled(l@ + r@) {
                    lemma_settled_parts(l@, r@);
                }
            }
            if pos < lgc {
                let (ll, lr) = l.split_node(pos);
                proof {
                    lemma_flatten_concat(lr@, r@);
                    ll.lemma_sound();
                    lr.lemma_sound();
                    lemma_splice_left(
                        l.text(),
                        r.text(),
                        Seq::empty(),
                        chars_before(l@, pos as int) as int,
                    );
                    assert((l@ + r@).take(pos as int) =~= l@.take(pos as int));
                    assert((l@ + r@).skip(pos as int) =~= l@.skip(pos as int) + r@);
                }
                (ll, Rope::join(lr, r))
            } else {
                let (rl, rr) = r.split_node(pos - lgc);
                proof {
                    lemma_flatten_concat(l@, rl@);
                    rl.lemma_sound();
                    rr.lemma_sound();
                    lemma_splice_right(
                        l.text(),
                        r.text(),
                        Seq::empty(),
                        chars_before(r@, pos - lgc) as int,
                    );
                    assert((l@ + r@).take(pos as int) =~= l@ + r@.take(pos - lgc));
                    assert((l@ + r@).skip(pos as int) =~= r@.skip(pos - lgc));
                }
                (Rope::join(l, rl), rr)
            }
        }
    }

    /// Splits the rope in two at grapheme index `pos`: the text before
    /// cluster `pos` stays in this rope, the text from it on is returned as a
    /// new rope.
    pub fn split_at_grapheme_index(&mut self, pos: usize) -> (right: Rope)
        requires
            old(self).wf(),
            pos <= old(self)@.len(),
        ensures
            final(self).wf(),
            right.wf(),
            final(self).text() == old(self).text().take(chars_before(old(self)@, pos as int) as int),
            right.text() == old(self).text().skip(chars_before(old(self)@, pos as int) as int),
            settled(old(self)@) ==> final(self)@ == old(self)@.take(pos as int) && right@
                == old(self)@.skip(pos as int),
    {
        let mut this = Rope::new();
        core::mem::swap(self, &mut this);
        let (left, right) = this.split_node(pos);
        *self = left;
        right
    }

    /// A leaf with `text`, whose clusters are `clusters`, put in before
    /// cluster `pos`: spliced into the leaf if it has room, else as a rope
    /// of its own between what the leaf held before `pos` and after.
    fn insert_into_leaf(leaf: Leaf, text: &str, clusters: &Vec<String>, pos: usize) -> (res: Rope)
        requires
            leaf.wf(),
            leaf@.len() <= MAX_NODE_SIZE,
            pos <= leaf@.len(),
            all_nonempty(cluster_views(clusters@)),
            cluster_views(clusters@).flatten() == text@,
            leaf.text().len() + text@.len() <= usize::MAX,
        ensures
            res.wf(),
            res.text() == leaf.text().take(chars_before(leaf@, pos as int) as int) + text@
                + leaf.text().skip(chars_before(leaf@, pos as int) as int),
            settled(spliced(leaf@, cluster_views(clusters@), pos as int)) ==> res@ == spliced(
                leaf@,
                cluster_views(clusters@),
                pos as int,
            ),
            leaf@.len() + clusters@.len() <= MAX_NODE_SIZE && grapheme_clusters(res.text()).len()
                <= MAX_NODE_SIZE ==> res@ == grapheme_clusters(res.text()),
            insert_fits(seq![leaf@], cluster_views(clusters@), pos as int) ==> res.leaves()
                == leaves_after_insert(seq![leaf@], cluster_views(clusters@), pos as int),
    {
        let ghost added = cluster_views(clusters@);
        let ghost whole = leaf@;
        let ghost wanted = spliced(whole, added, pos as int);
        proof {
            leaf.lemma_wf();
            lemma_spliced_text(whole, added, pos as int);
            lemma_chars_before_bounds(whole, pos as int, whole.len() as int);
            assert(seq![whole].take(0).flatten() =~= Seq::<Seq<char>>::empty());
            assert(leaf_with(seq![whole], added, pos as int) == wanted);
            assert(leaves_after_insert(seq![whole], added, pos as int) =~= seq![wanted]);
        }
        let count: usize = leaf.len();
        let mut leaf = leaf;
        if clusters.len() <= MAX_NODE_SIZE - count {
            leaf.insert_text(pos, text);
            proof {
                leaf.lemma_wf();
                if settled(wanted) {
                    lemma_settled_whole(wanted);
                }
            }
            Rope::split_if_too_large(leaf)
        } else {
            let fresh = Rope::from_graphemes(clusters);
            let (left, right) = Rope::split_leaf(leaf, pos);
            proof {
                if settled(wanted) {
                    lemma_settled_parts(whole.take(pos as int) + added, whole.skip(pos as int));
                    lemma_settled_parts(whole.take(pos as int), added);
                }
                lemma_flatten_concat(left@, fresh@);
            }
            let front = Rope::join(left, fresh);
            proof {
                lemma_flatten_concat(front@, right@);
            }
            Rope::join(front, right)
        }
    }

    /// This node with `text`, whose clusters are `clusters`, put in before
    /// cluster `pos`.  The way down follows the cluster counts of the left
    /// children; every branch on the way back up is rebalanced.
    fn insert_node(self, text: &str, clusters: &Vec<String>, pos: usize) -> (res: Rope)
        requires
            self.wf(),
            pos <= self@.len(),
            all_nonempty(cluster_views(clusters@)),
            cluster_views(clusters@).flatten() == text@,
            self.text().len() + text@.len() <= usize::MAX,
        ensures
            res.wf(),
            res.text() == self.text().take(chars_before(self@, pos as int) as int) + text@
                + self.text().skip(chars_before(self@, pos as int) as int),
            settled(spliced(self@, cluster_views(clusters@), pos as int)) ==> res@ == spliced(
                self@,
                cluster_views(clusters@),
                pos as int,
            ),
            !self.is_branch() && self@.len() + clusters@.len() <= MAX_NODE_SIZE
                && grapheme_clusters(res.text()).len() <= MAX_NODE_SIZE ==> res@
                == grapheme_clusters(res.text()),
            insert_fits(self.leaves(), cluster_views(clusters@), pos as int) ==> res.leaves()
                == leaves_after_insert(self.leaves(), cluster_views(clusters@), pos as int),
        decreases self.height(),
    {
        let ghost added = cluster_views(clusters@);
        let ghost wanted = spliced(self@, added, pos as int);
        proof {
            self.lemma_sound();
        }
        if self.is_leaf() {
            let leaf = self.into_leaf();
            proof {
                leaf.lemma_wf();
            }
            Rope::insert_into_leaf(leaf, text, clusters, pos)
        } else {
            proof {
                self.lemma_branch();
            }
            let (l, r) = self.into_children();
            let lgc: usize = l.cluster_count();
            proof {
                l.lemma_sound();
                r.lemma_sound();
                lemma_chars_before_split(l@, r@, pos as int);
                lemma_spliced_concat(l@, r@, added, pos as int);
                if pos < lgc {
                    lemma_insert_leaves_left(l.leaves(), r.leaves(), added, pos as int);
                } else {
                    lemma_insert_leaves_right(l.leaves(), r.leaves(), added, pos as int);
                }
            }
            if pos < lgc {
                let l2 = l.insert_node(text, clusters, pos);
                proof {
                    lemma_splice_left(l.text(), r.text(), text@, chars_before(l@, pos as int) as int);
                    if settled(wanted) {
                        lemma_settled_parts(spliced(l@, added, pos as int), r@);
                    }
                    l2.lemma_sound();
                    lemma_flatten_concat(l2@, r@);
                    lemma_text_has_clusters(l2@);
                }
                Rope::branch(l2, r).rebalance()
            } else {
                let r2 = r.insert_node(text, clusters, pos - lgc);
                proof {
                    lemma_splice_right(
                        l.text(),
                        r.text(),
                        text@,
                        chars_before(r@, pos - lgc) as int,
                    );
                    if settled(wanted) {
                        lemma_settled_parts(l@, spliced(r@, added, pos - lgc));
                    }
                    r2.lemma_sound();
                    lemma_flatten_concat(l@, r2@);
                    lemma_text_has_clusters(r2@);
                }
                Rope::branch(l, r2).rebalance()
            }
        }
    }

    /// Inserts text that is given as a run of pieces, one string each, before
    /// grapheme index `pos`.
    ///
    /// The leaf that holds `pos` takes the text if it has room for as many
    /// clusters as there are pieces.  If it has not, the pieces become a rope
    /// of their own, which is joined with what the leaf held before `pos` and
    /// what it held after.  Where the pieces are the clusters that the text
    /// settles into, they are the clusters put in.
    pub fn insert_graphemes_at_index(&mut self, clusters: &Vec<String>, pos: usize)
        requires
            old(self).wf(),
            pos <= old(self)@.len(),
            all_nonempty(cluster_views(clusters@)),
            old(self).text().len() + cluster_views(clusters@).flatten().len() <= usize::MAX,
        ensures
            final(self).wf(),
            final(self).text() == old(self).text().take(chars_before(old(self)@, pos as int) as int)
                + cluster_views(clusters@).flatten() + old(self).text().skip(
                chars_before(old(self)@, pos as int) as int,
            ),
            settled(spliced(old(self)@, cluster_views(clusters@), pos as int)) ==> final(self)@
                == spliced(old(self)@, cluster_views(clusters@), pos as int),
            !old(self).is_branch() && old(self)@.len() + clusters@.len() <= MAX_NODE_SIZE
                && grapheme_clusters(final(self).text()).len() <= MAX_NODE_SIZE ==> final(self)@
                == grapheme_clusters(final(self).text()),
            insert_fits(old(self).leaves(), cluster_views(clusters@), pos as int) ==> final(self).leaves()
                == leaves_after_insert(
                old(self).leaves(),
                cluster_views(clusters@),
                pos as int,
            ),
    {
        let text = concat_clusters(clusters);
        let mut this = Rope::new();
        core::mem::swap(self, &mut this);
        *self = this.insert_node(text.as_str(), clusters, pos);
    }

    /// Inserts the given text at the given grapheme index.
    pub fn insert_text_at_grapheme_index(&mut self, text: &str, pos: usize)
        requires
            old(self).wf(),
            pos <= old(self)@.len(),
            old(self).text().len() + text@.len() <= usize::MAX,
        ensures
            final(self).wf(),
            final(self).text() == old(self).text().take(chars_before(old(self)@, pos as int) as int)
                + text@ + old(self).text().skip(chars_before(old(self)@, pos as int) as int),
            settled(spliced(old(self)@, grapheme_clusters(text@), pos as int)) ==> final(self)@
                == spliced(old(self)@, grapheme_clusters(text@), pos as int),
            !old(self).is_branch() && old(self)@.len() + grapheme_clusters(text@).len()
                <= MAX_NODE_SIZE && grapheme_clusters(final(self).text()).len() <= MAX_NODE_SIZE
                ==> final(self)@ == grapheme_clusters(final(self).text()),
            insert_fits(old(self).leaves(), grapheme_clusters(text@), pos as int) ==> final(self).leaves()
                == leaves_after_insert(
                old(self).leaves(),
                grapheme_clusters(text@),
                pos as int,
            ),
    {
        let clusters = segment(text);
        let mut this = Rope::new();
        core::mem::swap(self, &mut this);
        *self = this.insert_node(text, &clusters, pos);
    }

    /// This node without the text of the clusters `pos_a..pos_b`.  Each child
    /// gives up the part of the range that falls in it; a child left empty is
    /// dropped, a branch left small is folded into a leaf, and what remains
    /// is rebalanced.
    fn remove_node(self, pos_a: usize, pos_b: usize) -> (res: Rope)
        requires
            self.wf(),
            pos_a <= pos_b <= self@.len(),
        ensures
            res.wf(),
            res.text() == self.text().take(chars_before(self@, pos_a as int) as int)
                + self.text().skip(chars_before(self@, pos_b as int) as int),
            settled(cut_out(self@, pos_a as int, pos_b as int)) ==> res@ == cut_out(
                self@,
                pos_a as int,
                pos_b as int,
            ),
            !self.is_branch() && grapheme_clusters(res.text()).len() <= MAX_NODE_SIZE ==> res@
                == grapheme_clusters(res.text()),
        decreases self.height(),
    {
        let ghost wanted = cut_out(self@, pos_a as int, pos_b as int);
        proof {
            self.lemma_sound();
        }
        if self.is_leaf() {
            let mut leaf = self.into_leaf();
            let ghost whole = leaf@;
            proof {
                leaf.lemma_wf();
            }
            leaf.remove(pos_a, pos_b);
            proof {
                leaf.lemma_wf();
                crate::model::lemma_cut_out_text(whole, pos_a as int, pos_b as int);
                if settled(wanted) {
                    lemma_settled_whole(wanted);
                }
            }
            Rope::split_if_too_large(leaf)
        } else {
            proof {
                self.lemma_branch();
            }
            let (l, r) = self.into_children();
            let lgc: usize = l.cluster_count();
            proof {
                l.lemma_sound();
                r.lemma_sound();
            }
            let a_l: usize = if pos_a < lgc { pos_a } else { lgc };
            let b_l: usize = if pos_b < lgc { pos_b } else { lgc };
            let a_r: usize = pos_a - a_l;
            let b_r: usize = pos_b - b_l;
            proof {
                lemma_chars_before_split(l@, r@, pos_a as int);
                lemma_chars_before_split(l@, r@, pos_b as int);
                lemma_chars_before_bounds(l@, a_l as int, b_l as int);
                lemma_chars_before_bounds(r@, a_r as int, b_r as int);
                lemma_cut_out_concat(l@, r@, pos_a as int, pos_b as int);
                if settled(wanted) {
                    lemma_settled_parts(
                        cut_out(l@, a_l as int, b_l as int),
                        cut_out(r@, a_r as int, b_r as int),
                    );
                }
            }
            let l2 = if pos_a < lgc {
                l.remove_node(a_l, b_l)
            } else {
                proof {
                    assert(cut_out(l@, a_l as int, b_l as int) =~= l@);
                    assert(l.text().take(l.text().len() as int) + l.text().skip(
                        l.text().len() as int,
                    ) =~= l.text());
                }
                l
            };
            let r2 = if pos_b > lgc {
                r.remove_node(a_r, b_r)
            } else {
                proof {
                    assert(cut_out(r@, a_r as int, b_r as int) =~= r@);
                    assert(r.text().take(0) + r.text().skip(0) =~= r.text());
                }
                r
            };
            proof {
                lemma_cut_text_concat(
                    l.text(),
                    r.text(),
                    chars_before(l@, a_l as int) as int,
                    chars_before(l@, b_l as int) as int,
                    chars_before(r@, a_r as int) as int,
                    chars_before(r@, b_r as int) as int,
                );
                l2.lemma_sound();
                r2.lemma_sound();
                lemma_flatten_concat(l2@, r2@);
            }
            if l2.cluster_count() == 0 {
                proof {
                    assert(l2@ + r2@ =~= r2@);
                    assert(l2.text() =~= Seq::<char>::empty());
                    assert(l2.text() + r2.text() =~= r2.text());
                }
                r2
            } else if r2.cluster_count() == 0 {
                proof {
                    assert(l2@ + r2@ =~= l2@);
                    assert(r2.text() =~= Seq::<char>::empty());
                    assert(l2.text() + r2.text() =~= l2.text());
                }
                l2
            } else {
                Rope::branch(l2, r2).merge_if_too_small()
            }
        }
    }

    /// Removes the text between grapheme indices `pos_a` and `pos_b`.
    pub fn remove_text_between_grapheme_indices(&mut self, pos_a: usize, pos_b: usize)
        requires
            old(self).wf(),
            pos_a <= pos_b <= old(self)@.len(),
        ensures
            final(self).wf(),
            final(self).text() == old(self).text().take(
                chars_before(old(self)@, pos_a as int) as int,
            ) + old(self).text().skip(chars_before(old(self)@, pos_b as int) as int),
            settled(cut_out(old(self)@, pos_a as int, pos_b as int)) ==> final(self)@ == cut_out(
                old(self)@,
                pos_a as int,
                pos_b as int,
            ),
            !old(self).is_branch() && grapheme_clusters(final(self).text()).len() <= MAX_NODE_SIZE
                ==> final(self)@ == grapheme_clusters(final(self).text()),
    {
        let mut this = Rope::new();
        core::mem::swap(self, &mut this);
        *self = this.remove_node(pos_a, pos_b);
    }

    /// Inserts the given text at the given char index, which must be a
    /// cluster boundary of the text in the rope.
    pub fn insert_text_at_char_index(&mut self, text: &str, pos: usize)
        requires
            old(self).wf(),
            pos <= old(self).text().len(),
            is_cluster_boundary(old(self)@, pos as int),
            old(self).text().len() + text@.len() <= usize::MAX,
        ensures
            final(self).wf(),
            final(self).text() == old(self).text().take(pos as int) + text@ + old(self).text().skip(
                pos as int,
            ),
            forall|i: int|
                0 <= i <= old(self)@.len() && #[trigger] chars_before(old(self)@, i) == pos
                    && settled(spliced(old(self)@, grapheme_clusters(text@), i)) ==> final(self)@
                    == spliced(old(self)@, grapheme_clusters(text@), i),
    {
        let i = self.char_index_to_grapheme_index(pos);
        proof {
            self.lemma_sound();
            assert forall|j: int|
                0 <= j <= self@.len() && #[trigger] chars_before(self@, j) == pos implies j
                == i by {
                lemma_boundary_cluster(self@, i as int, j, pos as int);
            }
        }
        self.insert_text_at_grapheme_index(text, i);
    }

    /// Removes the text between the given char indices, which must both be
    /// cluster boundaries of the text in the rope.
    pub fn remove_text_between_char_indices(&mut self, pos_a: usize, pos_b: usize)
        requires
            old(self).wf(),
            pos_a <= pos_b <= old(self).text().len(),
            is_cluster_boundary(old(self)@, pos_a as int),
            is_cluster_boundary(old(self)@, pos_b as int),
        ensures
            final(self).wf(),
            final(self).text() == old(self).text().take(pos_a as int) + old(self).text().skip(
                pos_b as int,
            ),
            forall|i: int, j: int|
                0 <= i <= old(self)@.len() && #[trigger] chars_before(old(self)@, i) == pos_a && 0
                    <= j <= old(self)@.len() && #[trigger] chars_before(old(self)@, j) == pos_b
                    && settled(cut_out(old(self)@, i, j)) ==> final(self)@ == cut_out(
                    old(self)@,
                    i,
                    j,
                ),
    {
        let a = self.char_index_to_grapheme_index(pos_a);
        let b = self.char_index_to_grapheme_index(pos_b);
        proof {
            self.lemma_sound();
            assert forall|j: int|
                0 <= j <= self@.len() && #[trigger] chars_before(self@, j) == pos_a implies j
                == a by {
                lemma_boundary_cluster(self@, a as int, j, pos_a as int);
            }
            assert forall|j: int|
                0 <= j <= self@.len() && #[trigger] chars_before(self@, j) == pos_b implies j
                == b by {
                lemma_boundary_cluster(self@, b as int, j, pos_b as int);
            }
            if a > b {
                lemma_chars_before_bounds(self@, b as int, a as int);
                lemma_boundary_cluster(self@, b as int, a as int, pos_b as int);
            }
        }
        self.remove_text_between_grapheme_indices(a, b);
    }

    /// Splits the rope in two at the given char index, which must be a
    /// cluster boundary of the text in the rope: the text before it stays in
    /// this rope, the text from it on is returned as a new rope.
    pub fn split_at_char_index(&mut self, pos: usize) -> (right: Rope)
        requires
            old(self).wf(),
            pos <= old(self).text().len(),
            is_cluster_boundary(old(self)@, pos as int),
        ensures
            final(self).wf(),
            right.wf(),
            final(self).text() == old(self).text().take(pos as int),
            right.text() == old(self).text().skip(pos as int),
            forall|i: int|
                0 <= i <= old(self)@.len() && #[trigger] chars_before(old(self)@, i) == pos
                    && settled(old(self)@) ==> {
                    &&& final(self)@ == old(self)@.take(i)
                    &&& right@ == old(self)@.skip(i)
                },
    {
        let i = self.char_index_to_grapheme_index(pos);
        proof {
            self.lemma_sound();
            assert forall|j: int|
                0 <= j <= self@.len() && #[trigger] chars_before(self@, j) == pos implies j
                == i by {
                lemma_boundary_cluster(self@, i as int, j, pos as int);
            }
        }
        self.split_at_grapheme_index(i)
    }
}

} // verus!
