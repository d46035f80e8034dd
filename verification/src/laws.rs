//! What holds between the operations of a rope, stated over its clusters.

use crate::model::{
    chars_before, cut_out, index_at_line_col, leaves_after_insert, lemma_chars_before_bounds,
    lemma_cut_out_spliced, lemma_leaf_of_offset, lemma_line_of_index, lemma_spliced_text,
    line_col_of, line_end, line_endings, line_start, spliced,
};
use crate::iter::RopeGraphemeIter;
use crate::rope::{Rope, MAX_NODE_SIZE};
use crate::slice::RopeSlice;
use crate::string_utils::{all_nonempty, grapheme_clusters};
use vstd::prelude::*;

verus! {

/// A well-formed rope reports the counts of the text it holds: its
/// clusters are those that the text of each leaf is cut into, leaf by leaf,
/// no cluster is empty, and there are no more line endings than clusters, no
/// more clusters than characters.
pub proof fn lemma_counts(rope: Rope)
    requires
        rope.wf(),
    ensures
        rope.counts_consistent(),
        rope@ == rope.leaves().flatten(),
        forall|k: int|
            0 <= k < rope.leaves().len() ==> (#[trigger] rope.leaves()[k]) == grapheme_clusters(
                rope.chunks()[k],
            ),
        all_nonempty(rope@),
        line_endings(rope@) <= rope@.len() <= rope.text().len() <= usize::MAX,
        rope.height() >= 1,
{
    rope.lemma_sound();
}

/// In a well-formed rope every leaf holds the grapheme clusters of its text,
/// no more than `MAX_NODE_SIZE` of them, and a leaf that is not the root
/// holds at least one.
pub proof fn lemma_leaf_bounds(rope: Rope, k: int)
    requires
        rope.wf(),
        0 <= k < rope.leaves().len(),
    ensures
        rope.leaves_bounded(),
        rope.leaves()[k] == grapheme_clusters(rope.leaves()[k].flatten()),
        rope.leaves()[k].len() <= MAX_NODE_SIZE,
        rope.leaves().len() > 1 ==> rope.leaves()[k].len() >= 1,
{
    rope.lemma_sound();
    if rope.is_branch() {
    } else {
        assert(rope.leaves().len() == 1);
    }
}

/// An insert that the leaf at its place has room for, and that fuses
/// nothing there, keeps every leaf as full as it was: where every leaf
/// below the root held at least `MIN_NODE_SIZE` clusters, it still does.
pub proof fn lemma_fitting_insert_keeps_leaves_filled(
    before: Rope,
    after: Rope,
    added: Seq<Seq<char>>,
    pos: int,
)
    requires
        before.wf(),
        before.leaves_filled(),
        0 <= pos <= before@.len(),
        after.leaves() == leaves_after_insert(before.leaves(), added, pos),
    ensures
        after.leaves_filled(),
        after.leaves().len() == before.leaves().len(),
{
    before.lemma_sound();
    lemma_leaf_of_offset(before.leaves(), pos);
}

/// 2 to the power `k`.
pub open spec fn two_to(k: nat) -> nat
    decreases k,
{
    if k == 0 {
        1
    } else {
        2 * two_to((k - 1) as nat)
    }
}

/// A larger exponent gives no smaller power.
proof fn lemma_two_to_monotone(i: nat, j: nat)
    requires
        i <= j,
    ensures
        two_to(i) <= two_to(j),
    decreases j,
{
    if i < j {
        lemma_two_to_monotone(i, (j - 1) as nat);
    }
}

/// Non-empty sequences, flattened, hold at least one element each.
proof fn lemma_count_le_flatten<A>(g: Seq<Seq<A>>)
    requires
        forall|k: int| 0 <= k < g.len() ==> (#[trigger] g[k]).len() >= 1,
    ensures
        g.len() <= g.flatten().len(),
    decreases g.len(),
{
    if g.len() > 0 {
        lemma_count_le_flatten(g.drop_first());
    }
}

/// The height of a well-formed rope grows with the logarithm of its size: a
/// rope of height `h` has at least 2 to the power `(h - 1) / 2` leaves, and
/// a rope of more than one leaf has no more leaves than clusters.
pub proof fn lemma_height_logarithmic(rope: Rope)
    requires
        rope.wf(),
    ensures
        two_to(((rope.height() - 1) / 2) as nat) <= rope.leaves().len(),
        rope.leaves().len() > 1 ==> rope.leaves().len() <= rope@.len(),
    decreases rope.height(),
{
    rope.lemma_sound();
    if rope.is_branch() {
        rope.lemma_branch();
        lemma_count_le_flatten(rope.leaves());
        let l = rope.left_child();
        let r = rope.right_child();
        l.lemma_sound();
        r.lemma_sound();
        lemma_height_logarithmic(l);
        lemma_height_logarithmic(r);
        let h = rope.height();
        if h >= 3 {
            let k = ((h - 3) / 2) as nat;
            lemma_two_to_monotone(k, ((l.height() - 1) / 2) as nat);
            lemma_two_to_monotone(k, ((r.height() - 1) / 2) as nat);
            assert(((h - 1) / 2) as nat == k + 1);
            assert(two_to(k + 1) == 2 * two_to(k));
        } else {
            assert(two_to(0) == 1);
        }
    } else {
        assert(two_to(0) == 1);
    }
}

/// The chunks of a rope, laid end to end, are its text.
pub proof fn lemma_chunks_spell_text(rope: Rope)
    requires
        rope.wf(),
    ensures
        rope.chunks().flatten() == rope.text(),
{
    rope.lemma_sound();
}

/// Inserting clusters before index `pos` and then removing as many clusters
/// from `pos` on gives back the clusters, and so the text, that were there.
pub proof fn lemma_insert_then_remove(
    before: Rope,
    inserted: Rope,
    removed: Rope,
    clusters: Seq<Seq<char>>,
    pos: int,
)
    requires
        0 <= pos <= before@.len(),
        inserted@ == spliced(before@, clusters, pos),
        removed@ == cut_out(inserted@, pos, pos + clusters.len()),
    ensures
        removed@ == before@,
        removed.text() == before.text(),
{
    lemma_cut_out_spliced(before@, clusters, pos);
}

/// Splitting a rope at index `pos` and appending the right part to the left
/// one gives back the clusters, and so the text, that were there.
pub proof fn lemma_split_then_append(before: Rope, left: Rope, right: Rope, joined: Rope, pos: int)
    requires
        0 <= pos <= before@.len(),
        left@ == before@.take(pos),
        right@ == before@.skip(pos),
        joined@ == left@ + right@,
    ensures
        joined@ == before@,
        joined.text() == before.text(),
{
    assert(before@.take(pos) + before@.skip(pos) =~= before@);
}

/// Inserting a text before cluster `pos` and then removing as many
/// clusters as the text was cut into gives back the text that was there,
/// where the clusters after the insert are those from before with those of
/// the text put in: where nothing fused.
pub proof fn lemma_insert_then_remove_text(
    before: Rope,
    inserted: Rope,
    removed: Rope,
    clusters: Seq<Seq<char>>,
    pos: int,
)
    requires
        0 <= pos <= before@.len(),
        inserted@ == spliced(before@, clusters, pos),
        removed.text() == inserted.text().take(chars_before(inserted@, pos) as int)
            + inserted.text().skip(chars_before(inserted@, pos + clusters.len()) as int),
    ensures
        removed.text() == before.text(),
{
    let s = inserted@;
    let c = chars_before(before@, pos) as int;
    lemma_spliced_text(before@, clusters, pos);
    lemma_chars_before_bounds(before@, pos, pos);
    assert(s.take(pos) =~= before@.take(pos));
    assert(s.take(pos + clusters.len()) =~= before@.take(pos) + clusters);
    vstd::seq_lib::lemma_flatten_concat(before@.take(pos), clusters);
    let t = clusters.flatten();
    let whole = before.text();
    assert((whole.take(c) + t + whole.skip(c)).take(c) =~= whole.take(c));
    assert((whole.take(c) + t + whole.skip(c)).skip(c + t.len()) =~= whole.skip(c));
    assert(whole.take(c) + whole.skip(c) =~= whole);
}

/// Splitting a rope at cluster `pos` and appending the right part to the
/// left one gives back the text that was there, whatever fuses.
pub proof fn lemma_split_then_append_text(
    before: Rope,
    left: Rope,
    right: Rope,
    joined: Rope,
    pos: int,
)
    requires
        0 <= pos <= before@.len(),
        left.text() == before.text().take(chars_before(before@, pos) as int),
        right.text() == before.text().skip(chars_before(before@, pos) as int),
        joined.text() == left.text() + right.text(),
    ensures
        joined.text() == before.text(),
{
    lemma_chars_before_bounds(before@, pos, pos);
    let c = chars_before(before@, pos) as int;
    assert(before.text().take(c) + before.text().skip(c) =~= before.text());
}

/// Going from a grapheme index to its line and column and back gives the
/// index again, for every index from 0 to the end of the text.
pub proof fn lemma_line_col_round_trip(g: Seq<Seq<char>>, i: int)
    requires
        0 <= i <= g.len(),
    ensures
        index_at_line_col(g, line_col_of(g, i).0, line_col_of(g, i).1) == i,
{
    lemma_line_of_index(g, i);
}

/// A column at or past the end of its line gives the end of the line, and a
/// line past the last gives the end of the text.
pub proof fn lemma_line_col_clamps(g: Seq<Seq<char>>, line: int, col: int)
    requires
        0 <= line,
        0 <= col,
    ensures
        line > line_endings(g) ==> index_at_line_col(g, line, col) == g.len(),
        line <= line_endings(g) && col >= line_end(g, line) - line_start(g, line)
            ==> index_at_line_col(g, line, col) == line_end(g, line),
        line <= line_endings(g) ==> line_start(g, line) <= index_at_line_col(g, line, col)
            <= line_end(g, line) <= g.len(),
{
    if line <= line_endings(g) {
        crate::model::lemma_line_start_exists(g, line);
        lemma_line_of_index(g, line_start(g, line));
        crate::model::lemma_line_endings_monotone(g, line_start(g, line), line_start(g, line));
        if line < line_endings(g) {
            crate::model::lemma_line_start_exists(g, line + 1);
        }
    }
}

/// Walking the clusters from `pos_a` up to `pos_b` and slicing the rope
/// there give the same clusters, `pos_b - pos_a` of them.
pub proof fn lemma_walk_equals_slice(
    rope: Rope,
    walk: RopeGraphemeIter,
    slice: RopeSlice,
    pos_a: int,
    pos_b: int,
)
    requires
        0 <= pos_a <= pos_b <= rope@.len(),
        walk.remaining() == rope@.subrange(pos_a, pos_b),
        slice.rope() == rope,
        slice.start() == pos_a,
        slice.end() == pos_b,
    ensures
        walk.remaining() == slice@,
        walk.remaining().len() == pos_b - pos_a,
        slice@.len() == pos_b - pos_a,
{
}

} // verus!
