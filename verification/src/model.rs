//! The vocabulary of the contracts: a text is a sequence of grapheme
//! clusters, each a non-empty sequence of characters, and every measure the
//! rope reports is a function of that sequence.

use crate::rope::MAX_NODE_SIZE;
use crate::string_utils::{all_nonempty, grapheme_clusters, is_line_ending_spec};
use vstd::prelude::*;
use vstd::seq_lib::lemma_flatten_concat;

verus! {

/// How many of the clusters in `g` end a line.
pub open spec fn line_endings(g: Seq<Seq<char>>) -> nat
    decreases g.len(),
{
    if g.len() == 0 {
        0
    } else {
        line_endings(g.drop_last()) + if is_line_ending_spec(g.last()) {
            1nat
        } else {
            0nat
        }
    }
}

/// How many characters the first `i` clusters of `g` hold: the character
/// index at which cluster `i` starts.
pub open spec fn chars_before(g: Seq<Seq<char>>, i: int) -> nat {
    g.take(i).flatten().len()
}

/// Character `pos` of the text lies in cluster `i` of `g`.
pub open spec fn holds_char(g: Seq<Seq<char>>, i: int, pos: int) -> bool {
    0 <= i < g.len() && chars_before(g, i) <= pos < chars_before(g, i + 1)
}

/// The line and the column of grapheme index `pos` in `g`; an index past
/// the end counts as the end.
pub open spec fn line_col_of(g: Seq<Seq<char>>, pos: int) -> (int, int) {
    let p = if pos <= g.len() { pos } else { g.len() as int };
    let line = line_endings(g.take(p)) as int;
    (line, p - line_start(g, line))
}

/// The grapheme index of column `col` on line `line` of `g`.  A column past
/// the end of the line counts as the end of the line, a line past the last as
/// the end of the text.
pub open spec fn index_at_line_col(g: Seq<Seq<char>>, line: int, col: int) -> int {
    if line > line_endings(g) {
        g.len() as int
    } else if line_start(g, line) + col <= line_end(g, line) {
        line_start(g, line) + col
    } else {
        line_end(g, line)
    }
}

/// Character index `pos` is where a cluster of `g` starts, or the end of
/// the text.
pub open spec fn is_cluster_boundary(g: Seq<Seq<char>>, pos: int) -> bool {
    exists|i: int| 0 <= i <= g.len() && chars_before(g, i) == pos
}

/// Every run of consecutive clusters of `g`, taken alone as a text, is cut
/// into those same clusters: no two neighbours fuse, and none falls apart,
/// wherever the text is cut between clusters.
#[verifier::opaque]
pub open spec fn settled(g: Seq<Seq<char>>) -> bool {
    forall|i: int, j: int|
        0 <= i <= j <= g.len() ==> grapheme_clusters((#[trigger] g.subrange(i, j)).flatten())
            == g.subrange(i, j)
}

/// The index of the leaf in which cluster `pos` is looked for: the first
/// leaf whose clusters reach past `pos`, or the last leaf where none does.
pub open spec fn leaf_of(leaves: Seq<Seq<Seq<char>>>, pos: int) -> int
    decreases leaves.len(),
{
    if leaves.len() <= 1 || pos < leaves[0].len() {
        0
    } else {
        1 + leaf_of(leaves.drop_first(), pos - leaves[0].len())
    }
}

/// How many clusters the leaves before leaf `k` hold: the grapheme index at
/// which leaf `k` starts.
pub open spec fn leaf_start(leaves: Seq<Seq<Seq<char>>>, k: int) -> int {
    leaves.take(k).flatten().len() as int
}

/// The leaf that holds `pos` as it would be with the clusters `added` put in
/// before `pos`.
pub open spec fn leaf_with(leaves: Seq<Seq<Seq<char>>>, added: Seq<Seq<char>>, pos: int) -> Seq<
    Seq<char>,
> {
    let k = leaf_of(leaves, pos);
    spliced(leaves[k], added, pos - leaf_start(leaves, k))
}

/// The leaf that holds `pos` has room for the clusters `added`, and with
/// them put in before `pos` its text is cut into just those clusters: none
/// fuses with a neighbour.
pub open spec fn insert_fits(leaves: Seq<Seq<Seq<char>>>, added: Seq<Seq<char>>, pos: int) -> bool {
    &&& leaves[leaf_of(leaves, pos)].len() + added.len() <= MAX_NODE_SIZE
    &&& grapheme_clusters(leaf_with(leaves, added, pos).flatten()) == leaf_with(leaves, added, pos)
}

/// The leaves after an insert that fits: the leaf that holds `pos` with the
/// clusters put in, the other leaves as they were.
pub open spec fn leaves_after_insert(
    leaves: Seq<Seq<Seq<char>>>,
    added: Seq<Seq<char>>,
    pos: int,
) -> Seq<Seq<Seq<char>>> {
    leaves.update(leaf_of(leaves, pos), leaf_with(leaves, added, pos))
}

/// `g` with the clusters `t` put in before index `p`.
pub open spec fn spliced(g: Seq<Seq<char>>, t: Seq<Seq<char>>, p: int) -> Seq<Seq<char>> {
    g.take(p) + t + g.skip(p)
}

/// `g` without the clusters at indices `a..b`.
pub open spec fn cut_out(g: Seq<Seq<char>>, a: int, b: int) -> Seq<Seq<char>> {
    g.take(a) + g.skip(b)
}

/// `i` is where line `line` starts in `g`: exactly `line` line endings come
/// before `i`, and `i` is either the start of the text or follows one.
pub open spec fn is_line_start(g: Seq<Seq<char>>, line: int, i: int) -> bool {
    &&& 0 <= i <= g.len()
    &&& line_endings(g.take(i)) == line
    &&& (i == 0 || is_line_ending_spec(g[i - 1]))
}

/// Where line `line` starts in `g`, for `0 <= line <= line_endings(g)`.
pub open spec fn line_start(g: Seq<Seq<char>>, line: int) -> int {
    choose|i: int| is_line_start(g, line, i)
}

/// Where line `line` stops in `g`: at the line ending that closes it, or at
/// the end of the text for the last line.
pub open spec fn line_end(g: Seq<Seq<char>>, line: int) -> int {
    if line < line_endings(g) {
        line_start(g, line + 1) - 1
    } else {
        g.len() as int
    }
}

/// The line endings of two texts laid end to end are those of the one and
/// those of the other.
pub proof fn lemma_line_endings_concat(a: Seq<Seq<char>>, b: Seq<Seq<char>>)
    ensures
        line_endings(a + b) == line_endings(a) + line_endings(b),
    decreases b.len(),
{
    if b.len() == 0 {
        assert(a + b =~= a);
    } else {
        assert((a + b).drop_last() =~= a + b.drop_last());
        assert((a + b).last() == b.last());
        lemma_line_endings_concat(a, b.drop_last());
    }
}

/// No more clusters end a line than there are clusters.
pub proof fn lemma_line_endings_bound(g: Seq<Seq<char>>)
    ensures
        line_endings(g) <= g.len(),
    decreases g.len(),
{
    if g.len() > 0 {
        lemma_line_endings_bound(g.drop_last());
    }
}

/// One more cluster adds one line ending if it is one, none if it is not.
pub proof fn lemma_line_endings_step(g: Seq<Seq<char>>, i: int)
    requires
        0 <= i < g.len(),
    ensures
        line_endings(g.take(i + 1)) == line_endings(g.take(i)) + if is_line_ending_spec(g[i]) {
            1nat
        } else {
            0nat
        },
{
    assert(g.take(i + 1).drop_last() =~= g.take(i));
}

/// A longer prefix holds no fewer line endings, and none holds more than
/// the whole text.
pub proof fn lemma_line_endings_monotone(g: Seq<Seq<char>>, i: int, j: int)
    requires
        0 <= i <= j <= g.len(),
    ensures
        line_endings(g.take(i)) <= line_endings(g.take(j)),
        line_endings(g.take(j)) <= line_endings(g),
{
    assert(g.take(j) =~= g.take(i) + g.subrange(i, j));
    lemma_line_endings_concat(g.take(i), g.subrange(i, j));
    assert(g =~= g.take(j) + g.skip(j));
    lemma_line_endings_concat(g.take(j), g.skip(j));
}

/// A line starts in one place only.
pub proof fn lemma_line_start_unique(g: Seq<Seq<char>>, line: int, i: int, j: int)
    requires
        is_line_start(g, line, i),
        is_line_start(g, line, j),
    ensures
        i == j,
{
    if i < j {
        lemma_line_endings_step(g, j - 1);
        lemma_line_endings_monotone(g, i, j - 1);
    } else if j < i {
        lemma_line_endings_step(g, i - 1);
        lemma_line_endings_monotone(g, j, i - 1);
    }
}

/// A place where a line starts is the start of that line.
pub proof fn lemma_line_start_is(g: Seq<Seq<char>>, line: int, i: int)
    requires
        is_line_start(g, line, i),
    ensures
        line_start(g, line) == i,
{
    lemma_line_start_unique(g, line, i, line_start(g, line));
}

/// Every line up to the last has a start.
pub proof fn lemma_line_start_exists(g: Seq<Seq<char>>, line: int)
    requires
        0 <= line <= line_endings(g),
    ensures
        is_line_start(g, line, line_start(g, line)),
    decreases g.len(),
{
    if line == 0 {
        assert(g.take(0) =~= Seq::<Seq<char>>::empty());
        assert(is_line_start(g, line, 0));
    } else if line <= line_endings(g.drop_last()) {
        let h = g.drop_last();
        lemma_line_start_exists(h, line);
        assert(g =~= h + seq![g.last()]);
        lemma_line_start_in_left(h, seq![g.last()], line, line_start(h, line));
    } else {
        assert(g.take(g.len() as int) =~= g);
        assert(is_line_start(g, line, g.len() as int));
    }
}

/// An index lies on the line that starts at or before it and stops at or
/// after it.
pub proof fn lemma_line_of_index(g: Seq<Seq<char>>, i: int)
    requires
        0 <= i <= g.len(),
    ensures
        ({
            let line = line_endings(g.take(i)) as int;
            &&& line <= line_endings(g)
            &&& is_line_start(g, line, line_start(g, line))
            &&& line_start(g, line) <= i <= line_end(g, line)
        }),
{
    let line = line_endings(g.take(i)) as int;
    lemma_line_endings_monotone(g, i, i);
    lemma_line_start_exists(g, line);
    let s = line_start(g, line);
    if s > i {
        lemma_line_endings_step(g, s - 1);
        lemma_line_endings_monotone(g, i, s - 1);
    }
    if line < line_endings(g) {
        lemma_line_start_exists(g, line + 1);
        let t = line_start(g, line + 1);
        if t <= i {
            lemma_line_endings_monotone(g, t, i);
        }
    }
}

/// A line that starts in the first of two texts starts at the same place
/// in the two laid end to end.
pub proof fn lemma_line_start_in_left(a: Seq<Seq<char>>, b: Seq<Seq<char>>, line: int, i: int)
    requires
        is_line_start(a, line, i),
    ensures
        is_line_start(a + b, line, i),
{
    assert((a + b).take(i) =~= a.take(i));
}

/// A line that starts in the second of two texts starts, in the two laid
/// end to end, further on by the length of the first, and its number is
/// larger by the line endings of the first.
pub proof fn lemma_line_start_in_right(a: Seq<Seq<char>>, b: Seq<Seq<char>>, line: int, i: int)
    requires
        is_line_start(b, line, i),
        line >= 1,
    ensures
        is_line_start(a + b, line_endings(a) + line, a.len() + i),
{
    assert((a + b).take(a.len() + i) =~= a + b.take(i));
    lemma_line_endings_concat(a, b.take(i));
    assert(b.take(0) =~= Seq::<Seq<char>>::empty());
}

/// Cluster `i + 1` starts where cluster `i` ends.
pub proof fn lemma_chars_before_step(g: Seq<Seq<char>>, i: int)
    requires
        0 <= i < g.len(),
    ensures
        chars_before(g, i + 1) == chars_before(g, i) + g[i].len(),
{
    assert(g.take(i + 1) =~= g.take(i).push(g[i]));
    g.take(i).lemma_flatten_push(g[i]);
}

/// The characters before a cluster grow with its index, from 0 to the
/// length of the text, and cut the text where they cut the clusters.
pub proof fn lemma_chars_before_bounds(g: Seq<Seq<char>>, i: int, j: int)
    requires
        0 <= i <= j <= g.len(),
    ensures
        chars_before(g, 0) == 0,
        chars_before(g, i) <= chars_before(g, j) <= chars_before(g, g.len() as int),
        chars_before(g, g.len() as int) == g.flatten().len(),
        g.flatten().take(chars_before(g, i) as int) == g.take(i).flatten(),
        g.flatten().skip(chars_before(g, i) as int) == g.skip(i).flatten(),
{
    assert(g.take(0) =~= Seq::<Seq<char>>::empty());
    assert(g.take(g.len() as int) =~= g);
    assert(g.take(j) =~= g.take(i) + g.subrange(i, j));
    lemma_flatten_concat(g.take(i), g.subrange(i, j));
    lemma_flatten_split(g, j);
    lemma_flatten_split(g, i);
}

/// A character lies in one cluster only.
pub proof fn lemma_holds_char_unique(g: Seq<Seq<char>>, i: int, j: int, pos: int)
    requires
        holds_char(g, i, pos),
        holds_char(g, j, pos),
    ensures
        i == j,
{
    if i < j {
        lemma_chars_before_bounds(g, i + 1, j);
    } else if j < i {
        lemma_chars_before_bounds(g, j + 1, i);
    }
}

/// The characters before a cluster of two texts laid end to end.
pub proof fn lemma_chars_before_concat(a: Seq<Seq<char>>, b: Seq<Seq<char>>, i: int)
    requires
        0 <= i <= a.len() + b.len(),
    ensures
        i <= a.len() ==> chars_before(a + b, i) == chars_before(a, i),
        i >= a.len() ==> chars_before(a + b, i) == a.flatten().len() + chars_before(
            b,
            i - a.len(),
        ),
{
    if i <= a.len() {
        assert((a + b).take(i) =~= a.take(i));
    }
    if i >= a.len() {
        assert((a + b).take(i) =~= a + b.take(i - a.len()));
        lemma_flatten_concat(a, b.take(i - a.len()));
    }
}

/// A cluster boundary at character `pos` is the start of the cluster that
/// holds `pos`, or the end of the text.
pub proof fn lemma_boundary_cluster(g: Seq<Seq<char>>, i: int, j: int, pos: int)
    requires
        all_nonempty(g),
        0 <= j <= g.len(),
        chars_before(g, j) == pos,
        0 <= i <= g.len(),
        pos < g.flatten().len() ==> holds_char(g, i, pos),
        pos == g.flatten().len() ==> i == g.len(),
    ensures
        i == j,
{
    lemma_chars_before_bounds(g, j, j);
    if j < g.len() {
        lemma_chars_before_step(g, j);
        lemma_chars_before_bounds(g, j + 1, j + 1);
        assert(holds_char(g, j, pos));
        lemma_holds_char_unique(g, i, j, pos);
    }
}

/// The text after a splice, in characters.
pub proof fn lemma_spliced_text(g: Seq<Seq<char>>, t: Seq<Seq<char>>, p: int)
    requires
        0 <= p <= g.len(),
    ensures
        spliced(g, t, p).flatten() == g.flatten().take(chars_before(g, p) as int) + t.flatten()
            + g.flatten().skip(chars_before(g, p) as int),
{
    lemma_chars_before_bounds(g, p, p);
    lemma_flatten_concat(g.take(p), t);
    lemma_flatten_concat(g.take(p) + t, g.skip(p));
}

/// The text after a cut, in characters.
pub proof fn lemma_cut_out_text(g: Seq<Seq<char>>, a: int, b: int)
    requires
        0 <= a <= b <= g.len(),
    ensures
        cut_out(g, a, b).flatten() == g.flatten().take(chars_before(g, a) as int)
            + g.flatten().skip(chars_before(g, b) as int),
{
    lemma_chars_before_bounds(g, a, b);
    lemma_chars_before_bounds(g, b, b);
    lemma_flatten_concat(g.take(a), g.skip(b));
}

/// The text of a range of clusters is the range of the text between the
/// characters at which the two clusters start.
pub proof fn lemma_subrange_text(g: Seq<Seq<char>>, a: int, b: int)
    requires
        0 <= a <= b <= g.len(),
    ensures
        chars_before(g, a) <= chars_before(g, b) <= g.flatten().len(),
        g.subrange(a, b).flatten() == g.flatten().subrange(
            chars_before(g, a) as int,
            chars_before(g, b) as int,
        ),
{
    lemma_chars_before_bounds(g, a, b);
    lemma_chars_before_bounds(g, b, b);
    assert(g.take(b) =~= g.take(a) + g.subrange(a, b));
    lemma_flatten_concat(g.take(a), g.subrange(a, b));
    let head = g.take(a).flatten();
    let mid = g.subrange(a, b).flatten();
    assert(g.flatten().take(chars_before(g, b) as int) == head + mid);
    assert(g.flatten().subrange(chars_before(g, a) as int, chars_before(g, b) as int) =~= (head
        + mid).skip(head.len() as int));
    assert((head + mid).skip(head.len() as int) =~= mid);
}

/// A run of settled clusters is settled.
pub proof fn lemma_settled_subrange(g: Seq<Seq<char>>, a: int, b: int)
    requires
        settled(g),
        0 <= a <= b <= g.len(),
    ensures
        settled(g.subrange(a, b)),
        grapheme_clusters(g.subrange(a, b).flatten()) == g.subrange(a, b),
{
    reveal(settled);
    let h = g.subrange(a, b);
    assert forall|i: int, j: int| 0 <= i <= j <= h.len() implies grapheme_clusters(
        (#[trigger] h.subrange(i, j)).flatten(),
    ) == h.subrange(i, j) by {
        assert(h.subrange(i, j) =~= g.subrange(a + i, a + j));
    }
}

/// The two parts of settled clusters are settled.
pub proof fn lemma_settled_parts(a: Seq<Seq<char>>, b: Seq<Seq<char>>)
    requires
        settled(a + b),
    ensures
        settled(a),
        settled(b),
        grapheme_clusters(a.flatten()) == a,
        grapheme_clusters(b.flatten()) == b,
{
    let g = a + b;
    assert(g.subrange(0, a.len() as int) =~= a);
    assert(g.subrange(a.len() as int, g.len() as int) =~= b);
    lemma_settled_subrange(g, 0, a.len() as int);
    lemma_settled_subrange(g, a.len() as int, g.len() as int);
}

/// Among non-empty clusters a later cluster starts at a later character.
pub proof fn lemma_chars_before_rising(g: Seq<Seq<char>>, i: int, j: int)
    requires
        all_nonempty(g),
        0 <= i < j <= g.len(),
    ensures
        chars_before(g, i) < chars_before(g, j),
    decreases j - i,
{
    lemma_chars_before_step(g, j - 1);
    if i < j - 1 {
        lemma_chars_before_rising(g, i, j - 1);
    }
}

/// Non-empty clusters without characters are no clusters at all.
pub proof fn lemma_no_text_no_clusters(g: Seq<Seq<char>>)
    requires
        all_nonempty(g),
        g.flatten().len() == 0,
    ensures
        g.len() == 0,
{
    lemma_flatten_len_ge_count(g);
}

/// Cutting a range out of two texts laid end to end, in characters: where
/// the range reaches into the second text it takes the rest of the first,
/// and where it stops short of the end of the first it leaves the second
/// whole.
pub proof fn lemma_cut_text_concat(
    lt: Seq<char>,
    rt: Seq<char>,
    la: int,
    lb: int,
    ra: int,
    rb: int,
)
    requires
        0 <= la <= lb <= lt.len(),
        0 <= ra <= rb <= rt.len(),
        ra > 0 ==> la == lt.len(),
        lb < lt.len() ==> rb == 0,
    ensures
        (lt.take(la) + lt.skip(lb)) + (rt.take(ra) + rt.skip(rb)) == (lt + rt).take(la + ra) + (lt
            + rt).skip(lb + rb),
{
    assert((lt.take(la) + lt.skip(lb)) + (rt.take(ra) + rt.skip(rb)) =~= (lt + rt).take(la + ra)
        + (lt + rt).skip(lb + rb));
}

/// The characters before the two ends of a range in two texts laid end to
/// end, from those before the part of the range that falls in each.
pub proof fn lemma_chars_before_split(l: Seq<Seq<char>>, r: Seq<Seq<char>>, pos: int)
    requires
        0 <= pos <= l.len() + r.len(),
    ensures
        ({
            let in_l = if pos < l.len() { pos } else { l.len() as int };
            &&& chars_before(l + r, pos) == chars_before(l, in_l) + chars_before(r, pos - in_l)
            &&& chars_before(l, in_l) <= l.flatten().len()
            &&& chars_before(r, pos - in_l) <= r.flatten().len()
            &&& pos >= l.len() ==> chars_before(l, in_l) == l.flatten().len()
            &&& pos <= l.len() ==> chars_before(r, pos - in_l) == 0
        }),
{
    let in_l = if pos < l.len() { pos } else { l.len() as int };
    lemma_chars_before_concat(l, r, pos);
    lemma_chars_before_bounds(l, in_l, l.len() as int);
    lemma_chars_before_bounds(r, pos - in_l, r.len() as int);
}

/// Splicing into the first of two texts laid end to end is splicing into
/// the whole at the same place.
pub proof fn lemma_splice_left(lt: Seq<char>, rt: Seq<char>, t: Seq<char>, c: int)
    requires
        0 <= c <= lt.len(),
    ensures
        (lt.take(c) + t + lt.skip(c)) + rt == (lt + rt).take(c) + t + (lt + rt).skip(c),
        (lt + rt).take(c) == lt.take(c),
        (lt + rt).skip(c) == lt.skip(c) + rt,
{
    assert((lt + rt).take(c) =~= lt.take(c));
    assert((lt + rt).skip(c) =~= lt.skip(c) + rt);
    assert((lt.take(c) + t + lt.skip(c)) + rt =~= (lt + rt).take(c) + t + (lt + rt).skip(c));
}

/// Splicing into the second of two texts laid end to end is splicing into
/// the whole, further on by the length of the first.
pub proof fn lemma_splice_right(lt: Seq<char>, rt: Seq<char>, t: Seq<char>, c: int)
    requires
        0 <= c <= rt.len(),
    ensures
        lt + (rt.take(c) + t + rt.skip(c)) == (lt + rt).take(lt.len() + c) + t + (lt + rt).skip(
            lt.len() + c,
        ),
        (lt + rt).take(lt.len() + c) == lt + rt.take(c),
        (lt + rt).skip(lt.len() + c) == rt.skip(c),
{
    assert((lt + rt).take(lt.len() + c) =~= lt + rt.take(c));
    assert((lt + rt).skip(lt.len() + c) =~= rt.skip(c));
    assert(lt + (rt.take(c) + t + rt.skip(c)) =~= (lt + rt).take(lt.len() + c) + t + (lt
        + rt).skip(lt.len() + c));
}

/// Putting clusters into the first of two runs laid end to end is putting
/// them into the whole; so for the second, further on.
pub proof fn lemma_spliced_concat(l: Seq<Seq<char>>, r: Seq<Seq<char>>, t: Seq<Seq<char>>, pos: int)
    requires
        0 <= pos <= l.len() + r.len(),
    ensures
        pos <= l.len() ==> spliced(l + r, t, pos) == spliced(l, t, pos) + r,
        pos >= l.len() ==> spliced(l + r, t, pos) == l + spliced(r, t, pos - l.len()),
{
    if pos <= l.len() {
        assert((l + r).take(pos) =~= l.take(pos));
        assert((l + r).skip(pos) =~= l.skip(pos) + r);
        assert(spliced(l + r, t, pos) =~= spliced(l, t, pos) + r);
    }
    if pos >= l.len() {
        assert((l + r).take(pos) =~= l + r.take(pos - l.len()));
        assert((l + r).skip(pos) =~= r.skip(pos - l.len()));
        assert(spliced(l + r, t, pos) =~= l + spliced(r, t, pos - l.len()));
    }
}

/// Settled clusters are the clusters of their text.
pub proof fn lemma_settled_whole(g: Seq<Seq<char>>)
    requires
        settled(g),
    ensures
        grapheme_clusters(g.flatten()) == g,
{
    lemma_settled_subrange(g, 0, g.len() as int);
    assert(g.subrange(0, g.len() as int) =~= g);
}

/// Non-empty clusters with text are at least one cluster.
pub proof fn lemma_text_has_clusters(g: Seq<Seq<char>>)
    requires
        g.flatten().len() > 0,
    ensures
        g.len() > 0,
{
    if g.len() == 0 {
        assert(g.flatten() =~= Seq::<char>::empty());
    }
}

/// The leaf of a position is one of the leaves.
pub proof fn lemma_leaf_of_bounds(leaves: Seq<Seq<Seq<char>>>, pos: int)
    requires
        leaves.len() >= 1,
    ensures
        0 <= leaf_of(leaves, pos) < leaves.len(),
    decreases leaves.len(),
{
    if !(leaves.len() <= 1 || pos < leaves[0].len()) {
        lemma_leaf_of_bounds(leaves.drop_first(), pos - leaves[0].len());
    }
}

/// In two runs of leaves laid end to end, a position that lies in the first
/// run has its leaf there, and that leaf starts where it started.
pub proof fn lemma_leaf_of_left(a: Seq<Seq<Seq<char>>>, b: Seq<Seq<Seq<char>>>, pos: int)
    requires
        a.len() >= 1,
        b.len() >= 1,
        pos < a.flatten().len(),
    ensures
        ({
            let k = leaf_of(a, pos);
            &&& 0 <= k < a.len()
            &&& leaf_of(a + b, pos) == k
            &&& (a + b)[k] == a[k]
            &&& leaf_start(a + b, k) == leaf_start(a, k)
        }),
    decreases a.len(),
{
    lemma_leaf_of_bounds(a, pos);
    let k = leaf_of(a, pos);
    assert((a + b).take(k) =~= a.take(k));
    if a.len() == 1 {
        a.lemma_flatten_one_element();
    } else if pos < a[0].len() {
    } else {
        assert((a + b).drop_first() =~= a.drop_first() + b);
        assert(a.flatten() == a[0] + a.drop_first().flatten());
        lemma_leaf_of_left(a.drop_first(), b, pos - a[0].len());
    }
}

/// In two runs of leaves laid end to end, a position at or past the end of
/// the first run has its leaf in the second, and that leaf starts further on
/// by what the first run holds.
pub proof fn lemma_leaf_of_right(a: Seq<Seq<Seq<char>>>, b: Seq<Seq<Seq<char>>>, pos: int)
    requires
        a.len() >= 1,
        b.len() >= 1,
        pos >= a.flatten().len(),
    ensures
        ({
            let k = leaf_of(b, pos - a.flatten().len());
            &&& 0 <= k < b.len()
            &&& leaf_of(a + b, pos) == a.len() + k
            &&& (a + b)[a.len() + k] == b[k]
            &&& leaf_start(a + b, a.len() + k) == a.flatten().len() + leaf_start(b, k)
        }),
    decreases a.len(),
{
    let k = leaf_of(b, pos - a.flatten().len());
    lemma_leaf_of_bounds(b, pos - a.flatten().len());
    assert((a + b).take(a.len() + k) =~= a + b.take(k));
    lemma_flatten_concat(a, b.take(k));
    assert((a + b).drop_first() =~= a.drop_first() + b);
    assert(a.flatten() == a[0] + a.drop_first().flatten());
    if a.len() == 1 {
        assert(a.drop_first() + b =~= b);
        assert(a.drop_first().flatten() =~= Seq::<Seq<char>>::empty());
    } else {
        lemma_leaf_of_right(a.drop_first(), b, pos - a[0].len());
    }
}

/// An insert into the first of two runs of leaves laid end to end is the
/// insert into that run, and leaves the second run as it was.
pub proof fn lemma_insert_leaves_left(
    a: Seq<Seq<Seq<char>>>,
    b: Seq<Seq<Seq<char>>>,
    added: Seq<Seq<char>>,
    pos: int,
)
    requires
        a.len() >= 1,
        b.len() >= 1,
        pos < a.flatten().len(),
    ensures
        insert_fits(a + b, added, pos) == insert_fits(a, added, pos),
        leaves_after_insert(a + b, added, pos) == leaves_after_insert(a, added, pos) + b,
{
    lemma_leaf_of_left(a, b, pos);
    assert(leaves_after_insert(a + b, added, pos) =~= leaves_after_insert(a, added, pos) + b);
}

/// An insert into the second of two runs of leaves laid end to end is the
/// insert into that run, and leaves the first run as it was.
pub proof fn lemma_insert_leaves_right(
    a: Seq<Seq<Seq<char>>>,
    b: Seq<Seq<Seq<char>>>,
    added: Seq<Seq<char>>,
    pos: int,
)
    requires
        a.len() >= 1,
        b.len() >= 1,
        pos >= a.flatten().len(),
    ensures
        insert_fits(a + b, added, pos) == insert_fits(b, added, pos - a.flatten().len()),
        leaves_after_insert(a + b, added, pos) == a + leaves_after_insert(
            b,
            added,
            pos - a.flatten().len(),
        ),
{
    lemma_leaf_of_right(a, b, pos);
    assert(leaves_after_insert(a + b, added, pos) =~= a + leaves_after_insert(
        b,
        added,
        pos - a.flatten().len(),
    ));
}

/// A position in the text lies in its leaf, or at the end of it.
pub proof fn lemma_leaf_of_offset(leaves: Seq<Seq<Seq<char>>>, pos: int)
    requires
        leaves.len() >= 1,
        0 <= pos <= leaves.flatten().len(),
    ensures
        ({
            let k = leaf_of(leaves, pos);
            &&& 0 <= k < leaves.len()
            &&& 0 <= pos - leaf_start(leaves, k) <= leaves[k].len()
        }),
    decreases leaves.len(),
{
    lemma_leaf_of_bounds(leaves, pos);
    assert(leaves.take(0).flatten() =~= Seq::<Seq<char>>::empty());
    assert(leaves.flatten() == leaves[0] + leaves.drop_first().flatten());
    if leaves.len() <= 1 {
        assert(leaves.drop_first().flatten() =~= Seq::<Seq<char>>::empty());
    } else if pos < leaves[0].len() {
    } else {
        let rest = leaves.drop_first();
        let k = leaf_of(rest, pos - leaves[0].len());
        lemma_leaf_of_offset(rest, pos - leaves[0].len());
        assert(leaves.take(1 + k) =~= seq![leaves[0]] + rest.take(k));
        lemma_flatten_concat(seq![leaves[0]], rest.take(k));
        seq![leaves[0]].lemma_flatten_one_element();
    }
}

/// Non-empty clusters hold at least one character each.
pub proof fn lemma_flatten_len_ge_count(g: Seq<Seq<char>>)
    requires
        all_nonempty(g),
    ensures
        g.flatten().len() >= g.len(),
    decreases g.len(),
{
    if g.len() > 0 {
        assert(all_nonempty(g.drop_first()));
        lemma_flatten_len_ge_count(g.drop_first());
    }
}

/// A sequence of sequences, flattened, is its first `i` flattened followed
/// by the rest flattened.
pub proof fn lemma_flatten_split<A>(g: Seq<Seq<A>>, i: int)
    requires
        0 <= i <= g.len(),
    ensures
        g.flatten() == g.take(i).flatten() + g.skip(i).flatten(),
        g.take(i).flatten() == g.flatten().take(g.take(i).flatten().len() as int),
        g.skip(i).flatten() == g.flatten().skip(g.take(i).flatten().len() as int),
{
    assert(g =~= g.take(i) + g.skip(i));
    lemma_flatten_concat(g.take(i), g.skip(i));
    let f = g.take(i).flatten();
    let s = g.skip(i).flatten();
    assert((f + s).take(f.len() as int) =~= f);
    assert((f + s).skip(f.len() as int) =~= s);
}

/// Cutting out what was just put in gives back what was there.
pub proof fn lemma_cut_out_spliced(g: Seq<Seq<char>>, t: Seq<Seq<char>>, p: int)
    requires
        0 <= p <= g.len(),
    ensures
        cut_out(spliced(g, t, p), p, p + t.len()) == g,
{
    let s = spliced(g, t, p);
    assert(s.take(p) =~= g.take(p));
    assert(s.skip(p + t.len()) =~= g.skip(p));
    assert(g.take(p) + g.skip(p) =~= g);
}

/// Cutting a range out of two texts laid end to end is cutting the part
/// of the range that falls in each out of that one.
pub proof fn lemma_cut_out_concat(l: Seq<Seq<char>>, r: Seq<Seq<char>>, a: int, b: int)
    requires
        0 <= a <= b <= l.len() + r.len(),
    ensures
        ({
            let a_l = if a < l.len() { a } else { l.len() as int };
            let b_l = if b < l.len() { b } else { l.len() as int };
            cut_out(l + r, a, b) == cut_out(l, a_l, b_l) + cut_out(r, a - a_l, b - b_l)
        }),
{
    let a_l = if a < l.len() { a } else { l.len() as int };
    let b_l = if b < l.len() { b } else { l.len() as int };
    assert((l + r).take(a) =~= l.take(a_l) + r.take(a - a_l));
    assert((l + r).skip(b) =~= l.skip(b_l) + r.skip(b - b_l));
    if a < l.len() {
        assert(r.take(a - a_l) =~= Seq::<Seq<char>>::empty());
    } else {
        assert(l.skip(b_l) =~= Seq::<Seq<char>>::empty());
    }
    assert(cut_out(l + r, a, b) =~= cut_out(l, a_l, b_l) + cut_out(r, a - a_l, b - b_l));
}

/// Two runs of non-empty clusters, laid end to end, are non-empty clusters.
pub proof fn lemma_all_nonempty_concat(a: Seq<Seq<char>>, b: Seq<Seq<char>>)
    requires
        all_nonempty(a),
        all_nonempty(b),
    ensures
        all_nonempty(a + b),
{
    assert forall|i: int| 0 <= i < (a + b).len() implies (#[trigger] (a + b)[i]).len() > 0 by {
        if i < a.len() {
            assert((a + b)[i] == a[i]);
        } else {
            assert((a + b)[i] == b[i - a.len()]);
        }
    }
}

/// A run of non-empty clusters is made of non-empty clusters.
pub proof fn lemma_all_nonempty_subrange(g: Seq<Seq<char>>, i: int, j: int)
    requires
        all_nonempty(g),
        0 <= i <= j <= g.len(),
    ensures
        all_nonempty(g.subrange(i, j)),
{
    assert forall|k: int| 0 <= k < g.subrange(i, j).len() implies (#[trigger] g.subrange(
        i,
        j,
    )[k]).len() > 0 by {
        assert(g.subrange(i, j)[k] == g[i + k]);
    }
}

} // verus!
