//! Grapheme-aware helpers on strings: counting, position conversion and
//! splicing.  Everything the rope knows about grapheme clusters comes
//! through [`segment`].

use crate::model::{
    chars_before, holds_char, lemma_chars_before_bounds, lemma_chars_before_step,
    lemma_line_endings_step, line_endings,
};
use unicode_segmentation::UnicodeSegmentation;
use vstd::prelude::*;
use vstd::string::*;
use vstd::utf8::encode_utf8;

verus! {

/// The extended grapheme clusters of `text`, in order, as computed by the
/// Unicode segmentation tables.  Uninterpreted: the verifier knows of it only
/// what [`segment`] states.
pub uninterp spec fn grapheme_clusters(text: Seq<char>) -> Seq<Seq<char>>;

/// The character sequences held by a vector of strings.
pub open spec fn cluster_views(v: Seq<String>) -> Seq<Seq<char>> {
    Seq::new(v.len(), |i: int| v[i]@)
}

/// Every piece is non-empty.
pub open spec fn all_nonempty(g: Seq<Seq<char>>) -> bool {
    forall|i: int| 0 <= i < g.len() ==> (#[trigger] g[i]).len() > 0
}

/// Splits `text` into its extended grapheme clusters.
///
/// Trusted: calls `UnicodeSegmentation::graphemes(text, true)`.  The iterator
/// hands out consecutive, non-empty slices of `text` that start at its first
/// byte and stop at its last, so the clusters concatenate back to `text`.
#[verifier::external_body]
pub(crate) fn segment(text: &str) -> (clusters: Vec<String>)
    ensures
        cluster_views(clusters@) == grapheme_clusters(text@),
        cluster_views(clusters@).flatten() == text@,
        all_nonempty(cluster_views(clusters@)),
{
    let mut clusters: Vec<String> = Vec::new();
    for g in UnicodeSegmentation::graphemes(text, true) {
        clusters.push(String::from(g));
    }
    clusters
}

/// A single character that ends a line on its own.
pub open spec fn is_line_break_char(c: char) -> bool {
    ||| c == '\u{000A}'
    ||| c == '\u{000B}'
    ||| c == '\u{000C}'
    ||| c == '\u{000D}'
    ||| c == '\u{0085}'
    ||| c == '\u{2028}'
    ||| c == '\u{2029}'
}

/// A grapheme that ends a line: CR LF as one cluster, or one of LF, VT, FF,
/// CR, NEL, LS, PS.
pub open spec fn is_line_ending_spec(g: Seq<char>) -> bool {
    ||| g.len() == 1 && is_line_break_char(g[0])
    ||| g.len() == 2 && g[0] == '\u{000D}' && g[1] == '\u{000A}'
}

/// Whether the grapheme `text` ends a line.
pub fn is_line_ending(text: &str) -> (r: bool)
    ensures
        r == is_line_ending_spec(text@),
{
    let n: usize = text.unicode_len();
    if n == 1 {
        let c = text.get_char(0);
        c == '\u{000A}' || c == '\u{000B}' || c == '\u{000C}' || c == '\u{000D}' || c == '\u{0085}'
            || c == '\u{2028}' || c == '\u{2029}'
    } else if n == 2 {
        text.get_char(0) == '\u{000D}' && text.get_char(1) == '\u{000A}'
    } else {
        false
    }
}

/// How many of the given clusters end a line.
pub fn line_endings_in(clusters: &Vec<String>) -> (count: usize)
    ensures
        count == line_endings(cluster_views(clusters@)),
{
    let ghost g = cluster_views(clusters@);
    let mut count: usize = 0;
    let mut i: usize = 0;
    assert(g.take(0) =~= Seq::<Seq<char>>::empty());
    while i < clusters.len()
        invariant
            i <= clusters@.len(),
            g == cluster_views(clusters@),
            count == line_endings(g.take(i as int)),
            count <= i,
        decreases clusters@.len() - i,
    {
        proof {
            lemma_line_endings_step(g, i as int);
        }
        if is_line_ending(clusters[i].as_str()) {
            count += 1;
        }
        i += 1;
    }
    assert(g.take(g.len() as int) =~= g);
    count
}

/// The character index at which cluster `pos` of the given clusters starts.
pub fn chars_before_cluster(clusters: &Vec<String>, pos: usize) -> (chars: usize)
    requires
        pos <= clusters@.len(),
        cluster_views(clusters@).flatten().len() <= usize::MAX,
    ensures
        chars == chars_before(cluster_views(clusters@), pos as int),
{
    let ghost g = cluster_views(clusters@);
    let mut chars: usize = 0;
    let mut i: usize = 0;
    proof {
        lemma_chars_before_bounds(g, 0, 0);
    }
    while i < pos
        invariant
            i <= pos <= clusters@.len(),
            g == cluster_views(clusters@),
            g.flatten().len() <= usize::MAX,
            chars == chars_before(g, i as int),
        decreases pos - i,
    {
        proof {
            lemma_chars_before_step(g, i as int);
            lemma_chars_before_bounds(g, i + 1, i + 1);
        }
        chars += clusters[i].as_str().unicode_len();
        i += 1;
    }
    chars
}

/// The index of the cluster that character `pos` of the text lies in, given
/// the clusters of the text; the number of clusters for the position at the
/// end of the text.
pub fn cluster_of_char(clusters: &Vec<String>, pos: usize) -> (i: usize)
    requires
        pos <= cluster_views(clusters@).flatten().len() <= usize::MAX,
    ensures
        pos < cluster_views(clusters@).flatten().len() ==> holds_char(
            cluster_views(clusters@),
            i as int,
            pos as int,
        ),
        pos == cluster_views(clusters@).flatten().len() ==> i == clusters@.len(),
{
    let ghost g = cluster_views(clusters@);
    let mut i: usize = 0;
    let mut cc: usize = 0;
    proof {
        lemma_chars_before_bounds(g, 0, 0);
    }
    while i < clusters.len()
        invariant
            i <= clusters@.len(),
            g == cluster_views(clusters@),
            pos <= g.flatten().len() <= usize::MAX,
            cc == chars_before(g, i as int),
            cc <= pos,
        decreases clusters@.len() - i,
    {
        proof {
            lemma_chars_before_step(g, i as int);
            lemma_chars_before_bounds(g, i + 1, i + 1);
        }
        let next: usize = cc + clusters[i].as_str().unicode_len();
        if next > pos {
            return i;
        }
        cc = next;
        i += 1;
    }
    proof {
        lemma_chars_before_bounds(g, g.len() as int, g.len() as int);
    }
    i
}

/// The number of grapheme clusters of `text` that end a line.
pub fn line_ending_count(text: &str) -> (count: usize)
    ensures
        count == line_endings(grapheme_clusters(text@)),
{
    let clusters = segment(text);
    line_endings_in(&clusters)
}

/// The number of characters of `text`.
pub fn char_count(text: &str) -> (count: usize)
    ensures
        count == text@.len(),
{
    text.unicode_len()
}

/// The number of grapheme clusters of `text`.
pub fn grapheme_count(text: &str) -> (count: usize)
    ensures
        count == grapheme_clusters(text@).len(),
{
    let clusters = segment(text);
    clusters.len()
}

/// Whether `text` has fewer than `n` grapheme clusters.  A text without
/// clusters has fewer than any `n`, 0 too.
pub fn grapheme_count_is_less_than(text: &str, n: usize) -> (less: bool)
    ensures
        less == (grapheme_clusters(text@).len() < n || grapheme_clusters(text@).len() == 0),
{
    let clusters = segment(text);
    clusters.len() < n || clusters.len() == 0
}

/// The numbers of characters, grapheme clusters and line endings of `text`.
pub fn char_grapheme_line_ending_count(text: &str) -> (counts: (usize, usize, usize))
    ensures
        counts.0 == text@.len(),
        counts.1 == grapheme_clusters(text@).len(),
        counts.2 == line_endings(grapheme_clusters(text@)),
{
    let clusters = segment(text);
    (text.unicode_len(), clusters.len(), line_endings_in(&clusters))
}

/// The byte at which character `pos` of `text` starts in its UTF-8 form.
pub fn char_pos_to_byte_pos(text: &str, pos: usize) -> (byte_pos: usize)
    requires
        pos <= text@.len(),
    ensures
        byte_pos == encode_utf8(text@.take(pos as int)).len(),
{
    text.substring_char(0, pos).as_bytes().len()
}

/// The byte at which grapheme cluster `pos` of `text` starts in its UTF-8
/// form.
pub fn grapheme_pos_to_byte_pos(text: &str, pos: usize) -> (byte_pos: usize)
    requires
        pos <= grapheme_clusters(text@).len(),
    ensures
        byte_pos == encode_utf8(
            text@.take(chars_before(grapheme_clusters(text@), pos as int) as int),
        ).len(),
{
    let chars = grapheme_pos_to_char_pos(text, pos);
    char_pos_to_byte_pos(text, chars)
}

/// The index of the grapheme cluster that character `pos` of `text` lies in.
/// A position inside a cluster of several characters belongs to that
/// cluster; the position at the end of the text gives the number of
/// clusters.
pub fn char_pos_to_grapheme_pos(text: &str, pos: usize) -> (i: usize)
    requires
        pos <= text@.len(),
    ensures
        pos < text@.len() ==> holds_char(grapheme_clusters(text@), i as int, pos as int),
        pos == text@.len() ==> i == grapheme_clusters(text@).len(),
{
    let _chars: usize = text.unicode_len();
    let clusters = segment(text);
    cluster_of_char(&clusters, pos)
}

/// The character index at which grapheme cluster `pos` of `text` starts.
pub fn grapheme_pos_to_char_pos(text: &str, pos: usize) -> (chars: usize)
    requires
        pos <= grapheme_clusters(text@).len(),
    ensures
        chars == chars_before(grapheme_clusters(text@), pos as int),
        chars <= text@.len(),
{
    let _chars: usize = text.unicode_len();
    let clusters = segment(text);
    proof {
        let ghost g = cluster_views(clusters@);
        lemma_chars_before_bounds(g, pos as int, g.len() as int);
    }
    chars_before_cluster(&clusters, pos)
}

/// Inserts `text` into `s` before character `pos`.
pub fn insert_text_at_char_index(s: &mut String, text: &str, pos: usize)
    requires
        pos <= old(s)@.len(),
    ensures
        final(s)@ == old(s)@.take(pos as int) + text@ + old(s)@.skip(pos as int),
{
    let len: usize = s.as_str().unicode_len();
    let mut out = String::from_str(s.as_str().substring_char(0, pos));
    out.append(text);
    out.append(s.as_str().substring_char(pos, len));
    *s = out;
}

/// Inserts `text` into `s` before grapheme cluster `pos`.
pub fn insert_text_at_grapheme_index(s: &mut String, text: &str, pos: usize)
    requires
        pos <= grapheme_clusters(old(s)@).len(),
    ensures
        ({
            let at = chars_before(grapheme_clusters(old(s)@), pos as int) as int;
            final(s)@ == old(s)@.take(at) + text@ + old(s)@.skip(at)
        }),
{
    let at = grapheme_pos_to_char_pos(s.as_str(), pos);
    insert_text_at_char_index(s, text, at);
}

/// Removes from `s` the characters `pos_a..pos_b`.
pub fn remove_text_between_char_indices(s: &mut String, pos_a: usize, pos_b: usize)
    requires
        pos_a <= pos_b <= old(s)@.len(),
    ensures
        final(s)@ == old(s)@.take(pos_a as int) + old(s)@.skip(pos_b as int),
{
    let len: usize = s.as_str().unicode_len();
    let mut out = String::from_str(s.as_str().substring_char(0, pos_a));
    out.append(s.as_str().substring_char(pos_b, len));
    *s = out;
}

/// Removes from `s` the grapheme clusters `pos_a..pos_b`.
pub fn remove_text_between_grapheme_indices(s: &mut String, pos_a: usize, pos_b: usize)
    requires
        pos_a <= pos_b <= grapheme_clusters(old(s)@).len(),
    ensures
        ({
            let from = chars_before(grapheme_clusters(old(s)@), pos_a as int) as int;
            let to = chars_before(grapheme_clusters(old(s)@), pos_b as int) as int;
            final(s)@ == old(s)@.take(from) + old(s)@.skip(to)
        }),
{
    let len: usize = s.as_str().unicode_len();
    let clusters = segment(s.as_str());
    let from = chars_before_cluster(&clusters, pos_a);
    let to = chars_before_cluster(&clusters, pos_b);
    proof {
        let ghost g = cluster_views(clusters@);
        lemma_chars_before_bounds(g, pos_a as int, pos_b as int);
        lemma_chars_before_bounds(g, pos_b as int, g.len() as int);
    }
    remove_text_between_char_indices(s, from, to);
}

/// Splits a string in two at character `pos`: the first part stays in `s1`,
/// the second part is returned.
pub fn split_string_at_char_index(s1: &mut String, pos: usize) -> (s2: String)
    requires
        pos <= old(s1)@.len(),
    ensures
        final(s1)@ == old(s1)@.take(pos as int),
        s2@ == old(s1)@.skip(pos as int),
{
    let len: usize = s1.as_str().unicode_len();
    let s2 = String::from_str(s1.as_str().substring_char(pos, len));
    let head = String::from_str(s1.as_str().substring_char(0, pos));
    *s1 = head;
    s2
}

/// Splits a string in two at grapheme cluster `pos`: the first part stays in
/// `s1`, the second part is returned.
pub fn split_string_at_grapheme_index(s1: &mut String, pos: usize) -> (s2: String)
    requires
        pos <= grapheme_clusters(old(s1)@).len(),
    ensures
        ({
            let at = chars_before(grapheme_clusters(old(s1)@), pos as int) as int;
            &&& final(s1)@ == old(s1)@.take(at)
            &&& s2@ == old(s1)@.skip(at)
        }),
{
    let at = grapheme_pos_to_char_pos(s1.as_str(), pos);
    split_string_at_char_index(s1, at)
}

/// As `grapheme_pos_to_char_pos`, for any `pos`: `None` where `text` has
/// fewer than `pos` grapheme clusters.
pub fn checked_grapheme_pos_to_char_pos(text: &str, pos: usize) -> (chars: Option<usize>)
    ensures
        chars is Some <==> pos <= grapheme_clusters(text@).len(),
        chars matches Some(c) ==> c == chars_before(grapheme_clusters(text@), pos as int),
{
    if pos <= grapheme_count(text) {
        Some(grapheme_pos_to_char_pos(text, pos))
    } else {
        None
    }
}

/// As `grapheme_pos_to_byte_pos`, for any `pos`: `None` where `text` has
/// fewer than `pos` grapheme clusters.
pub fn checked_grapheme_pos_to_byte_pos(text: &str, pos: usize) -> (byte_pos: Option<usize>)
    ensures
        byte_pos is Some <==> pos <= grapheme_clusters(text@).len(),
        byte_pos matches Some(b) ==> b == encode_utf8(
            text@.take(chars_before(grapheme_clusters(text@), pos as int) as int),
        ).len(),
{
    if pos <= grapheme_count(text) {
        Some(grapheme_pos_to_byte_pos(text, pos))
    } else {
        None
    }
}

/// As `insert_text_at_grapheme_index`, for any `pos`: where `s` has fewer
/// than `pos` grapheme clusters, `s` is left as it is and the result is
/// `false`.
pub fn checked_insert_text_at_grapheme_index(s: &mut String, text: &str, pos: usize) -> (done:
    bool)
    ensures
        done <==> pos <= grapheme_clusters(old(s)@).len(),
        !done ==> final(s)@ == old(s)@,
        done ==> ({
            let at = chars_before(grapheme_clusters(old(s)@), pos as int) as int;
            final(s)@ == old(s)@.take(at) + text@ + old(s)@.skip(at)
        }),
{
    if pos <= grapheme_count(s.as_str()) {
        insert_text_at_grapheme_index(s, text, pos);
        true
    } else {
        false
    }
}

/// As `remove_text_between_grapheme_indices`, for any two positions: where
/// they are out of order or `s` has fewer than `pos_b` grapheme clusters, `s`
/// is left as it is and the result is `false`.
pub fn checked_remove_text_between_grapheme_indices(
    s: &mut String,
    pos_a: usize,
    pos_b: usize,
) -> (done: bool)
    ensures
        done <==> pos_a <= pos_b <= grapheme_clusters(old(s)@).len(),
        !done ==> final(s)@ == old(s)@,
        done ==> ({
            let from = chars_before(grapheme_clusters(old(s)@), pos_a as int) as int;
            let to = chars_before(grapheme_clusters(old(s)@), pos_b as int) as int;
            final(s)@ == old(s)@.take(from) + old(s)@.skip(to)
        }),
{
    if pos_a <= pos_b && pos_b <= grapheme_count(s.as_str()) {
        remove_text_between_grapheme_indices(s, pos_a, pos_b);
        true
    } else {
        false
    }
}

/// As `split_string_at_grapheme_index`, for any `pos`: where `s1` has fewer
/// than `pos` grapheme clusters, `s1` is left as it is and the result is
/// `None`.
pub fn checked_split_string_at_grapheme_index(s1: &mut String, pos: usize) -> (s2: Option<String>)
    ensures
        s2 is Some <==> pos <= grapheme_clusters(old(s1)@).len(),
        s2 is None ==> final(s1)@ == old(s1)@,
        s2 matches Some(tail) ==> ({
            let at = chars_before(grapheme_clusters(old(s1)@), pos as int) as int;
            &&& final(s1)@ == old(s1)@.take(at)
            &&& tail@ == old(s1)@.skip(at)
        }),
{
    if pos <= grapheme_count(s1.as_str()) {
        Some(split_string_at_grapheme_index(s1, pos))
    } else {
        None
    }
}

} // verus!
