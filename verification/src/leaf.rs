//! A leaf of the rope: a run of text together with the places where its
//! grapheme clusters begin and end.  The places are those that the segmenter
//! gives for the text of the leaf: after every change of the text they are
//! taken anew.

use crate::model::{
    chars_before, holds_char, is_line_start, lemma_chars_before_bounds,
    lemma_chars_before_rising, lemma_chars_before_step, lemma_line_endings_step,
    lemma_no_text_no_clusters, lemma_subrange_text, line_endings,
};
use crate::string_utils::{
    all_nonempty, cluster_views, grapheme_clusters, insert_text_at_char_index, is_line_ending,
    is_line_ending_spec, remove_text_between_char_indices, segment, split_string_at_char_index,
};
use vstd::prelude::*;
use vstd::string::*;

verus! {

/// The pieces that `cuts` divides `text` into: piece `i` runs from character
/// `cuts[i]` up to `cuts[i + 1]`.
pub open spec fn pieces(text: Seq<char>, cuts: Seq<usize>) -> Seq<Seq<char>> {
    Seq::new(
        (cuts.len() - 1) as nat,
        |i: int| text.subrange(cuts[i] as int, cuts[i + 1] as int),
    )
}

/// Each cut position is larger than those before it.
#[verifier::opaque]
pub open spec fn rising(cuts: Seq<usize>) -> bool {
    forall|i: int, j: int| 0 <= i < j < cuts.len() ==> cuts[i] < cuts[j]
}

/// `cuts` starts at 0, ends at the length of `text` and rises strictly.
pub open spec fn cuts_ok(text: Seq<char>, cuts: Seq<usize>) -> bool {
    &&& cuts.len() >= 1
    &&& cuts[0] == 0
    &&& cuts[cuts.len() - 1] == text.len()
    &&& rising(cuts)
}

/// Rising cut positions are in order, pair by pair.
proof fn lemma_rising(cuts: Seq<usize>, i: int, j: int)
    requires
        rising(cuts),
        0 <= i <= j < cuts.len(),
    ensures
        cuts[i] <= cuts[j],
        i < j ==> cuts[i] < cuts[j],
{
    reveal(rising);
}

/// The first `k` pieces, laid end to end, are the text up to cut `k`.
proof fn lemma_pieces_flatten(text: Seq<char>, cuts: Seq<usize>, k: int)
    requires
        cuts_ok(text, cuts),
        0 <= k < cuts.len(),
    ensures
        pieces(text, cuts).take(k).flatten() == text.take(cuts[k] as int),
    decreases k,
{
    let p = pieces(text, cuts);
    if k == 0 {
        assert(p.take(0).flatten() =~= text.take(0));
    } else {
        lemma_pieces_flatten(text, cuts, k - 1);
        lemma_rising(cuts, k - 1, k);
        lemma_rising(cuts, k, cuts.len() - 1);
        assert(p.take(k) =~= p.take(k - 1).push(p[k - 1]));
        p.take(k - 1).lemma_flatten_push(p[k - 1]);
        assert(text.take(cuts[k - 1] as int) + text.subrange(cuts[k - 1] as int, cuts[k] as int)
            =~= text.take(cuts[k] as int));
    }
}

/// Cut positions that are the characters before each of the clusters `g` of
/// `text` divide `text` into those clusters.
proof fn lemma_cuts_of_clusters(text: Seq<char>, g: Seq<Seq<char>>, cuts: Seq<usize>)
    requires
        g.flatten() == text,
        all_nonempty(g),
        cuts.len() == g.len() + 1,
        forall|q: int| 0 <= q <= g.len() ==> (#[trigger] cuts[q]) as int == chars_before(g, q),
    ensures
        cuts_ok(text, cuts),
        pieces(text, cuts) == g,
{
    lemma_chars_before_bounds(g, 0, g.len() as int);
    assert forall|i: int, j: int| 0 <= i < j < cuts.len() implies cuts[i] < cuts[j] by {
        lemma_chars_before_rising(g, i, j);
    }
    assert(rising(cuts)) by {
        reveal(rising);
    }
    let p = pieces(text, cuts);
    assert(p.len() == g.len());
    assert forall|i: int| 0 <= i < g.len() implies p[i] == g[i] by {
        lemma_subrange_text(g, i, i + 1);
        assert(g.subrange(i, i + 1) =~= seq![g[i]]);
        seq![g[i]].lemma_flatten_one_element();
    }
    assert(p =~= g);
}

/// A run of text and the character positions that divide it into grapheme
/// clusters.
#[derive(Debug)]
pub struct Leaf {
    text: String,
    cuts: Vec<usize>,
}

impl View for Leaf {
    type V = Seq<Seq<char>>;

    /// The grapheme clusters of the leaf, in order.
    closed spec fn view(&self) -> Seq<Seq<char>> {
        pieces(self.text@, self.cuts@)
    }
}

impl Leaf {
    /// The text of the leaf.
    pub closed spec fn text(&self) -> Seq<char> {
        self.text@
    }

    /// The cut positions are those of the grapheme clusters of the text.
    pub closed spec fn wf(&self) -> bool {
        &&& cuts_ok(self.text@, self.cuts@)
        &&& pieces(self.text@, self.cuts@) == grapheme_clusters(self.text@)
    }

    /// The clusters of a well-formed leaf are the grapheme clusters of its
    /// text: non-empty, and the text when laid end to end.
    pub proof fn lemma_wf(&self)
        requires
            self.wf(),
        ensures
            all_nonempty(self@),
            self@.flatten() == self.text(),
            self@ == grapheme_clusters(self.text()),
            self@ == grapheme_clusters(self@.flatten()),
    {
        self.lemma_nonempty();
        lemma_pieces_flatten(self.text@, self.cuts@, self.cuts@.len() - 1);
        assert(self@.take(self@.len() as int) =~= self@);
        assert(self.text@.take(self.text@.len() as int) =~= self.text@);
    }

    /// A well-formed leaf holds non-empty clusters.
    pub proof fn lemma_nonempty(&self)
        requires
            self.wf(),
        ensures
            all_nonempty(self@),
    {
        assert forall|i: int| 0 <= i < self@.len() implies (#[trigger] self@[i]).len() > 0 by {
            lemma_rising(self.cuts@, i, i + 1);
            lemma_rising(self.cuts@, i + 1, self.cuts@.len() - 1);
        }
    }

    /// A leaf that holds `text`, cut into its grapheme clusters.
    pub fn from_string(text: String) -> (leaf: Leaf)
        ensures
            leaf.wf(),
            leaf.text() == text@,
            leaf@ == grapheme_clusters(text@),
    {
        let _chars: usize = text.as_str().unicode_len();
        let clusters = segment(text.as_str());
        let ghost g = cluster_views(clusters@);
        let count: usize = clusters.len();
        let mut cuts: Vec<usize> = Vec::new();
        cuts.push(0);
        let mut total: usize = 0;
        let mut i: usize = 0;
        proof {
            lemma_chars_before_bounds(g, 0, 0);
        }
        while i < count
            invariant
                i <= count == clusters@.len(),
                g == cluster_views(clusters@),
                g.flatten().len() <= usize::MAX,
                cuts@.len() == i + 1,
                total == chars_before(g, i as int),
                forall|q: int| 0 <= q <= i ==> (#[trigger] cuts@[q]) as int == chars_before(g, q),
            decreases count - i,
        {
            proof {
                lemma_chars_before_step(g, i as int);
                lemma_chars_before_bounds(g, i + 1, i + 1);
            }
            total += clusters[i].as_str().unicode_len();
            cuts.push(total);
            i += 1;
        }
        proof {
            lemma_cuts_of_clusters(text@, g, cuts@);
        }
        Leaf { text, cuts }
    }

    /// A leaf without text.
    pub fn new() -> (leaf: Leaf)
        ensures
            leaf.wf(),
            leaf.text() == Seq::<char>::empty(),
            leaf@ == Seq::<Seq<char>>::empty(),
    {
        let leaf = Leaf::from_string(String::new());
        proof {
            leaf.lemma_wf();
            lemma_no_text_no_clusters(leaf@);
            assert(leaf@ =~= Seq::<Seq<char>>::empty());
        }
        leaf
    }

    /// The number of grapheme clusters.
    pub fn len(&self) -> (n: usize)
        requires
            self.wf(),
        ensures
            n == self@.len(),
    {
        self.cuts.len() - 1
    }

    /// The number of characters.
    pub fn char_len(&self) -> (n: usize)
        requires
            self.wf(),
        ensures
            n == self@.flatten().len(),
    {
        proof {
            lemma_pieces_flatten(self.text@, self.cuts@, self.cuts@.len() - 1);
            assert(self@.take(self@.len() as int) =~= self@);
        }
        self.cuts[self.cuts.len() - 1]
    }

    /// The whole text of the leaf.
    pub fn as_str(&self) -> (s: &str)
        requires
            self.wf(),
        ensures
            s@ == self@.flatten(),
    {
        proof {
            lemma_pieces_flatten(self.text@, self.cuts@, self.cuts@.len() - 1);
            assert(self@.take(self@.len() as int) =~= self@);
            assert(self.text@.take(self.text@.len() as int) =~= self.text@);
        }
        self.text.as_str()
    }

    /// The cluster at index `i`.
    pub fn grapheme(&self, i: usize) -> (g: &str)
        requires
            self.wf(),
            i < self@.len(),
        ensures
            g@ == self@[i as int],
    {
        let n: usize = self.cuts.len();
        assert(self@.len() == n - 1);
        proof {
            lemma_rising(self.cuts@, i as int, i + 1);
            lemma_rising(self.cuts@, i + 1, n - 1);
        }
        self.text.as_str().substring_char(self.cuts[i], self.cuts[i + 1])
    }

    /// A leaf that holds the text of the strings `from..to` of `clusters`.
    pub fn from_clusters(clusters: &Vec<String>, from: usize, to: usize) -> (leaf: Leaf)
        requires
            from <= to <= clusters@.len(),
        ensures
            leaf.wf(),
            leaf.text() == cluster_views(clusters@).subrange(from as int, to as int).flatten(),
    {
        let ghost g = cluster_views(clusters@);
        let mut text = String::new();
        let mut i: usize = from;
        assert(g.subrange(from as int, from as int).flatten() =~= Seq::<char>::empty());
        while i < to
            invariant
                from <= i <= to <= clusters@.len(),
                g == cluster_views(clusters@),
                text@ == g.subrange(from as int, i as int).flatten(),
            decreases to - i,
        {
            proof {
                assert(g.subrange(from as int, i + 1) =~= g.subrange(from as int, i as int).push(
                    g[i as int],
                ));
                g.subrange(from as int, i as int).lemma_flatten_push(g[i as int]);
            }
            text.append(clusters[i].as_str());
            i += 1;
        }
        Leaf::from_string(text)
    }

    /// Splices `text` into the text of the leaf at the character where
    /// cluster `pos` starts, and cuts the new text into its clusters.
    pub fn insert_text(&mut self, pos: usize, text: &str)
        requires
            old(self).wf(),
            pos <= old(self)@.len(),
        ensures
            final(self).wf(),
            final(self).text() == old(self).text().take(chars_before(old(self)@, pos as int) as int)
                + text@ + old(self).text().skip(chars_before(old(self)@, pos as int) as int),
    {
        let at = self.chars_before(pos);
        proof {
            self.lemma_wf();
            lemma_chars_before_bounds(self@, pos as int, self@.len() as int);
        }
        let mut whole = String::new();
        core::mem::swap(&mut self.text, &mut whole);
        insert_text_at_char_index(&mut whole, text, at);
        *self = Leaf::from_string(whole);
    }

    /// Cuts the text of the clusters `a..b` out of the text of the leaf, and
    /// cuts what is left into its clusters.
    pub fn remove(&mut self, a: usize, b: usize)
        requires
            old(self).wf(),
            a <= b <= old(self)@.len(),
        ensures
            final(self).wf(),
            final(self).text() == old(self).text().take(chars_before(old(self)@, a as int) as int)
                + old(self).text().skip(chars_before(old(self)@, b as int) as int),
    {
        let from = self.chars_before(a);
        let to = self.chars_before(b);
        proof {
            self.lemma_wf();
            lemma_chars_before_bounds(self@, a as int, b as int);
            lemma_chars_before_bounds(self@, b as int, self@.len() as int);
        }
        let mut whole = String::new();
        core::mem::swap(&mut self.text, &mut whole);
        remove_text_between_char_indices(&mut whole, from, to);
        *self = Leaf::from_string(whole);
    }

    /// Splits the text of the leaf at the character where cluster `pos`
    /// starts: what comes before stays, what comes after is returned as a
    /// leaf of its own.  Both texts are cut into their clusters.
    pub fn split_off(&mut self, pos: usize) -> (tail: Leaf)
        requires
            old(self).wf(),
            pos <= old(self)@.len(),
        ensures
            final(self).wf(),
            tail.wf(),
            final(self).text() == old(self).text().take(chars_before(old(self)@, pos as int) as int),
            tail.text() == old(self).text().skip(chars_before(old(self)@, pos as int) as int),
    {
        let at = self.chars_before(pos);
        proof {
            self.lemma_wf();
            lemma_chars_before_bounds(self@, pos as int, self@.len() as int);
        }
        let mut whole = String::new();
        core::mem::swap(&mut self.text, &mut whole);
        let rest = split_string_at_char_index(&mut whole, at);
        *self = Leaf::from_string(whole);
        Leaf::from_string(rest)
    }

    /// Adds the text of `other` at the end, and cuts the whole into its
    /// clusters.
    pub fn append(&mut self, other: &Leaf)
        requires
            old(self).wf(),
            other.wf(),
        ensures
            final(self).wf(),
            final(self).text() == old(self).text() + other.text(),
    {
        let mut whole = String::new();
        core::mem::swap(&mut self.text, &mut whole);
        whole.append(other.text.as_str());
        *self = Leaf::from_string(whole);
    }

    /// How many line endings come before cluster `pos`; an index past the end
    /// counts them all.
    pub fn line_endings_before(&self, pos: usize) -> (n: usize)
        requires
            self.wf(),
        ensures
            pos <= self@.len() ==> n == line_endings(self@.take(pos as int)),
            pos >= self@.len() ==> n == line_endings(self@),
    {
        let len: usize = self.len();
        let stop: usize = if pos < len { pos } else { len };
        let mut i: usize = 0;
        let mut n: usize = 0;
        assert(self@.take(0) =~= Seq::<Seq<char>>::empty());
        while i < stop
            invariant
                self.wf(),
                i <= stop <= self@.len(),
                n == line_endings(self@.take(i as int)),
                n <= i,
            decreases stop - i,
        {
            proof {
                lemma_line_endings_step(self@, i as int);
            }
            if is_line_ending(self.grapheme(i)) {
                n += 1;
            }
            i += 1;
        }
        assert(self@.take(self@.len() as int) =~= self@);
        n
    }

    /// How many clusters of the leaf end a line.
    pub fn count_line_endings(&self) -> (n: usize)
        requires
            self.wf(),
        ensures
            n == line_endings(self@),
    {
        self.line_endings_before(self.len())
    }

    /// Where line `line` starts: the index after the `line`-th line ending.
    pub fn line_start(&self, line: usize) -> (i: usize)
        requires
            self.wf(),
            1 <= line <= line_endings(self@),
        ensures
            is_line_start(self@, line as int, i as int),
    {
        let len: usize = self.len();
        let mut i: usize = 0;
        let mut n: usize = 0;
        assert(self@.take(0) =~= Seq::<Seq<char>>::empty());
        while n < line
            invariant
                self.wf(),
                i <= self@.len() == len,
                n <= line <= line_endings(self@),
                n == line_endings(self@.take(i as int)),
                n == line ==> i > 0 && is_line_ending_spec(self@[i - 1]),
            decreases self@.len() - i,
        {
            proof {
                assert(self@.take(self@.len() as int) =~= self@);
                lemma_line_endings_step(self@, i as int);
            }
            if is_line_ending(self.grapheme(i)) {
                n += 1;
            }
            i += 1;
        }
        i
    }
    /// The character index at which cluster `pos` starts.
    pub fn chars_before(&self, pos: usize) -> (chars: usize)
        requires
            self.wf(),
            pos <= self@.len(),
        ensures
            chars == chars_before(self@, pos as int),
    {
        proof {
            lemma_pieces_flatten(self.text@, self.cuts@, pos as int);
            lemma_rising(self.cuts@, pos as int, self.cuts@.len() - 1);
        }
        self.cuts[pos]
    }

    /// The index of the cluster that character `pos` lies in; the number of
    /// clusters for the position at the end of the text.
    pub fn cluster_of_char(&self, pos: usize) -> (i: usize)
        requires
            self.wf(),
            pos <= self@.flatten().len(),
        ensures
            i <= self@.len(),
            pos < self@.flatten().len() ==> holds_char(self@, i as int, pos as int),
            pos == self@.flatten().len() ==> i == self@.len(),
    {
        let count: usize = self.len();
        let total: usize = self.char_len();
        let mut i: usize = 0;
        while i < count && self.cuts[i + 1] <= pos
            invariant
                self.wf(),
                count == self@.len(),
                count + 1 == self.cuts@.len(),
                i <= count,
                self.cuts@[i as int] <= pos,
            decreases count - i,
        {
            i += 1;
        }
        proof {
            lemma_pieces_flatten(self.text@, self.cuts@, i as int);
            if i < count {
                lemma_pieces_flatten(self.text@, self.cuts@, i + 1);
                lemma_rising(self.cuts@, i + 1, count as int);
                lemma_pieces_flatten(self.text@, self.cuts@, count as int);
                assert(self@.take(self@.len() as int) =~= self@);
            } else {
                assert(self@.take(self@.len() as int) =~= self@);
            }
        }
        i
    }

    /// The character at character index `index`.
    pub fn char_at(&self, index: usize) -> (c: char)
        requires
            self.wf(),
            index < self@.flatten().len(),
        ensures
            c == self@.flatten()[index as int],
    {
        self.as_str().get_char(index)
    }
}

} // verus!
