//! An immutable view of a range of a rope.

use crate::iter::RopeGraphemeIter;
use crate::model::{chars_before, lemma_subrange_text};
use crate::rope::Rope;
use vstd::prelude::*;

verus! {

/// An immutable slice into a rope: the clusters from `start` up to `end`.
pub struct RopeSlice<'a> {
    rope: &'a Rope,
    start: usize,
    end: usize,
}

impl<'a> View for RopeSlice<'a> {
    type V = Seq<Seq<char>>;

    /// The grapheme clusters of the slice, in order.
    open spec fn view(&self) -> Seq<Seq<char>> {
        self.rope()@.subrange(self.start(), self.end())
    }
}

impl<'a> RopeSlice<'a> {
    /// The rope that the slice looks into.
    pub closed spec fn rope(&self) -> Rope {
        *self.rope
    }

    /// Where in the rope the slice starts.
    pub closed spec fn start(&self) -> int {
        self.start as int
    }

    /// Where in the rope the slice ends.
    pub closed spec fn end(&self) -> int {
        self.end as int
    }

    /// The slice lies within a well-formed rope.
    pub open spec fn wf(&self) -> bool {
        &&& self.rope().wf()
        &&& 0 <= self.start() <= self.end() <= self.rope()@.len()
    }

    /// The text of the slice as characters.
    pub open spec fn text(&self) -> Seq<char> {
        self@.flatten()
    }

    /// The number of characters in the slice.
    pub fn char_count(&self) -> (n: usize)
        requires
            self.wf(),
        ensures
            n == self.text().len(),
    {
        proof {
            lemma_subrange_text(self.rope@, self.start as int, self.end as int);
        }
        let from = self.rope.grapheme_index_to_char_index(self.start);
        let to = self.rope.grapheme_index_to_char_index(self.end);
        to - from
    }

    /// The character at char index `index` of the slice.
    pub fn char_at_index(&self, index: usize) -> (c: char)
        requires
            self.wf(),
            index < self.text().len(),
        ensures
            c == self.text()[index as int],
    {
        proof {
            self.rope.lemma_sound();
            lemma_subrange_text(self.rope@, self.start as int, self.end as int);
            assert(self.text().len() == chars_before(self.rope@, self.end as int) - chars_before(
                self.rope@,
                self.start as int,
            ));
        }
        let from = self.rope.grapheme_index_to_char_index(self.start);
        self.rope.char_at_index(from + index)
    }

    /// The number of grapheme clusters in the slice.
    pub fn grapheme_count(&self) -> (n: usize)
        requires
            self.wf(),
        ensures
            n == self@.len(),
    {
        self.end - self.start
    }

    /// Creates an iterator over the clusters of the slice.
    pub fn grapheme_iter(&self) -> (iter: RopeGraphemeIter<'a>)
        requires
            self.wf(),
        ensures
            iter.wf(),
            iter.remaining() == self@,
    {
        self.rope.grapheme_iter_between_indices(self.start, self.end)
    }

    /// Creates an iterator over the clusters of the slice from its index
    /// `pos` on.
    pub fn grapheme_iter_at_index(&self, pos: usize) -> (iter: RopeGraphemeIter<'a>)
        requires
            self.wf(),
        ensures
            iter.wf(),
            iter.remaining() == self@.skip(
                if pos <= self@.len() { pos as int } else { self@.len() as int },
            ),
    {
        let len: usize = self.end - self.start;
        let a: usize = if pos < len { self.start + pos } else { self.end };
        let iter = self.rope.grapheme_iter_between_indices(a, self.end);
        assert(iter.remaining() =~= self@.skip(
            if pos <= self@.len() { pos as int } else { self@.len() as int },
        ));
        iter
    }

    /// Creates an iterator over the clusters of the slice from its index
    /// `pos_a` up to its index `pos_b`, both clamped to the end of the slice.
    pub fn grapheme_iter_between_indices(&self, pos_a: usize, pos_b: usize) -> (iter:
        RopeGraphemeIter<'a>)
        requires
            self.wf(),
            pos_a <= pos_b,
        ensures
            iter.wf(),
            iter.remaining() == self@.subrange(
                if pos_a <= self@.len() { pos_a as int } else { self@.len() as int },
                if pos_b <= self@.len() { pos_b as int } else { self@.len() as int },
            ),
    {
        let len: usize = self.end - self.start;
        let a: usize = if pos_a < len { self.start + pos_a } else { self.end };
        let b: usize = if pos_b < len { self.start + pos_b } else { self.end };
        let iter = self.rope.grapheme_iter_between_indices(a, b);
        assert(iter.remaining() =~= self@.subrange(
            if pos_a <= self@.len() { pos_a as int } else { self@.len() as int },
            if pos_b <= self@.len() { pos_b as int } else { self@.len() as int },
        ));
        iter
    }

    /// The cluster at index `index` of the slice.
    pub fn grapheme_at_index(&self, index: usize) -> (g: &'a str)
        requires
            self.wf(),
            index < self@.len(),
        ensures
            g@ == self@[index as int],
    {
        self.rope.grapheme_at_index(self.start + index)
    }

    /// The part of this slice from its index `pos_a` up to its index `pos_b`,
    /// both clamped to the end of the slice.
    pub fn slice(&self, pos_a: usize, pos_b: usize) -> (sub: RopeSlice<'a>)
        requires
            self.wf(),
            pos_a <= pos_b,
        ensures
            sub.wf(),
            sub.rope() == self.rope(),
            sub.start() == if pos_a <= self@.len() {
                self.start() + pos_a
            } else {
                self.end()
            },
            sub.end() == if pos_b <= self@.len() {
                self.start() + pos_b
            } else {
                self.end()
            },
            sub@ == self@.subrange(
                if pos_a <= self@.len() { pos_a as int } else { self@.len() as int },
                if pos_b <= self@.len() { pos_b as int } else { self@.len() as int },
            ),
    {
        let len: usize = self.end - self.start;
        let a: usize = if pos_a < len { self.start + pos_a } else { self.end };
        let b: usize = if pos_b < len { self.start + pos_b } else { self.end };
        let sub = RopeSlice { rope: self.rope, start: a, end: b };
        assert(sub@ =~= self@.subrange(
            if pos_a <= self@.len() { pos_a as int } else { self@.len() as int },
            if pos_b <= self@.len() { pos_b as int } else { self@.len() as int },
        ));
        sub
    }
}

impl Rope {
    /// The part of the rope from grapheme index `pos_a` up to `pos_b`, both
    /// clamped to the end of the text.
    pub fn slice<'a>(&'a self, pos_a: usize, pos_b: usize) -> (sub: RopeSlice<'a>)
        requires
            self.wf(),
            pos_a <= pos_b,
        ensures
            sub.wf(),
            sub.rope() == *self,
            sub.start() == if pos_a <= self@.len() { pos_a as int } else { self@.len() as int },
            sub.end() == if pos_b <= self@.len() { pos_b as int } else { self@.len() as int },
            sub@ == self@.subrange(sub.start(), sub.end()),
    {
        let count: usize = self.grapheme_count();
        let a: usize = if pos_a < count { pos_a } else { count };
        let b: usize = if pos_b < count { pos_b } else { count };
        RopeSlice { rope: self, start: a, end: b }
    }
}

} // verus!
