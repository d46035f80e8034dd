//! The operations that take positions, for callers that cannot promise the
//! positions are in range: each tests them first and says what was wrong
//! instead of doing anything.

use crate::model::{
    chars_before, cut_out, is_line_start, line_endings, line_start, settled, spliced,
};
use crate::rope::Rope;
use crate::slice::RopeSlice;
use crate::string_utils::grapheme_clusters;
use vstd::prelude::*;
use vstd::string::*;

verus! {

/// Why an operation on a rope was not carried out.
#[derive(Clone, Copy, Debug, PartialEq, Eq, Structural)]
pub enum RopeError {
    /// An index is larger than the count it is measured against.
    IndexOutOfBounds,
    /// A range starts after it ends.
    InvertedRange,
}

impl RopeError {
    /// The error in words.
    pub fn message(&self) -> (text: String)
        ensures
            text@ == match *self {
                RopeError::IndexOutOfBounds => "index is out of bounds"@,
                RopeError::InvertedRange => "range starts after it ends"@,
            },
    {
        match self {
            RopeError::IndexOutOfBounds => String::from_str("index is out of bounds"),
            RopeError::InvertedRange => String::from_str("range starts after it ends"),
        }
    }
}

/// What is wrong with the range `pos_a..pos_b` in a text of `count`
/// clusters, if anything.
pub open spec fn range_error(pos_a: int, pos_b: int, count: int) -> Option<RopeError> {
    if pos_a > pos_b {
        Some(RopeError::InvertedRange)
    } else if pos_b > count {
        Some(RopeError::IndexOutOfBounds)
    } else {
        None
    }
}

impl Rope {
    /// As `insert_text_at_grapheme_index`, for any `pos`: a position past the
    /// end of the text is an error, and the rope stays as it is.
    pub fn checked_insert_text_at_grapheme_index(&mut self, text: &str, pos: usize) -> (r: Result<
        (),
        RopeError,
    >)
        requires
            old(self).wf(),
            old(self).text().len() + text@.len() <= usize::MAX,
        ensures
            final(self).wf(),
            r is Err <==> pos > old(self)@.len(),
            r is Err ==> r == Err::<(), RopeError>(RopeError::IndexOutOfBounds) && *final(self)
                == *old(self),
            r is Ok ==> final(self).text() == old(self).text().take(
                chars_before(old(self)@, pos as int) as int,
            ) + text@ + old(self).text().skip(chars_before(old(self)@, pos as int) as int),
            r is Ok && settled(spliced(old(self)@, grapheme_clusters(text@), pos as int))
                ==> final(self)@ == spliced(old(self)@, grapheme_clusters(text@), pos as int),
    {
        if pos > self.grapheme_count() {
            Err(RopeError::IndexOutOfBounds)
        } else {
            self.insert_text_at_grapheme_index(text, pos);
            Ok(())
        }
    }

    /// As `remove_text_between_grapheme_indices`, for any two positions: a
    /// range that starts after it ends or that ends past the end of the text
    /// is an error, and the rope stays as it is.
    pub fn checked_remove_text_between_grapheme_indices(&mut self, pos_a: usize, pos_b: usize) -> (r:
        Result<(), RopeError>)
        requires
            old(self).wf(),
        ensures
            final(self).wf(),
            match range_error(pos_a as int, pos_b as int, old(self)@.len() as int) {
                Some(e) => r == Err::<(), RopeError>(e) && *final(self) == *old(self),
                None => {
                    &&& r is Ok
                    &&& final(self).text() == old(self).text().take(
                        chars_before(old(self)@, pos_a as int) as int,
                    ) + old(self).text().skip(chars_before(old(self)@, pos_b as int) as int)
                    &&& settled(cut_out(old(self)@, pos_a as int, pos_b as int)) ==> final(self)@
                        == cut_out(old(self)@, pos_a as int, pos_b as int)
                },
            },
    {
        if pos_a > pos_b {
            Err(RopeError::InvertedRange)
        } else if pos_b > self.grapheme_count() {
            Err(RopeError::IndexOutOfBounds)
        } else {
            self.remove_text_between_grapheme_indices(pos_a, pos_b);
            Ok(())
        }
    }

    /// As `split_at_grapheme_index`, for any `pos`: a position past the end
    /// of the text is an error, and the rope stays as it is.
    pub fn checked_split_at_grapheme_index(&mut self, pos: usize) -> (r: Result<Rope, RopeError>)
        requires
            old(self).wf(),
        ensures
            final(self).wf(),
            r is Err <==> pos > old(self)@.len(),
            r matches Err(e) ==> e == RopeError::IndexOutOfBounds && *final(self) == *old(self),
            r matches Ok(right) ==> {
                &&& right.wf()
                &&& final(self).text() == old(self).text().take(
                    chars_before(old(self)@, pos as int) as int,
                )
                &&& right.text() == old(self).text().skip(
                    chars_before(old(self)@, pos as int) as int,
                )
                &&& settled(old(self)@) ==> final(self)@ == old(self)@.take(pos as int) && right@
                    == old(self)@.skip(pos as int)
            },
    {
        if pos > self.grapheme_count() {
            Err(RopeError::IndexOutOfBounds)
        } else {
            Ok(self.split_at_grapheme_index(pos))
        }
    }

    /// As `grapheme_at_index`, for any `index`: an index at or past the end
    /// of the text is an error.
    pub fn checked_grapheme_at_index<'a>(&'a self, index: usize) -> (r: Result<&'a str, RopeError>)
        requires
            self.wf(),
        ensures
            r is Err <==> index >= self@.len(),
            r matches Err(e) ==> e == RopeError::IndexOutOfBounds,
            r matches Ok(g) ==> g@ == self@[index as int],
    {
        if index >= self.grapheme_count() {
            Err(RopeError::IndexOutOfBounds)
        } else {
            Ok(self.grapheme_at_index(index))
        }
    }

    /// As `line_index_to_grapheme_index`, for any `li`: a line past the last
    /// is an error.
    pub fn checked_line_index_to_grapheme_index(&self, li: usize) -> (r: Result<usize, RopeError>)
        requires
            self.wf(),
        ensures
            r is Err <==> li > line_endings(self@),
            r matches Err(e) ==> e == RopeError::IndexOutOfBounds,
            r matches Ok(i) ==> is_line_start(self@, li as int, i as int) && i == line_start(
                self@,
                li as int,
            ),
    {
        proof {
            self.lemma_sound();
        }
        if li > self.line_ending_count() {
            Err(RopeError::IndexOutOfBounds)
        } else {
            Ok(self.line_index_to_grapheme_index(li))
        }
    }

    /// As `slice`, for any two positions: a range that starts after it ends
    /// is an error.
    pub fn checked_slice<'a>(&'a self, pos_a: usize, pos_b: usize) -> (r: Result<
        RopeSlice<'a>,
        RopeError,
    >)
        requires
            self.wf(),
        ensures
            r is Err <==> pos_a > pos_b,
            r matches Err(e) ==> e == RopeError::InvertedRange,
            r matches Ok(sub) ==> {
                &&& sub.wf()
                &&& sub.rope() == *self
                &&& sub.start() == if pos_a <= self@.len() { pos_a as int } else { self@.len() as int }
                &&& sub.end() == if pos_b <= self@.len() { pos_b as int } else { self@.len() as int }
            },
    {
        if pos_a > pos_b {
            Err(RopeError::InvertedRange)
        } else {
            Ok(self.slice(pos_a, pos_b))
        }
    }
}

} // verus!
