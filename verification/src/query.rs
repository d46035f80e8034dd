//! Positional queries: from grapheme index to line and column and back, and
//! the cluster at an index.  Each walks down from the root, choosing the
//! child by the counts cached in the left one.

use crate::model::{
    chars_before, holds_char, index_at_line_col, lemma_chars_before_bounds,
    lemma_chars_before_concat, is_line_start, lemma_line_endings_concat, lemma_line_endings_monotone,
    lemma_line_of_index, lemma_line_start_exists, lemma_line_start_in_left,
    lemma_line_start_in_right, lemma_line_start_is, line_col_of, line_endings, line_start,
};
use crate::rope::Rope;
use vstd::prelude::*;

verus! {

impl Rope {
    /// Returns the grapheme index at the start of the given line index.
    pub fn line_index_to_grapheme_index(&self, li: usize) -> (i: usize)
        requires
            self.wf(),
            li <= line_endings(self@),
        ensures
            is_line_start(self@, li as int, i as int),
            i == line_start(self@, li as int),
        decreases self.height(),
    {
        proof {
            self.lemma_sound();
        }
        let i: usize = if li == 0 {
            assert(self@.take(0) =~= Seq::<Seq<char>>::empty());
            0
        } else if self.is_leaf() {
            self.leaf().line_start(li)
        } else {
            proof {
                self.lemma_branch();
            }
            let left = self.left();
            let right = self.right();
            let left_endings: usize = left.line_ending_count();
            proof {
                lemma_line_endings_concat(left@, right@);
            }
            if li <= left_endings {
                let i = left.line_index_to_grapheme_index(li);
                proof {
                    lemma_line_start_in_left(left@, right@, li as int, i as int);
                }
                i
            } else {
                let i = right.line_index_to_grapheme_index(li - left_endings);
                proof {
                    lemma_line_start_in_right(left@, right@, li - left_endings, i as int);
                }
                i + left.cluster_count()
            }
        };
        proof {
            lemma_line_start_is(self@, li as int, i as int);
        }
        i
    }

    /// Returns the index of the line that the given grapheme index is on.
    /// An index past the end is on the last line.
    pub fn grapheme_index_to_line_index(&self, pos: usize) -> (line: usize)
        requires
            self.wf(),
        ensures
            pos <= self@.len() ==> line == line_endings(self@.take(pos as int)),
            pos >= self@.len() ==> line == line_endings(self@),
        decreases self.height(),
    {
        proof {
            self.lemma_sound();
        }
        if self.is_leaf() {
            self.leaf().line_endings_before(pos)
        } else {
            proof {
                self.lemma_branch();
            }
            let left = self.left();
            let right = self.right();
            let lgc: usize = left.cluster_count();
            proof {
                lemma_line_endings_concat(left@, right@);
                assert(self@.take(self@.len() as int) =~= self@);
            }
            if pos < lgc {
                proof {
                    assert((left@ + right@).take(pos as int) =~= left@.take(pos as int));
                }
                left.grapheme_index_to_line_index(pos)
            } else {
                let in_right = right.grapheme_index_to_line_index(pos - lgc);
                proof {
                    if pos <= self@.len() {
                        assert((left@ + right@).take(pos as int) =~= left@ + right@.take(
                            pos - lgc,
                        ));
                        lemma_line_endings_concat(left@, right@.take(pos - lgc));
                        lemma_line_endings_monotone(right@, pos - lgc, pos - lgc);
                    }
                }
                in_right + left.line_ending_count()
            }
        }
    }

    /// Converts a grapheme index into a line number and grapheme-column
    /// number.
    ///
    /// If the index is off the end of the text, returns the line and column
    /// number of the last valid text position.
    pub fn grapheme_index_to_line_col(&self, pos: usize) -> (line_col: (usize, usize))
        requires
            self.wf(),
        ensures
            (line_col.0 as int, line_col.1 as int) == line_col_of(self@, pos as int),
    {
        let count: usize = self.grapheme_count();
        let p: usize = if pos < count { pos } else { count };
        let line = self.grapheme_index_to_line_index(p);
        proof {
            lemma_line_of_index(self@, p as int);
        }
        let line_pos = self.line_index_to_grapheme_index(line);
        (line, p - line_pos)
    }

    /// Converts a line number and grapheme-column number into a grapheme
    /// index.
    ///
    /// If the column number given is beyond the end of the line, returns the
    /// index of the line's last valid position.  If the line number given is
    /// beyond the end of the buffer, returns the index of the buffer's last
    /// valid position.
    pub fn line_col_to_grapheme_index(&self, pos: (usize, usize)) -> (i: usize)
        requires
            self.wf(),
        ensures
            i == index_at_line_col(self@, pos.0 as int, pos.1 as int),
    {
        proof {
            self.lemma_sound();
        }
        let endings: usize = self.line_ending_count();
        if pos.0 <= endings {
            let begin = self.line_index_to_grapheme_index(pos.0);
            let end: usize = if pos.0 < endings {
                let next = self.line_index_to_grapheme_index(pos.0 + 1);
                proof {
                    lemma_line_of_index(self@, begin as int);
                    lemma_line_start_exists(self@, pos.0 as int);
                }
                next - 1
            } else {
                self.cluster_count()
            };
            proof {
                lemma_line_of_index(self@, begin as int);
            }
            if pos.1 <= end - begin {
                begin + pos.1
            } else {
                end
            }
        } else {
            self.cluster_count()
        }
    }

    /// The grapheme cluster at the given grapheme index.
    pub fn grapheme_at_index<'a>(&'a self, index: usize) -> (g: &'a str)
        requires
            self.wf(),
            index < self@.len(),
        ensures
            g@ == self@[index as int],
        decreases self.height(),
    {
        proof {
            self.lemma_sound();
        }
        if self.is_leaf() {
            self.leaf().grapheme(index)
        } else {
            proof {
                self.lemma_branch();
            }
            let left = self.left();
            let lgc: usize = left.cluster_count();
            if index < lgc {
                left.grapheme_at_index(index)
            } else {
                self.right().grapheme_at_index(index - lgc)
            }
        }
    }
    /// Returns the beginning char index of the given grapheme index.
    pub fn grapheme_index_to_char_index(&self, pos: usize) -> (chars: usize)
        requires
            self.wf(),
            pos <= self@.len(),
        ensures
            chars == chars_before(self@, pos as int),
            chars <= self.text().len(),
        decreases self.height(),
    {
        proof {
            self.lemma_sound();
            lemma_chars_before_bounds(self@, pos as int, self@.len() as int);
        }
        if self.is_leaf() {
            self.leaf().chars_before(pos)
        } else {
            proof {
                self.lemma_branch();
            }
            let left = self.left();
            let right = self.right();
            let lgc: usize = left.cluster_count();
            proof {
                lemma_chars_before_concat(left@, right@, pos as int);
            }
            if pos < lgc {
                left.grapheme_index_to_char_index(pos)
            } else {
                right.grapheme_index_to_char_index(pos - lgc) + left.char_count()
            }
        }
    }

    /// Returns the index of the grapheme that the given char index is a
    /// part of.  A char index inside a cluster of several characters belongs
    /// to that cluster; the char index at the end of the text gives the
    /// number of clusters.
    pub fn char_index_to_grapheme_index(&self, pos: usize) -> (i: usize)
        requires
            self.wf(),
            pos <= self.text().len(),
        ensures
            i <= self@.len(),
            pos < self.text().len() ==> holds_char(self@, i as int, pos as int),
            pos == self.text().len() ==> i == self@.len(),
        decreases self.height(),
    {
        proof {
            self.lemma_sound();
        }
        if self.is_leaf() {
            self.leaf().cluster_of_char(pos)
        } else {
            proof {
                self.lemma_branch();
            }
            let left = self.left();
            let right = self.right();
            let lcc: usize = left.char_count();
            if pos < lcc {
                let i = left.char_index_to_grapheme_index(pos);
                proof {
                    lemma_chars_before_concat(left@, right@, i as int);
                    lemma_chars_before_concat(left@, right@, i + 1);
                }
                i
            } else {
                let i = right.char_index_to_grapheme_index(pos - lcc);
                proof {
                    lemma_chars_before_concat(left@, right@, left@.len() + i);
                    if i < right@.len() {
                        lemma_chars_before_concat(left@, right@, left@.len() + i + 1);
                    }
                }
                i + left.cluster_count()
            }
        }
    }

    /// The character at the given char index.
    pub fn char_at_index(&self, index: usize) -> (c: char)
        requires
            self.wf(),
            index < self.text().len(),
        ensures
            c == self.text()[index as int],
        decreases self.height(),
    {
        proof {
            self.lemma_sound();
        }
        if self.is_leaf() {
            self.leaf().char_at(index)
        } else {
            proof {
                self.lemma_branch();
            }
            let left = self.left();
            let lcc: usize = left.char_count();
            if index < lcc {
                left.char_at_index(index)
            } else {
                self.right().char_at_index(index - lcc)
            }
        }
    }
}

} // verus!
