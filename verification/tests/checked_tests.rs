use rope::{Rope, RopeError};

#[test]
fn checked_insert() {
    let mut rope = Rope::from_str("abc");
    assert_eq!(rope.checked_insert_text_at_grapheme_index("x", 4), Err(RopeError::IndexOutOfBounds));
    assert_eq!(rope.to_string(), "abc");
    assert_eq!(rope.checked_insert_text_at_grapheme_index("x", 3), Ok(()));
    assert_eq!(rope.to_string(), "abcx");
    assert_eq!(rope.checked_insert_text_at_grapheme_index("\r\n", 0), Ok(()));
    assert_eq!(rope.to_string(), "\r\nabcx");
    assert_eq!(rope.grapheme_count(), 5);
}

#[test]
fn checked_remove() {
    let mut rope = Rope::from_str("abcdef");
    assert_eq!(
        rope.checked_remove_text_between_grapheme_indices(4, 2),
        Err(RopeError::InvertedRange)
    );
    assert_eq!(
        rope.checked_remove_text_between_grapheme_indices(9, 8),
        Err(RopeError::InvertedRange)
    );
    assert_eq!(
        rope.checked_remove_text_between_grapheme_indices(2, 7),
        Err(RopeError::IndexOutOfBounds)
    );
    assert_eq!(rope.to_string(), "abcdef");
    assert_eq!(rope.checked_remove_text_between_grapheme_indices(2, 4), Ok(()));
    assert_eq!(rope.to_string(), "abef");
    assert_eq!(rope.checked_remove_text_between_grapheme_indices(4, 4), Ok(()));
    assert_eq!(rope.to_string(), "abef");
}

#[test]
fn checked_split() {
    let mut rope = Rope::from_str("abcdef");
    assert_eq!(
        rope.checked_split_at_grapheme_index(7).map(|r| r.to_string()),
        Err(RopeError::IndexOutOfBounds)
    );
    assert_eq!(rope.to_string(), "abcdef");
    assert_eq!(rope.checked_split_at_grapheme_index(2).map(|r| r.to_string()), Ok(String::from("cdef")));
    assert_eq!(rope.to_string(), "ab");
    assert_eq!(rope.checked_split_at_grapheme_index(2).map(|r| r.to_string()), Ok(String::new()));
    assert_eq!(rope.to_string(), "ab");
}

#[test]
fn checked_queries() {
    let rope = Rope::from_str("ab\ncd");
    assert_eq!(rope.checked_grapheme_at_index(4), Ok("d"));
    assert_eq!(rope.checked_grapheme_at_index(5), Err(RopeError::IndexOutOfBounds));
    assert_eq!(rope.checked_line_index_to_grapheme_index(0), Ok(0));
    assert_eq!(rope.checked_line_index_to_grapheme_index(1), Ok(3));
    assert_eq!(rope.checked_line_index_to_grapheme_index(2), Err(RopeError::IndexOutOfBounds));
    assert_eq!(rope.checked_slice(3, 2).map(|s| s.grapheme_count()), Err(RopeError::InvertedRange));
    assert_eq!(rope.checked_slice(1, 3).map(|s| s.grapheme_count()), Ok(2));
    assert_eq!(rope.checked_slice(4, 30).map(|s| s.grapheme_count()), Ok(1));
    let empty = Rope::new();
    assert_eq!(empty.checked_grapheme_at_index(0), Err(RopeError::IndexOutOfBounds));
    assert_eq!(empty.checked_line_index_to_grapheme_index(0), Ok(0));
}

#[test]
fn error_messages() {
    assert_eq!(RopeError::IndexOutOfBounds.message(), "index is out of bounds");
    assert_eq!(RopeError::InvertedRange.message(), "range starts after it ends");
    assert_ne!(RopeError::IndexOutOfBounds, RopeError::InvertedRange);
}
