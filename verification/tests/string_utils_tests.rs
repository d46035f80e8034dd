use rope::string_utils::{
    char_count, char_grapheme_line_ending_count, char_pos_to_byte_pos, char_pos_to_grapheme_pos,
    checked_grapheme_pos_to_byte_pos, checked_grapheme_pos_to_char_pos,
    checked_insert_text_at_grapheme_index, checked_remove_text_between_grapheme_indices,
    checked_split_string_at_grapheme_index, chars_before_cluster, cluster_of_char, grapheme_count,
    grapheme_count_is_less_than, grapheme_pos_to_byte_pos, grapheme_pos_to_char_pos,
    insert_text_at_char_index, insert_text_at_grapheme_index, is_line_ending, line_ending_count,
    line_endings_in, remove_text_between_grapheme_indices, split_string_at_char_index,
    split_string_at_grapheme_index,
};

#[test]
fn char_pos_to_grapheme_pos_1() {
    let s = "Hello\u{000D}\u{000A}there!";

    assert_eq!(char_pos_to_grapheme_pos(s, 0), 0);
    assert_eq!(char_pos_to_grapheme_pos(s, 5), 5);
    assert_eq!(char_pos_to_grapheme_pos(s, 6), 5);
    assert_eq!(char_pos_to_grapheme_pos(s, 7), 6);
    assert_eq!(char_pos_to_grapheme_pos(s, 13), 12);
}

#[test]
fn char_pos_to_grapheme_pos_2() {
    let s = "a";

    assert_eq!(char_pos_to_grapheme_pos(s, 0), 0);
    assert_eq!(char_pos_to_grapheme_pos(s, 1), 1);
}

#[test]
fn char_pos_to_grapheme_pos_3() {
    let s = "\u{000D}\u{000A}";

    assert_eq!(char_pos_to_grapheme_pos(s, 0), 0);
    assert_eq!(char_pos_to_grapheme_pos(s, 1), 0);
    assert_eq!(char_pos_to_grapheme_pos(s, 2), 1);
}

#[test]
fn char_pos_to_grapheme_pos_4() {
    let s = "";

    assert_eq!(char_pos_to_grapheme_pos(s, 0), 0);
}

#[test]
fn line_endings_are_the_eight_clusters() {
    assert!(is_line_ending("\u{000D}\u{000A}"));
    assert!(is_line_ending("\u{000A}"));
    assert!(is_line_ending("\u{000B}"));
    assert!(is_line_ending("\u{000C}"));
    assert!(is_line_ending("\u{000D}"));
    assert!(is_line_ending("\u{0085}"));
    assert!(is_line_ending("\u{2028}"));
    assert!(is_line_ending("\u{2029}"));
    assert!(!is_line_ending(""));
    assert!(!is_line_ending("a"));
    assert!(!is_line_ending("\u{000A}\u{000D}"));
    assert!(!is_line_ending("\u{000A}\u{000A}"));
    assert!(!is_line_ending(" "));
}

#[test]
fn counts_of_a_mixed_text() {
    let s = "Hello\u{000D}\u{000A}there!\u{2028}e\u{301}";
    assert_eq!(char_count(s), 16);
    assert_eq!(grapheme_count(s), 14);
    assert_eq!(line_ending_count(s), 2);
    assert_eq!(char_grapheme_line_ending_count(s), (16, 14, 2));
    assert_eq!(char_grapheme_line_ending_count(""), (0, 0, 0));
}

#[test]
fn grapheme_count_is_less_than_bounds() {
    assert!(grapheme_count_is_less_than("abc", 4));
    assert!(!grapheme_count_is_less_than("abc", 3));
    assert!(!grapheme_count_is_less_than("abc", 0));
    assert!(grapheme_count_is_less_than("", 1));
    assert!(grapheme_count_is_less_than("", 0));
    assert!(grapheme_count_is_less_than("\u{000D}\u{000A}", 2));
    assert!(!grapheme_count_is_less_than("\u{000D}\u{000A}", 1));
}

#[test]
fn byte_positions() {
    let s = "a\u{e9}\u{4e16}\u{1F600}z";
    assert_eq!(char_pos_to_byte_pos(s, 0), 0);
    assert_eq!(char_pos_to_byte_pos(s, 1), 1);
    assert_eq!(char_pos_to_byte_pos(s, 2), 3);
    assert_eq!(char_pos_to_byte_pos(s, 3), 6);
    assert_eq!(char_pos_to_byte_pos(s, 4), 10);
    assert_eq!(char_pos_to_byte_pos(s, 5), 11);

    let t = "e\u{301}\u{000D}\u{000A}x";
    assert_eq!(grapheme_pos_to_byte_pos(t, 0), 0);
    assert_eq!(grapheme_pos_to_byte_pos(t, 1), 3);
    assert_eq!(grapheme_pos_to_byte_pos(t, 2), 5);
    assert_eq!(grapheme_pos_to_byte_pos(t, 3), 6);
    assert_eq!(checked_grapheme_pos_to_byte_pos(t, 3), Some(6));
    assert_eq!(checked_grapheme_pos_to_byte_pos(t, 4), None);
}

#[test]
fn grapheme_positions_to_char_positions() {
    let t = "e\u{301}\u{000D}\u{000A}x";
    assert_eq!(grapheme_pos_to_char_pos(t, 0), 0);
    assert_eq!(grapheme_pos_to_char_pos(t, 1), 2);
    assert_eq!(grapheme_pos_to_char_pos(t, 2), 4);
    assert_eq!(grapheme_pos_to_char_pos(t, 3), 5);
    assert_eq!(checked_grapheme_pos_to_char_pos(t, 2), Some(4));
    assert_eq!(checked_grapheme_pos_to_char_pos(t, 4), None);
    assert_eq!(checked_grapheme_pos_to_char_pos("", 0), Some(0));
}

#[test]
fn helpers_on_given_clusters() {
    let clusters = vec![
        String::from("a"),
        String::from("\u{000D}\u{000A}"),
        String::from("e\u{301}"),
        String::from("\u{000A}"),
    ];
    assert_eq!(line_endings_in(&clusters), 2);
    assert_eq!(chars_before_cluster(&clusters, 0), 0);
    assert_eq!(chars_before_cluster(&clusters, 1), 1);
    assert_eq!(chars_before_cluster(&clusters, 2), 3);
    assert_eq!(chars_before_cluster(&clusters, 3), 5);
    assert_eq!(chars_before_cluster(&clusters, 4), 6);
    assert_eq!(cluster_of_char(&clusters, 0), 0);
    assert_eq!(cluster_of_char(&clusters, 1), 1);
    assert_eq!(cluster_of_char(&clusters, 2), 1);
    assert_eq!(cluster_of_char(&clusters, 3), 2);
    assert_eq!(cluster_of_char(&clusters, 4), 2);
    assert_eq!(cluster_of_char(&clusters, 5), 3);
    assert_eq!(cluster_of_char(&clusters, 6), 4);
    assert_eq!(line_endings_in(&Vec::new()), 0);
}

#[test]
fn insert_into_string() {
    let mut s = String::from("Hello world");
    insert_text_at_char_index(&mut s, "big ", 6);
    assert_eq!(s, "Hello big world");
    insert_text_at_char_index(&mut s, "!", 15);
    assert_eq!(s, "Hello big world!");
    insert_text_at_char_index(&mut s, ">", 0);
    assert_eq!(s, ">Hello big world!");

    let mut t = String::from("e\u{301}\u{000D}\u{000A}x");
    insert_text_at_grapheme_index(&mut t, "--", 1);
    assert_eq!(t, "e\u{301}--\u{000D}\u{000A}x");
    insert_text_at_grapheme_index(&mut t, "++", 4);
    assert_eq!(t, "e\u{301}--\u{000D}\u{000A}++x");
    assert!(checked_insert_text_at_grapheme_index(&mut t, "$", 7));
    assert_eq!(t, "e\u{301}--\u{000D}\u{000A}++x$");
    assert!(!checked_insert_text_at_grapheme_index(&mut t, "$", 9));
    assert_eq!(t, "e\u{301}--\u{000D}\u{000A}++x$");
}

#[test]
fn remove_from_string() {
    let mut t = String::from("e\u{301}\u{000D}\u{000A}xyz");
    remove_text_between_grapheme_indices(&mut t, 1, 3);
    assert_eq!(t, "e\u{301}yz");
    remove_text_between_grapheme_indices(&mut t, 2, 2);
    assert_eq!(t, "e\u{301}yz");
    remove_text_between_grapheme_indices(&mut t, 0, 1);
    assert_eq!(t, "yz");
    assert!(!checked_remove_text_between_grapheme_indices(&mut t, 1, 3));
    assert_eq!(t, "yz");
    assert!(!checked_remove_text_between_grapheme_indices(&mut t, 2, 1));
    assert_eq!(t, "yz");
    assert!(checked_remove_text_between_grapheme_indices(&mut t, 0, 2));
    assert_eq!(t, "");
}

#[test]
fn split_string() {
    let mut s = String::from("Hello world");
    let tail = split_string_at_char_index(&mut s, 5);
    assert_eq!(s, "Hello");
    assert_eq!(tail, " world");

    let mut t = String::from("e\u{301}\u{000D}\u{000A}xyz");
    let rest = split_string_at_grapheme_index(&mut t, 2);
    assert_eq!(t, "e\u{301}\u{000D}\u{000A}");
    assert_eq!(rest, "xyz");
    assert_eq!(checked_split_string_at_grapheme_index(&mut t, 3), None);
    assert_eq!(t, "e\u{301}\u{000D}\u{000A}");
    assert_eq!(checked_split_string_at_grapheme_index(&mut t, 0), Some(String::from("e\u{301}\u{000D}\u{000A}")));
    assert_eq!(t, "");
}

#[test]
fn clusters_of_flags_marks_and_joined_emoji() {
    let s = "a\r\nb\u{1F1F7}\u{1F1FA}\u{1F1F8}\u{1F1F9}";
    assert_eq!(grapheme_count(s), 5);
    assert_eq!(char_count(s), 8);
    assert_eq!(char_pos_to_grapheme_pos(s, 4), 3);
    assert_eq!(char_pos_to_grapheme_pos(s, 5), 3);
    assert_eq!(char_pos_to_grapheme_pos(s, 6), 4);
    assert_eq!(grapheme_pos_to_char_pos(s, 4), 6);
    assert_eq!(grapheme_pos_to_byte_pos(s, 4), 12);

    let t = "a\u{310}e\u{301}o\u{308}\u{332}";
    assert_eq!(grapheme_count(t), 3);
    assert_eq!(grapheme_pos_to_char_pos(t, 2), 4);

    let family = "\u{1F468}\u{200D}\u{1F469}\u{200D}\u{1F467}!";
    assert_eq!(grapheme_count(family), 2);
    assert_eq!(char_count(family), 6);
    assert_eq!(char_pos_to_grapheme_pos(family, 4), 0);
    assert_eq!(char_pos_to_grapheme_pos(family, 5), 1);
}
