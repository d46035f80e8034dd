use rope::string_utils::grapheme_count;
use rope::{Rope, MAX_NODE_SIZE, MIN_NODE_SIZE};

fn leaf_sizes(rope: &Rope) -> Vec<usize> {
    let mut sizes = Vec::new();
    let mut iter = rope.chunk_iter();
    while let Some(chunk) = iter.next() {
        sizes.push(grapheme_count(chunk));
    }
    sizes
}

fn check_shape(rope: &Rope) {
    assert!(rope.is_balanced());
    let sizes = leaf_sizes(rope);
    assert!(!sizes.is_empty());
    let mut total = 0;
    for size in sizes.iter() {
        assert!(*size <= MAX_NODE_SIZE);
        if sizes.len() > 1 {
            assert!(*size >= 1);
        }
        total += *size;
    }
    assert_eq!(total, rope.grapheme_count());
    let text = rope.to_string();
    assert_eq!(text.chars().count(), rope.char_count());
    assert_eq!(grapheme_count(&text), rope.grapheme_count());
}

fn repeated(unit: &str, at_least: usize) -> String {
    let mut s = String::new();
    while s.chars().count() < at_least {
        s.push_str(unit);
    }
    s
}

#[test]
fn constants() {
    assert_eq!(MIN_NODE_SIZE, 64);
    assert_eq!(MAX_NODE_SIZE, 128);
}

#[test]
fn new_rope_is_empty() {
    let rope = Rope::new();
    assert_eq!(rope.char_count(), 0);
    assert_eq!(rope.grapheme_count(), 0);
    assert_eq!(rope.line_count(), 1);
    assert_eq!(rope.to_string(), "");
    assert!(rope.is_balanced());
    assert_eq!(rope.line_index_to_grapheme_index(0), 0);
    assert_eq!(rope.grapheme_index_to_line_col(0), (0, 0));
    assert_eq!(rope.line_col_to_grapheme_index((0, 5)), 0);
}

#[test]
fn line_endings_mixed_widths() {
    let rope = Rope::from_str("Hello\r\nthere!");
    assert_eq!(rope.char_count(), 13);
    assert_eq!(rope.grapheme_count(), 12);
    assert_eq!(rope.line_count(), 2);
    assert_eq!(rope.line_index_to_grapheme_index(1), 6);
    assert_eq!(rope.grapheme_index_to_line_col(7), (1, 1));
    assert_eq!(rope.grapheme_at_index(5), "\r\n");
    assert_eq!(rope.grapheme_at_index(6), "t");
}

#[test]
fn large_build() {
    let mut text = String::new();
    for _ in 0..10000 {
        text.push_str("0123456789");
    }
    let rope = Rope::from_str(&text);
    assert_eq!(rope.grapheme_count(), 100000);
    assert_eq!(rope.char_count(), 100000);
    assert_eq!(rope.to_string(), text);
    assert!(rope.is_balanced());
    let sizes = leaf_sizes(&rope);
    for (k, size) in sizes.iter().enumerate() {
        assert!(*size <= MAX_NODE_SIZE);
        if k + 1 < sizes.len() {
            assert_eq!(*size, MAX_NODE_SIZE);
        } else {
            assert_eq!(*size, 100000 % MAX_NODE_SIZE);
        }
    }
}

#[test]
fn insert_overflow() {
    let mut rope = Rope::new();
    let mut expected = String::new();
    for i in 0..5000 {
        rope.insert_text_at_grapheme_index("x", 0);
        expected.push('x');
        if i % 250 == 0 {
            check_shape(&rope);
        }
    }
    assert_eq!(rope.to_string(), expected);
    assert_eq!(rope.grapheme_count(), 5000);
    check_shape(&rope);
}

#[test]
fn remove_across_leaves() {
    let text = repeated("abcdefghijklmnopqrstuvwxyz", 4 * MAX_NODE_SIZE);
    let len = text.len();
    let mut rope = Rope::from_str(&text);
    let a = len / 4;
    let b = len - len / 4;
    rope.remove_text_between_grapheme_indices(a, b);
    let mut expected = String::from(&text[..a]);
    expected.push_str(&text[b..]);
    assert_eq!(rope.to_string(), expected);
    assert_eq!(rope.grapheme_count(), expected.len());
    check_shape(&rope);
}

#[test]
fn split_append_round_trip() {
    let text = repeated("The quick brown fox jumps over the lazy dog.\n", 3 * MAX_NODE_SIZE);
    let len = text.len();
    let mut rope = Rope::from_str(&text);
    for p in 2..len {
        let mut prime = true;
        let mut d = 2;
        while d * d <= p {
            if p % d == 0 {
                prime = false;
                break;
            }
            d += 1;
        }
        if !prime {
            continue;
        }
        let right = rope.split_at_grapheme_index(p);
        assert_eq!(rope.to_string(), &text[..p]);
        assert_eq!(right.to_string(), &text[p..]);
        assert!(rope.is_balanced());
        assert!(right.is_balanced());
        rope.append(right);
        assert_eq!(rope.to_string(), text);
        check_shape(&rope);
    }
}

#[test]
fn line_col_clamping() {
    let rope = Rope::from_str("abc\ndef");
    assert_eq!(rope.line_col_to_grapheme_index((0, 100)), 3);
    assert_eq!(rope.line_col_to_grapheme_index((1, 100)), 7);
    assert_eq!(rope.line_col_to_grapheme_index((5, 0)), 7);
    assert_eq!(rope.line_col_to_grapheme_index((0, usize::MAX)), 3);
    assert_eq!(rope.line_col_to_grapheme_index((usize::MAX, usize::MAX)), 7);
    assert_eq!(rope.line_col_to_grapheme_index((0, 2)), 2);
    assert_eq!(rope.line_col_to_grapheme_index((1, 0)), 4);
    assert_eq!(rope.line_col_to_grapheme_index((1, 2)), 6);
}

#[test]
fn round_trip_of_text() {
    let samples = [
        "",
        "a",
        "Hello\r\nthere!",
        "e\u{301}\u{1F1F7}\u{1F1FA}\u{1F1F8}\u{1F1F9}\u{2028}\u{0085}",
        "\n\n\n",
    ];
    for s in samples.iter() {
        let rope = Rope::from_str(s);
        assert_eq!(rope.to_string(), *s);
        let rope = Rope::from_string(String::from(*s));
        assert_eq!(rope.to_string(), *s);
        let rope = Rope::from_str_with_count(s, 0, 0, 0);
        assert_eq!(rope.to_string(), *s);
        assert_eq!(rope.grapheme_count(), grapheme_count(s));
        check_shape(&rope);
    }
}

#[test]
fn from_graphemes_takes_the_given_clusters() {
    let clusters = vec![String::from("a"), String::from("\r\n"), String::from("e\u{301}")];
    let rope = Rope::from_graphemes(&clusters);
    assert_eq!(rope.grapheme_count(), 3);
    assert_eq!(rope.char_count(), 5);
    assert_eq!(rope.line_count(), 2);
    assert_eq!(rope.grapheme_at_index(0), "a");
    assert_eq!(rope.grapheme_at_index(1), "\r\n");
    assert_eq!(rope.grapheme_at_index(2), "e\u{301}");
    assert_eq!(rope.to_string(), "a\r\ne\u{301}");
    check_shape(&rope);
    let empty = Rope::from_graphemes(&Vec::new());
    assert_eq!(empty.grapheme_count(), 0);
}

#[test]
fn from_graphemes_cuts_the_text_of_its_pieces() {
    let pieces = vec![String::from("ab"), String::from("\r"), String::from("\nc")];
    let rope = Rope::from_graphemes(&pieces);
    assert_eq!(rope.to_string(), "ab\r\nc");
    assert_eq!(rope.grapheme_count(), 4);
    assert_eq!(rope.line_count(), 2);
    assert_eq!(rope.grapheme_at_index(2), "\r\n");
    check_shape(&rope);
}

#[test]
fn insert_then_remove_restores() {
    let text = repeated("0123456789", 5 * MAX_NODE_SIZE);
    let inserts = ["x", "hello\r\nworld", &repeated("ab\n", 300)];
    let places = [0, 1, 127, 128, 129, 300, text.len() - 1, text.len()];
    for t in inserts.iter() {
        for p in places.iter() {
            let mut rope = Rope::from_str(&text);
            rope.insert_text_at_grapheme_index(t, *p);
            let mut expected = String::from(&text[..*p]);
            expected.push_str(t);
            expected.push_str(&text[*p..]);
            assert_eq!(rope.to_string(), expected);
            assert_eq!(rope.grapheme_count(), text.len() + grapheme_count(t));
            check_shape(&rope);
            rope.remove_text_between_grapheme_indices(*p, *p + grapheme_count(t));
            assert_eq!(rope.to_string(), text);
            check_shape(&rope);
        }
    }
}

#[test]
fn insert_graphemes_in_the_middle_of_a_full_leaf() {
    let text = repeated("0123456789", MAX_NODE_SIZE);
    let mut rope = Rope::from_str(&text[..MAX_NODE_SIZE]);
    let clusters = vec![String::from("\r\n"), String::from("z")];
    rope.insert_graphemes_at_index(&clusters, 64);
    assert_eq!(rope.grapheme_count(), MAX_NODE_SIZE + 2);
    assert_eq!(rope.grapheme_at_index(64), "\r\n");
    assert_eq!(rope.grapheme_at_index(65), "z");
    assert_eq!(rope.grapheme_at_index(66), &text[64..65]);
    assert_eq!(rope.line_count(), 2);
    check_shape(&rope);
}

#[test]
fn remove_everything_and_small_remainders() {
    let text = repeated("abcdefghij", 10 * MAX_NODE_SIZE);
    let len = text.len();
    let mut rope = Rope::from_str(&text);
    rope.remove_text_between_grapheme_indices(0, len);
    assert_eq!(rope.grapheme_count(), 0);
    assert_eq!(rope.to_string(), "");
    check_shape(&rope);

    let mut rope = Rope::from_str(&text);
    rope.remove_text_between_grapheme_indices(10, len - 10);
    assert_eq!(rope.to_string(), "abcdefghijabcdefghij");
    assert_eq!(leaf_sizes(&rope), vec![20]);
    check_shape(&rope);

    let mut rope = Rope::from_str(&text);
    rope.remove_text_between_grapheme_indices(5, 5);
    assert_eq!(rope.to_string(), text);
    check_shape(&rope);
}

#[test]
fn split_at_the_ends() {
    let text = repeated("abcdefghij", 3 * MAX_NODE_SIZE);
    let mut rope = Rope::from_str(&text);
    let right = rope.split_at_grapheme_index(0);
    assert_eq!(rope.grapheme_count(), 0);
    assert_eq!(right.to_string(), text);
    check_shape(&right);
    let mut rope = right;
    let right = rope.split_at_grapheme_index(text.len());
    assert_eq!(right.grapheme_count(), 0);
    assert_eq!(rope.to_string(), text);
    check_shape(&rope);
}

#[test]
fn append_of_unequal_ropes() {
    let long = repeated("0123456789", 40 * MAX_NODE_SIZE);
    let short = "tail";
    let mut rope = Rope::from_str(&long);
    rope.append(Rope::from_str(short));
    let mut expected = long.clone();
    expected.push_str(short);
    assert_eq!(rope.to_string(), expected);
    check_shape(&rope);

    let mut rope = Rope::from_str(short);
    rope.append(Rope::from_str(&long));
    let mut expected = String::from(short);
    expected.push_str(&long);
    assert_eq!(rope.to_string(), expected);
    check_shape(&rope);

    let mut rope = Rope::new();
    rope.append(Rope::from_str(short));
    assert_eq!(rope.to_string(), short);
    rope.append(Rope::new());
    assert_eq!(rope.to_string(), short);
}

#[test]
fn line_col_round_trip() {
    let text = repeated("one\ntwo\r\n\nthree\u{2028}four", 3 * MAX_NODE_SIZE);
    let rope = Rope::from_str(&text);
    let count = rope.grapheme_count();
    for i in 0..count + 1 {
        let lc = rope.grapheme_index_to_line_col(i);
        assert_eq!(rope.line_col_to_grapheme_index(lc), i);
        assert_eq!(rope.grapheme_index_to_line_index(i), lc.0);
    }
    assert_eq!(rope.grapheme_index_to_line_col(count + 10), rope.grapheme_index_to_line_col(count));
    assert_eq!(rope.grapheme_index_to_line_index(count + 10), rope.line_count() - 1);
}

#[test]
fn line_starts() {
    let rope = Rope::from_str("ab\ncd\r\n\nef");
    assert_eq!(rope.line_count(), 4);
    assert_eq!(rope.line_index_to_grapheme_index(0), 0);
    assert_eq!(rope.line_index_to_grapheme_index(1), 3);
    assert_eq!(rope.line_index_to_grapheme_index(2), 6);
    assert_eq!(rope.line_index_to_grapheme_index(3), 7);
    assert_eq!(rope.grapheme_index_to_line_index(0), 0);
    assert_eq!(rope.grapheme_index_to_line_index(2), 0);
    assert_eq!(rope.grapheme_index_to_line_index(3), 1);
    assert_eq!(rope.grapheme_index_to_line_index(6), 2);
    assert_eq!(rope.grapheme_index_to_line_index(7), 3);
    assert_eq!(rope.grapheme_index_to_line_index(9), 3);
    assert_eq!(rope.grapheme_index_to_line_col(5), (1, 2));
    assert_eq!(rope.line_col_to_grapheme_index((1, 5)), 5);
    assert_eq!(rope.line_col_to_grapheme_index((2, 5)), 6);
}

#[test]
fn chunks_spell_the_text() {
    let text = repeated("0123456789", 7 * MAX_NODE_SIZE + 13);
    let rope = Rope::from_str(&text);
    let mut joined = String::new();
    let mut iter = rope.chunk_iter();
    while let Some(chunk) = iter.next() {
        joined.push_str(chunk);
    }
    assert_eq!(joined, rope.to_string());
    assert_eq!(joined, text);
    assert_eq!(iter.next(), None);

    let (start, mut iter) = rope.chunk_iter_at_index(300);
    assert_eq!(start, 256);
    assert_eq!(iter.next(), Some(&text[256..384]));
    let (start, mut iter) = rope.chunk_iter_at_index(text.len() + 5);
    assert_eq!(start, text.len() - text.len() % MAX_NODE_SIZE);
    assert_eq!(iter.next(), Some(&text[start..]));
    assert_eq!(iter.next(), None);
}

#[test]
fn grapheme_iteration() {
    let text = repeated("ab\r\ncd", 3 * MAX_NODE_SIZE);
    let rope = Rope::from_str(&text);
    let count = rope.grapheme_count();
    let mut iter = rope.grapheme_iter();
    let mut n = 0;
    let mut joined = String::new();
    while let Some(g) = iter.next() {
        assert_eq!(g, rope.grapheme_at_index(n));
        joined.push_str(g);
        n += 1;
    }
    assert_eq!(n, count);
    assert_eq!(joined, text);

    let mut iter = rope.grapheme_iter_at_index(200);
    assert_eq!(iter.next(), Some(rope.grapheme_at_index(200)));
    let mut iter = rope.grapheme_iter_at_index(count);
    assert_eq!(iter.next(), None);
    let mut iter = rope.grapheme_iter_at_index(count + 3);
    assert_eq!(iter.next(), None);

    let (a, b) = (100, 300);
    let mut iter = rope.grapheme_iter_between_indices(a, b);
    let slice = rope.slice(a, b);
    let mut n = 0;
    while let Some(g) = iter.next() {
        assert_eq!(g, slice.grapheme_at_index(n));
        assert_eq!(g, rope.grapheme_at_index(a + n));
        n += 1;
    }
    assert_eq!(n, b - a);
    assert_eq!(slice.grapheme_count(), b - a);

    let mut iter = rope.grapheme_iter_between_indices(count - 2, count + 50);
    assert!(iter.next().is_some());
    assert!(iter.next().is_some());
    assert_eq!(iter.next(), None);
    let mut iter = rope.grapheme_iter_between_indices(5, 5);
    assert_eq!(iter.next(), None);
}

#[test]
fn slices() {
    let rope = Rope::from_str("Hello\r\nthere, world!");
    let slice = rope.slice(5, 12);
    assert_eq!(slice.grapheme_count(), 7);
    assert_eq!(slice.grapheme_at_index(0), "\r\n");
    assert_eq!(slice.grapheme_at_index(6), ",");
    let sub = slice.slice(1, 100);
    assert_eq!(sub.grapheme_count(), 6);
    assert_eq!(sub.grapheme_at_index(0), "t");
    let none = slice.slice(50, 100);
    assert_eq!(none.grapheme_count(), 0);
    let clamped = rope.slice(15, 1000);
    assert_eq!(clamped.grapheme_count(), 4);
    let past = rope.slice(500, 1000);
    assert_eq!(past.grapheme_count(), 0);

    let mut iter = slice.grapheme_iter();
    let mut joined = String::new();
    while let Some(g) = iter.next() {
        joined.push_str(g);
    }
    assert_eq!(joined, "\r\nthere,");
    let mut iter = slice.grapheme_iter_at_index(5);
    assert_eq!(iter.next(), Some("e"));
    assert_eq!(iter.next(), Some(","));
    assert_eq!(iter.next(), None);
    let mut iter = slice.grapheme_iter_at_index(9);
    assert_eq!(iter.next(), None);
    let mut iter = slice.grapheme_iter_between_indices(1, 3);
    assert_eq!(iter.next(), Some("t"));
    assert_eq!(iter.next(), Some("h"));
    assert_eq!(iter.next(), None);
}

#[test]
fn line_iteration() {
    let rope = Rope::from_str("ab\ncd\r\n\nef");
    let mut iter = rope.line_iter();
    let mut lines = Vec::new();
    while let Some(line) = iter.next() {
        let mut s = String::new();
        let mut graphemes = line.grapheme_iter();
        while let Some(g) = graphemes.next() {
            s.push_str(g);
        }
        lines.push(s);
    }
    assert_eq!(lines, vec!["ab\n", "cd\r\n", "\n", "ef"]);

    let mut iter = rope.line_iter_at_index(3);
    assert_eq!(iter.next().map(|l| l.grapheme_count()), Some(2));
    assert!(iter.next().is_none());
    let mut iter = rope.line_iter_at_index(9);
    assert!(iter.next().is_none());

    let empty = Rope::new();
    let mut iter = empty.line_iter();
    assert_eq!(iter.next().map(|l| l.grapheme_count()), Some(0));
    assert!(iter.next().is_none());
}

#[test]
fn char_and_grapheme_indices() {
    let mut text = String::new();
    for _ in 0..100 {
        text.push_str("e\u{301}x\r\ny");
    }
    let rope = Rope::from_str(&text);
    assert_eq!(rope.char_count(), 600);
    assert_eq!(rope.grapheme_count(), 400);
    assert_eq!(rope.grapheme_index_to_char_index(0), 0);
    assert_eq!(rope.grapheme_index_to_char_index(1), 2);
    assert_eq!(rope.grapheme_index_to_char_index(2), 3);
    assert_eq!(rope.grapheme_index_to_char_index(3), 5);
    assert_eq!(rope.grapheme_index_to_char_index(4), 6);
    assert_eq!(rope.grapheme_index_to_char_index(200), 300);
    assert_eq!(rope.grapheme_index_to_char_index(400), 600);
    assert_eq!(rope.char_index_to_grapheme_index(0), 0);
    assert_eq!(rope.char_index_to_grapheme_index(1), 0);
    assert_eq!(rope.char_index_to_grapheme_index(2), 1);
    assert_eq!(rope.char_index_to_grapheme_index(3), 2);
    assert_eq!(rope.char_index_to_grapheme_index(4), 2);
    assert_eq!(rope.char_index_to_grapheme_index(5), 3);
    assert_eq!(rope.char_index_to_grapheme_index(301), 200);
    assert_eq!(rope.char_index_to_grapheme_index(599), 399);
    assert_eq!(rope.char_index_to_grapheme_index(600), 400);
    let chars: Vec<char> = text.chars().collect();
    for i in 0..600 {
        assert_eq!(rope.char_at_index(i), chars[i]);
        let g = rope.char_index_to_grapheme_index(i);
        assert!(rope.grapheme_index_to_char_index(g) <= i);
        assert!(i < rope.grapheme_index_to_char_index(g + 1));
    }
}

#[test]
fn edits_at_char_indices() {
    let mut rope = Rope::from_str("e\u{301}x\r\ny");
    rope.insert_text_at_char_index("--", 2);
    assert_eq!(rope.to_string(), "e\u{301}--x\r\ny");
    rope.insert_text_at_char_index("!", 8);
    assert_eq!(rope.to_string(), "e\u{301}--x\r\ny!");
    rope.remove_text_between_char_indices(2, 5);
    assert_eq!(rope.to_string(), "e\u{301}\r\ny!");
    rope.remove_text_between_char_indices(4, 4);
    assert_eq!(rope.to_string(), "e\u{301}\r\ny!");
    let right = rope.split_at_char_index(4);
    assert_eq!(rope.to_string(), "e\u{301}\r\n");
    assert_eq!(right.to_string(), "y!");
    assert_eq!(rope.grapheme_count(), 2);
    assert_eq!(right.grapheme_count(), 2);
}

#[test]
fn slice_in_characters() {
    let rope = Rope::from_str("ae\u{301}x\r\nyz");
    let slice = rope.slice(1, 4);
    assert_eq!(slice.grapheme_count(), 3);
    assert_eq!(slice.char_count(), 5);
    assert_eq!(slice.char_at_index(0), 'e');
    assert_eq!(slice.char_at_index(1), '\u{301}');
    assert_eq!(slice.char_at_index(2), 'x');
    assert_eq!(slice.char_at_index(3), '\r');
    assert_eq!(slice.char_at_index(4), '\n');
    assert_eq!(rope.slice(3, 3).char_count(), 0);
}

#[test]
fn graphviz_of_a_leaf() {
    let rope = Rope::from_str("ab\ncd");
    assert_eq!(rope.to_graphviz(), "digraph {\ns [label=\"cc=5\\ngc=5\\nlec=1\"];\n}\n");
    let empty = Rope::new();
    assert_eq!(empty.to_graphviz(), "digraph {\ns [label=\"cc=0\\ngc=0\\nlec=0\"];\n}\n");
}

#[test]
fn graphviz_of_a_branch() {
    let text = repeated("0123456789\n", 2 * MAX_NODE_SIZE);
    let rope = Rope::from_str(&text[..200]);
    let expected = "digraph {\n\
        s [shape=box, label=\"h=2\\ncc=200\\ngc=200\\nlec=18\"];\n\
        s -> { sl sr };\n\
        sl [label=\"cc=128\\ngc=128\\nlec=11\"];\n\
        sr [label=\"cc=72\\ngc=72\\nlec=7\"];\n\
        }\n";
    assert_eq!(rope.to_graphviz(), expected);
}

#[test]
fn combining_mark_fuses_with_its_letter() {
    let mut rope = Rope::from_str("e");
    rope.insert_text_at_grapheme_index("\u{301}", 1);
    assert_eq!(rope.to_string(), "e\u{301}");
    assert_eq!(rope.grapheme_count(), 1);
    assert_eq!(rope.char_count(), 2);
    assert_eq!(rope.grapheme_at_index(0), "e\u{301}");
    check_shape(&rope);
    rope.remove_text_between_grapheme_indices(0, 1);
    assert_eq!(rope.to_string(), "");
    assert_eq!(rope.grapheme_count(), 0);
}

#[test]
fn line_feed_fuses_with_carriage_return() {
    let mut rope = Rope::from_str("\r");
    assert_eq!(rope.grapheme_count(), 1);
    assert_eq!(rope.line_count(), 2);
    rope.insert_text_at_grapheme_index("\n", 1);
    assert_eq!(rope.to_string(), "\r\n");
    assert_eq!(rope.grapheme_count(), 1);
    assert_eq!(rope.line_count(), 2);
    check_shape(&rope);
    rope.insert_text_at_grapheme_index("\n", 0);
    assert_eq!(rope.to_string(), "\n\r\n");
    assert_eq!(rope.grapheme_count(), 2);
    assert_eq!(rope.line_count(), 3);
    check_shape(&rope);
}

#[test]
fn removal_lets_neighbours_fuse() {
    let mut rope = Rope::from_str("\rx\n");
    assert_eq!(rope.grapheme_count(), 3);
    assert_eq!(rope.line_count(), 3);
    rope.remove_text_between_grapheme_indices(1, 2);
    assert_eq!(rope.to_string(), "\r\n");
    assert_eq!(rope.grapheme_count(), 1);
    assert_eq!(rope.line_count(), 2);
    check_shape(&rope);
}

#[test]
fn split_cuts_text_at_a_cluster_boundary() {
    let mut rope = Rope::from_str("ae\u{301}\r\nz");
    let right = rope.split_at_grapheme_index(2);
    assert_eq!(rope.to_string(), "ae\u{301}");
    assert_eq!(right.to_string(), "\r\nz");
    assert_eq!(rope.grapheme_count(), 2);
    assert_eq!(right.grapheme_count(), 2);
    check_shape(&rope);
    check_shape(&right);
}

#[test]
fn debug_output_exists() {
    let rope = Rope::from_str("abc");
    let shown = format!("{:?}", rope);
    assert!(shown.contains("abc"));
}

#[test]
fn clusters_of_several_characters_in_a_rope() {
    let unit = "\u{1F468}\u{200D}\u{1F469}\u{200D}\u{1F467}e\u{301}\r\n";
    let mut text = String::new();
    for _ in 0..200 {
        text.push_str(unit);
    }
    let mut rope = Rope::from_str(&text);
    assert_eq!(rope.grapheme_count(), 600);
    assert_eq!(rope.char_count(), 1800);
    assert_eq!(rope.line_count(), 201);
    assert_eq!(rope.grapheme_at_index(300), "\u{1F468}\u{200D}\u{1F469}\u{200D}\u{1F467}");
    assert_eq!(rope.grapheme_at_index(301), "e\u{301}");
    assert_eq!(rope.grapheme_at_index(302), "\r\n");
    assert_eq!(rope.grapheme_index_to_char_index(301), 905);
    assert_eq!(rope.char_index_to_grapheme_index(903), 300);
    assert_eq!(rope.line_index_to_grapheme_index(100), 300);
    assert_eq!(rope.grapheme_index_to_line_col(301), (100, 1));
    let right = rope.split_at_grapheme_index(301);
    assert_eq!(rope.char_count(), 905);
    assert_eq!(right.char_count(), 895);
    rope.append(right);
    assert_eq!(rope.to_string(), text);
    check_shape(&rope);
}

#[test]
fn insert_that_fits_changes_one_leaf_only() {
    let text = repeated("0123456789", 200);
    let mut rope = Rope::from_str(&text[..200]);
    assert_eq!(leaf_sizes(&rope), vec![128, 72]);
    rope.insert_text_at_grapheme_index("xy", 150);
    assert_eq!(leaf_sizes(&rope), vec![128, 74]);
    rope.insert_text_at_grapheme_index("z", 128);
    assert_eq!(leaf_sizes(&rope), vec![128, 75]);
    rope.insert_text_at_grapheme_index("w", 203);
    assert_eq!(leaf_sizes(&rope), vec![128, 76]);
    assert_eq!(&rope.to_string()[126..132], "67z890");
    check_shape(&rope);
    let sizes = leaf_sizes(&rope);
    for size in sizes.iter() {
        assert!(*size >= MIN_NODE_SIZE);
    }
}

#[test]
fn insert_without_room_makes_new_leaves() {
    let text = repeated("0123456789", 130);
    let mut rope = Rope::from_str(&text[..128]);
    assert_eq!(leaf_sizes(&rope), vec![128]);
    rope.insert_text_at_grapheme_index("x", 64);
    assert_eq!(leaf_sizes(&rope), vec![64, 1, 64]);
    assert_eq!(rope.grapheme_count(), 129);
    check_shape(&rope);
}
