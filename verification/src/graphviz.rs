//! A picture of the tree, for debugging: the rope as a graph in the DOT
//! language.

use crate::model::line_endings;
use crate::rope::Rope;
use vstd::prelude::*;
use vstd::string::*;

verus! {

/// The character for a single decimal digit.
pub open spec fn digit_char(d: int) -> char {
    if d == 0 {
        '0'
    } else if d == 1 {
        '1'
    } else if d == 2 {
        '2'
    } else if d == 3 {
        '3'
    } else if d == 4 {
        '4'
    } else if d == 5 {
        '5'
    } else if d == 6 {
        '6'
    } else if d == 7 {
        '7'
    } else if d == 8 {
        '8'
    } else {
        '9'
    }
}

/// The decimal digits of `n`, most significant first.
pub open spec fn decimal(n: nat) -> Seq<char>
    decreases n,
{
    if n < 10 {
        seq![digit_char(n as int)]
    } else {
        decimal(n / 10).push(digit_char((n % 10) as int))
    }
}

/// Appends the decimal digits of `n` to `out`.
pub fn push_decimal(out: &mut String, n: usize)
    ensures
        final(out)@ == old(out)@ + decimal(n as nat),
    decreases n,
{
    if n >= 10 {
        push_decimal(out, n / 10);
    }
    let d: usize = n % 10;
    let digit: &str = if d == 0 {
        "0"
    } else if d == 1 {
        "1"
    } else if d == 2 {
        "2"
    } else if d == 3 {
        "3"
    } else if d == 4 {
        "4"
    } else if d == 5 {
        "5"
    } else if d == 6 {
        "6"
    } else if d == 7 {
        "7"
    } else if d == 8 {
        "8"
    } else {
        "9"
    };
    proof {
        reveal_strlit("0");
        reveal_strlit("1");
        reveal_strlit("2");
        reveal_strlit("3");
        reveal_strlit("4");
        reveal_strlit("5");
        reveal_strlit("6");
        reveal_strlit("7");
        reveal_strlit("8");
        reveal_strlit("9");
        assert(digit@ =~= seq![digit_char(d as int)]);
        if n >= 10 {
            assert((old(out)@ + decimal((n / 10) as nat)) + digit@ =~= old(out)@ + decimal(
                n as nat,
            ));
        } else {
            assert(old(out)@ + digit@ =~= old(out)@ + decimal(n as nat));
        }
    }
    out.append(digit);
}

/// The counts of a node as they stand in its label.
pub open spec fn dot_counts(rope: Rope) -> Seq<char> {
    "cc="@ + decimal(rope.text().len()) + "\\ngc="@ + decimal(rope@.len()) + "\\nlec="@ + decimal(
        line_endings(rope@),
    ) + "\"];\n"@
}

/// The lines that describe the node `rope` and all below it, where the node
/// goes by the name `name`: a leaf is labelled with its counts, a branch is a
/// box labelled with its height and counts, followed by its two edges and by
/// its children, whose names are `name` with `l` and with `r` added.
pub open spec fn dot_nodes(rope: Rope, name: Seq<char>) -> Seq<char>
    decreases rope.height(),
{
    if rope.is_branch() {
        proof {
            rope.lemma_branch();
        }
        let left_name = name + "l"@;
        let right_name = name + "r"@;
        name + " [shape=box, label=\"h="@ + decimal(rope.height()) + "\\n"@ + dot_counts(rope)
            + name + " -> { "@ + left_name + " "@ + right_name + " };\n"@ + dot_nodes(
            rope.left_child(),
            left_name,
        ) + dot_nodes(rope.right_child(), right_name)
    } else {
        name + " [label=\""@ + dot_counts(rope)
    }
}

impl Rope {
    /// The whole graph: the nodes from the root, named `s`, down.
    pub open spec fn graphviz(self) -> Seq<char> {
        "digraph {\n"@ + dot_nodes(self, "s"@) + "}\n"@
    }

    /// Appends the counts of this node as they stand in its label.
    fn push_dot_counts(&self, text: &mut String)
        requires
            self.wf(),
        ensures
            final(text)@ == old(text)@ + dot_counts(*self),
    {
        proof {
            self.lemma_sound();
        }
        text.append("cc=");
        push_decimal(text, self.char_count());
        text.append("\\ngc=");
        push_decimal(text, self.grapheme_count());
        text.append("\\nlec=");
        push_decimal(text, self.line_ending_count());
        text.append("\"];\n");
        assert(text@ =~= old(text)@ + dot_counts(*self));
    }

    /// Appends the lines for this node, named `name`, and for all below it.
    fn to_graphviz_recursive(&self, text: &mut String, name: String)
        requires
            self.wf(),
        ensures
            final(text)@ == old(text)@ + dot_nodes(*self, name@),
        decreases self.height(),
    {
        proof {
            self.lemma_sound();
        }
        if self.is_leaf() {
            text.append(name.as_str());
            text.append(" [label=\"");
            self.push_dot_counts(text);
            assert(text@ =~= old(text)@ + dot_nodes(*self, name@));
        } else {
            proof {
                self.lemma_branch();
            }
            let mut lname = name.clone();
            let mut rname = name.clone();
            lname.append("l");
            rname.append("r");
            text.append(name.as_str());
            text.append(" [shape=box, label=\"h=");
            push_decimal(text, self.tree_height());
            text.append("\\n");
            self.push_dot_counts(text);
            text.append(name.as_str());
            text.append(" -> { ");
            text.append(lname.as_str());
            text.append(" ");
            text.append(rname.as_str());
            text.append(" };\n");
            let ghost head = text@;
            self.left().to_graphviz_recursive(text, lname);
            self.right().to_graphviz_recursive(text, rname);
            proof {
                let left_name = name@ + "l"@;
                let right_name = name@ + "r"@;
                assert(head =~= old(text)@ + (name@ + " [shape=box, label=\"h="@ + decimal(
                    self.height(),
                ) + "\\n"@ + dot_counts(*self) + name@ + " -> { "@ + left_name + " "@ + right_name
                    + " };\n"@));
                assert(text@ =~= old(text)@ + dot_nodes(*self, name@));
            }
        }
    }

    /// Creates a graphviz document of the rope's structure, and returns it
    /// as a string.  For debugging purposes.
    pub fn to_graphviz(&self) -> (text: String)
        requires
            self.wf(),
        ensures
            text@ == self.graphviz(),
    {
        let mut text = String::from_str("digraph {\n");
        self.to_graphviz_recursive(&mut text, String::from_str("s"));
        text.append("}\n");
        text
    }
}

} // verus!
