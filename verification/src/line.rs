//! The text of the lines of a diagram: connectors, indentation, and the
//! lines for an entry, for a directory that could not be read, and for the
//! root.

use vstd::prelude::*;
use vstd::string::*;

verus! {

/// The connector in front of an entry that has siblings after it.
pub open spec fn tee() -> Seq<char> {
    seq!['├', '─', '─', ' ']
}

/// The connector in front of the last entry of its directory.
pub open spec fn elbow() -> Seq<char> {
    seq!['└', '─', '─', ' ']
}

/// The indentation below an entry that has siblings after it.
pub open spec fn bar_segment() -> Seq<char> {
    seq!['│', ' ', ' ', ' ']
}

/// The indentation below the last entry of its directory.
pub open spec fn blank_segment() -> Seq<char> {
    seq![' ', ' ', ' ', ' ']
}

/// The words that follow the connector where a directory could not be read.
pub open spec fn failure_words() -> Seq<char> {
    "Error reading directory: "@
}

/// The connector of an entry, by whether it is the last of its directory.
pub open spec fn connector(last: bool) -> Seq<char> {
    if last {
        elbow()
    } else {
        tee()
    }
}

/// The connector of the entry at position `i` among `n` shown siblings.
pub open spec fn connector_at(i: int, n: int) -> Seq<char> {
    connector(i + 1 == n)
}

/// The indentation that an entry adds for what is below it.
pub open spec fn segment(last: bool) -> Seq<char> {
    if last {
        blank_segment()
    } else {
        bar_segment()
    }
}

/// The line of an entry: indentation, connector, name.
pub open spec fn line_of(prefix: Seq<char>, last: bool, name: Seq<char>) -> Seq<char> {
    prefix + connector(last) + name
}

/// The indentation of the children of an entry.
pub open spec fn prefix_below(prefix: Seq<char>, last: bool) -> Seq<char> {
    prefix + segment(last)
}

/// The line that stands for the children of a directory that could not be
/// read.
pub open spec fn failure_line(prefix: Seq<char>, message: Seq<char>) -> Seq<char> {
    prefix + tee() + failure_words() + message
}

/// The first line of a diagram: the root's base name, or a dot where it has
/// none.
pub open spec fn header_of(base_name: Option<Seq<char>>) -> Seq<char> {
    match base_name {
        Some(name) => name,
        None => seq!['.'],
    }
}

/// Whether `s` is an indentation of `depth` levels: that many segments of
/// four characters, each the bar segment or the blank one.
pub open spec fn is_indent(s: Seq<char>, depth: nat) -> bool
    decreases depth,
{
    if depth == 0 {
        s.len() == 0
    } else {
        &&& s.len() >= 4
        &&& is_indent(s.take(s.len() - 4), (depth - 1) as nat)
        &&& (s.skip(s.len() - 4) == bar_segment() || s.skip(s.len() - 4) == blank_segment())
    }
}

/// The lines of the shown children of one directory, without what is below
/// them.
pub open spec fn group_lines(prefix: Seq<char>, names: Seq<Seq<char>>) -> Seq<Seq<char>> {
    Seq::new(names.len(), |i: int| prefix + connector_at(i, names.len() as int) + names[i])
}

/// Among the lines of `n` shown siblings exactly one, the last, has the
/// elbow connector; each of the others has the tee.
pub proof fn lemma_group_connectors(n: int)
    requires
        n > 0,
    ensures
        tee() != elbow(),
        connector_at(n - 1, n) == elbow(),
        forall|i: int| 0 <= i < n - 1 ==> #[trigger] connector_at(i, n) == tee(),
        forall|i: int| 0 <= i < n ==> (#[trigger] connector_at(i, n) == elbow() <==> i == n - 1),
{
    assert(tee()[0] != elbow()[0]);
}

/// The lines of a group are its entries' lines, in order: each line is the
/// indentation, the connector of its position, and the name.
pub proof fn lemma_group_lines(prefix: Seq<char>, names: Seq<Seq<char>>, i: int)
    requires
        0 <= i < names.len(),
    ensures
        group_lines(prefix, names).len() == names.len(),
        group_lines(prefix, names)[i] == line_of(prefix, i == names.len() - 1, names[i]),
        group_lines(prefix, names)[i].subrange(0, prefix.len() as int) == prefix,
        group_lines(prefix, names)[i].subrange(prefix.len() as int, (prefix.len() + 4) as int) == (if i
            == names.len() - 1 {
            elbow()
        } else {
            tee()
        }),
        group_lines(prefix, names)[i].skip((prefix.len() + 4) as int) == names[i],
{
    let l = group_lines(prefix, names)[i];
    assert(l.subrange(0, prefix.len() as int) =~= prefix);
    assert(l.subrange(prefix.len() as int, (prefix.len() + 4) as int) =~= connector_at(
        i,
        names.len() as int,
    ));
    assert(l.skip((prefix.len() + 4) as int) =~= names[i]);
}

/// The indentation grows by one level, of four characters, with each
/// directory entered.
pub proof fn lemma_prefix_below_depth(prefix: Seq<char>, depth: nat, last: bool)
    requires
        is_indent(prefix, depth),
    ensures
        is_indent(prefix_below(prefix, last), depth + 1),
{
    let s = prefix_below(prefix, last);
    assert(s.take(s.len() - 4) =~= prefix);
    assert(s.skip(s.len() - 4) =~= segment(last));
}

/// An indentation of `depth` levels is `4 * depth` characters long.
pub proof fn lemma_indent_len(s: Seq<char>, depth: nat)
    requires
        is_indent(s, depth),
    ensures
        s.len() == 4 * depth,
    decreases depth,
{
    if depth > 0 {
        lemma_indent_len(s.take(s.len() - 4), (depth - 1) as nat);
    }
}

/// The connector of an entry.
pub fn connector_text(last: bool) -> (s: &'static str)
    ensures
        s@ == connector(last),
{
    proof {
        reveal_strlit("└── ");
        reveal_strlit("├── ");
    }
    if last {
        let s = "└── ";
        assert(s@ =~= elbow());
        s
    } else {
        let s = "├── ";
        assert(s@ =~= tee());
        s
    }
}

/// The indentation that an entry adds for what is below it.
pub fn segment_text(last: bool) -> (s: &'static str)
    ensures
        s@ == segment(last),
{
    proof {
        reveal_strlit("    ");
        reveal_strlit("│   ");
    }
    if last {
        let s = "    ";
        assert(s@ =~= blank_segment());
        s
    } else {
        let s = "│   ";
        assert(s@ =~= bar_segment());
        s
    }
}

/// The line of an entry: `prefix`, the connector, and `name`.
pub fn entry_line(prefix: &str, last: bool, name: &str) -> (line: String)
    ensures
        line@ == line_of(prefix@, last, name@),
{
    let mut line = String::from_str(prefix);
    line.append(connector_text(last));
    line.append(name);
    line
}

/// The indentation of the children of an entry with indentation `prefix`.
pub fn child_prefix(prefix: &str, last: bool) -> (below: String)
    ensures
        below@ == prefix_below(prefix@, last),
{
    let mut below = String::from_str(prefix);
    below.append(segment_text(last));
    below
}

/// The line written in place of the children of a directory that could not
/// be read; `message` says why.
pub fn error_line(prefix: &str, message: &str) -> (line: String)
    ensures
        line@ == failure_line(prefix@, message@),
{
    let mut line = String::from_str(prefix);
    line.append(connector_text(false));
    line.append("Error reading directory: ");
    line.append(message);
    line
}

/// The first line of a diagram: the base name of the root, or `.` where the
/// root's path has none. No filter applies to it.
pub fn header_line(base_name: Option<&str>) -> (line: String)
    ensures
        line@ == header_of(
            match base_name {
                Some(name) => Some(name@),
                None => None,
            },
        ),
{
    match base_name {
        Some(name) => String::from_str(name),
        None => {
            proof {
                reveal_strlit(".");
            }
            let dot = ".";
            assert(dot@ =~= seq!['.']);
            String::from_str(dot)
        },
    }
}

} // verus!
