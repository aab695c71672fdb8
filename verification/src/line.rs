//! The text of the lines: connectors, prefixes and names.

use crate::entry::{DirectoryEntry, EntryView};
use vstd::prelude::*;
use vstd::string::StringExecFns;

verus! {

/// The branch glyphs in front of an entry's name: a corner for the last
/// entry of its listing, a tee for every other.
pub open spec fn connector(is_last: bool) -> Seq<char> {
    if is_last {
        seq!['└', '─', '─', ' ']
    } else {
        seq!['├', '─', '─', ' ']
    }
}

/// What one level of nesting adds to the prefix of everything below an
/// entry: blanks below the last entry of a listing, a vertical bar below
/// every other.
pub open spec fn filler(is_last: bool) -> Seq<char> {
    if is_last {
        seq![' ', ' ', ' ', ' ']
    } else {
        seq!['│', ' ', ' ', ' ']
    }
}

/// An entry's name as shown: directories end in a slash.
pub open spec fn display_name(entry: EntryView) -> Seq<char> {
    if entry.is_dir {
        entry.name.push('/')
    } else {
        entry.name
    }
}

/// The line of an entry below the root.
pub open spec fn entry_line(prefix: Seq<char>, is_last: bool, entry: EntryView) -> Seq<char> {
    prefix + connector(is_last) + display_name(entry)
}

/// The line of the root: its base name and a slash, whatever the root is.
pub open spec fn root_line(base_name: Seq<char>) -> Seq<char> {
    base_name.push('/')
}

/// The prefix of the lines below an entry whose own prefix is `prefix`.
pub open spec fn child_prefix(prefix: Seq<char>, is_last: bool) -> Seq<char> {
    prefix + filler(is_last)
}

/// The line of the root.
pub fn format_root(base_name: &str) -> (line: String)
    ensures
        line@ == root_line(base_name@),
{
    let mut line = String::from_str(base_name);
    line.append("/");
    proof {
        reveal_strlit("/");
        assert("/"@ == seq!['/']);
        assert(base_name@ + seq!['/'] == base_name@.push('/'));
    }
    line
}

/// The line of an entry below the root.
pub fn format_entry(prefix: &str, is_last: bool, entry: &DirectoryEntry) -> (line: String)
    ensures
        line@ == entry_line(prefix@, is_last, entry@),
{
    let mut line = String::from_str(prefix);
    if is_last {
        line.append("└── ");
    } else {
        line.append("├── ");
    }
    line.append(entry.name.as_str());
    if entry.is_dir {
        line.append("/");
    }
    proof {
        reveal_strlit("└── ");
        reveal_strlit("├── ");
        reveal_strlit("/");
        assert("└── "@ == connector(true));
        assert("├── "@ == connector(false));
        assert("/"@ == seq!['/']);
        assert(entry.name@ + seq!['/'] == entry.name@.push('/'));
        assert(prefix@ + connector(is_last) + entry.name@ + seq!['/'] == prefix@ + connector(
            is_last,
        ) + (entry.name@ + seq!['/']));
    }
    line
}

/// The prefix of the lines below an entry.
pub fn extend_prefix(prefix: &str, is_last: bool) -> (below: String)
    ensures
        below@ == child_prefix(prefix@, is_last),
{
    let mut below = String::from_str(prefix);
    if is_last {
        below.append("    ");
    } else {
        below.append("│   ");
    }
    proof {
        reveal_strlit("    ");
        reveal_strlit("│   ");
        assert("    "@ == filler(true));
        assert("│   "@ == filler(false));
    }
    below
}

} // verus!
