//! The text of the lines that are written.

use vstd::prelude::*;
use vstd::string::*;

verus! {

/// What marks a directory at the end of its line.
pub open spec fn directory_mark(is_dir: bool) -> Seq<char> {
    if is_dir {
        "/"@
    } else {
        Seq::empty()
    }
}

/// The line of an entry: its prefix, its name, and a slash behind a
/// directory.
pub open spec fn line_text(text: Seq<char>, is_dir: bool, indentation: Seq<char>) -> Seq<char> {
    indentation + text + directory_mark(is_dir)
}

/// The name under which the root is shown: its final segment, or the path
/// as it was given where it has none.
pub open spec fn display_name(path: Seq<char>, file_name: Option<Seq<char>>) -> Seq<char> {
    match file_name {
        Some(name) => name,
        None => path,
    }
}

/// The first line of the tree: the root's name, unindented, as a directory.
pub open spec fn root_text(path: Seq<char>, file_name: Option<Seq<char>>) -> Seq<char> {
    line_text(display_name(path, file_name), true, Seq::empty())
}

/// The diagnostic for a directory that could not be read.
pub open spec fn failure_text(message: Seq<char>) -> Seq<char> {
    "Error: "@ + message
}

/// Builds the line of an entry.
pub fn indented_line(text: &str, is_dir: bool, indentation: &str) -> (line: String)
    ensures
        line@ == line_text(text@, is_dir, indentation@),
{
    let mut line = String::from_str(indentation);
    line.append(text);
    if is_dir {
        line.append("/");
    }
    line
}

/// Builds the first line of the tree from the root path and its final
/// segment, if it has one.
pub fn root_line(path: &str, file_name: Option<&str>) -> (line: String)
    ensures
        line@ == root_text(
            path@,
            match file_name {
                Some(name) => Some(name@),
                None => None,
            },
        ),
{
    proof {
        reveal_strlit("");
    }
    match file_name {
        Some(name) => indented_line(name, true, ""),
        None => indented_line(path, true, ""),
    }
}

/// Builds the diagnostic for a directory that could not be read.
pub fn failure_line(message: &str) -> (line: String)
    ensures
        line@ == failure_text(message@),
{
    let mut line = String::from_str("Error: ");
    line.append(message);
    line
}

} // verus!
