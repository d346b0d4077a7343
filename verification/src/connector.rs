//! Branch connectors: the box-drawing prefix that places a line in the tree.

use vstd::prelude::*;
use vstd::string::*;

verus! {

/// The column drawn for an ancestor level: blank below a last sibling,
/// a vertical guide otherwise.
pub open spec fn guide(last: bool) -> Seq<char> {
    if last {
        "    "@
    } else {
        "│   "@
    }
}

/// The glyph that attaches an entry to its parent.
pub open spec fn branch(last: bool) -> Seq<char> {
    if last {
        "└── "@
    } else {
        "├── "@
    }
}

/// The guide columns of a run of ancestor levels, outermost first.
pub open spec fn guides(levels: Seq<bool>) -> Seq<char>
    decreases levels.len(),
{
    if levels.len() == 0 {
        Seq::empty()
    } else {
        guides(levels.drop_last()) + guide(levels.last())
    }
}

/// How many leading levels of the stack are drawn as guide columns.
pub open spec fn guide_count(depth: nat, path_last: Seq<bool>) -> nat {
    if depth == 0 {
        0
    } else if depth - 1 < path_last.len() {
        (depth - 1) as nat
    } else {
        path_last.len()
    }
}

/// The prefix of a line at `depth` under the is-last stack `path_last`.
///
/// Depth 0 is the root and has no prefix. Below it, one guide column per
/// ancestor level and then the branch glyph of the entry itself, which is
/// chosen by the top of the stack.
pub open spec fn indentation(depth: nat, path_last: Seq<bool>) -> Seq<char> {
    if depth == 0 {
        Seq::empty()
    } else {
        guides(path_last.take(guide_count(depth, path_last) as int)) + branch(
            path_last.len() > 0 && path_last.last(),
        )
    }
}

/// Builds the prefix of a line at `depth` from the is-last stack.
pub fn create_indentation(depth: usize, path_last: &[bool]) -> (prefix: String)
    ensures
        prefix@ == indentation(depth as nat, path_last@),
{
    let mut prefix = String::new();
    if depth == 0 {
        return prefix;
    }
    let shown: usize = if depth - 1 < path_last.len() {
        depth - 1
    } else {
        path_last.len()
    };
    let mut i: usize = 0;
    while i < shown
        invariant
            i <= shown <= path_last.len(),
            prefix@ == guides(path_last@.take(i as int)),
        decreases shown - i,
    {
        assert(path_last@.take(i + 1).drop_last() == path_last@.take(i as int));
        prefix.append(if path_last[i] { "    " } else { "│   " });
        i += 1;
    }
    let last: bool = path_last.len() > 0 && path_last[path_last.len() - 1];
    prefix.append(if last { "└── " } else { "├── " });
    prefix
}

/// Under a stack that holds one flag per level, the prefix is the guide
/// columns of the ancestors and then the branch glyph of the entry.
pub proof fn lemma_indentation_at_depth(ancestors: Seq<bool>, last: bool)
    ensures
        indentation(ancestors.len() + 1, ancestors.push(last)) == guides(ancestors) + branch(last),
{
    let stack = ancestors.push(last);
    assert(stack.take(ancestors.len() as int) == ancestors);
}

/// The connector of a child follows from its place among its siblings: the
/// last of them, which an only child is, is drawn with `"└── "` and every
/// one before it with `"├── "`; the two glyphs differ.
pub proof fn lemma_connector_by_position(ancestors: Seq<bool>, index: nat, count: nat)
    requires
        index < count,
    ensures
        index + 1 == count ==> indentation(
            ancestors.len() + 1,
            ancestors.push(index + 1 == count),
        ) == guides(ancestors) + "└── "@,
        index + 1 < count ==> indentation(
            ancestors.len() + 1,
            ancestors.push(index + 1 == count),
        ) == guides(ancestors) + "├── "@,
        "└── "@ != "├── "@,
{
    lemma_indentation_at_depth(ancestors, index + 1 == count);
    reveal_strlit("└── ");
    reveal_strlit("├── ");
    assert("└── "@[0] != "├── "@[0]);
}

/// Every level takes four columns.
pub proof fn lemma_indentation_len(ancestors: Seq<bool>, last: bool)
    ensures
        guides(ancestors).len() == 4 * ancestors.len(),
        indentation(ancestors.len() + 1, ancestors.push(last)).len() == 4 * (ancestors.len() + 1),
    decreases ancestors.len(),
{
    reveal_strlit("    ");
    reveal_strlit("│   ");
    reveal_strlit("└── ");
    reveal_strlit("├── ");
    lemma_indentation_at_depth(ancestors, last);
    if ancestors.len() > 0 {
        lemma_indentation_len(ancestors.drop_last(), ancestors.last());
    }
}

} // verus!
