//! The exclusion set: names that are left out of the tree.

use vstd::prelude::*;
use vstd::string::*;

verus! {

/// The names that are excluded where the caller names none.
pub open spec fn default_exclusions() -> Seq<Seq<char>> {
    seq!["target"@, "node_modules"@, ".git"@, "dist"@, "build"@, "out"@, "pkg"@]
}

/// The exclusion set in force: the caller's names where there are any,
/// which then replace the defaults, and the defaults otherwise.
pub open spec fn exclusions_in_force(given: Seq<Seq<char>>) -> Seq<Seq<char>> {
    if given.len() == 0 {
        default_exclusions()
    } else {
        given
    }
}

/// The built-in exclusion set.
pub fn default_excludes() -> (names: Vec<String>)
    ensures
        names.deep_view() == default_exclusions(),
{
    let mut names: Vec<String> = Vec::new();
    names.push(String::from_str("target"));
    names.push(String::from_str("node_modules"));
    names.push(String::from_str(".git"));
    names.push(String::from_str("dist"));
    names.push(String::from_str("build"));
    names.push(String::from_str("out"));
    names.push(String::from_str("pkg"));
    names
}

/// Chooses the exclusion set from the names the caller gave.
pub fn effective_excludes(given: Vec<String>) -> (names: Vec<String>)
    ensures
        names.deep_view() == exclusions_in_force(given.deep_view()),
{
    if given.len() == 0 {
        default_excludes()
    } else {
        given
    }
}

} // verus!
