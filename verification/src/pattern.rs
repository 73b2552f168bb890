//! The glob pattern that matches the direct children of a root and nothing
//! else.

use vstd::prelude::*;
use vstd::string::StringExecFns;

verus! {

/// The characters that a glob pattern reads as wildcards or brackets.
pub open spec fn is_metacharacter(c: char) -> bool {
    c == '?' || c == '*' || c == '[' || c == ']'
}

/// A character as a pattern that matches it alone: a metacharacter stands in
/// brackets, any other character stands for itself.
pub open spec fn escaped_char(c: char) -> Seq<char> {
    if is_metacharacter(c) {
        seq!['[', c, ']']
    } else {
        seq![c]
    }
}

/// A text as a pattern that matches it alone, character by character.
pub open spec fn escaped(text: Seq<char>) -> Seq<char>
    decreases text.len(),
{
    if text.len() == 0 {
        Seq::empty()
    } else {
        escaped(text.drop_last()) + escaped_char(text.last())
    }
}

/// What follows the root in the pattern of its children: a separator and a
/// wildcard for one path component.
pub open spec fn children_suffix() -> Seq<char> {
    seq!['/', '*']
}

/// The pattern of the direct children of `root`.
pub open spec fn spec_children_pattern(root: Seq<char>) -> Seq<char> {
    escaped(root) + children_suffix()
}

/// Calls `glob::Pattern::escape`.
///
/// Trusted: the body is not verified. The contract restates what the glob
/// crate does there: it copies the text character by character and puts
/// each `?`, `*`, `[` and `]` between a `[` and a `]`.
#[verifier::external_body]
fn escape(text: &str) -> (pattern: String)
    ensures
        pattern@ == escaped(text@),
{
    glob::Pattern::escape(text)
}

/// Builds the glob pattern that enumerates the direct children of `root`,
/// whatever characters the root holds.
pub fn children_pattern(root: &str) -> (pattern: String)
    ensures
        pattern@ == spec_children_pattern(root@),
{
    proof {
        reveal_strlit("/*");
    }
    escape(root).concat("/*")
}

} // verus!
