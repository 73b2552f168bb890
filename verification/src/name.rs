//! Rules that depend on an entry's file name alone.

use crate::text::text_of;
use vstd::prelude::*;
use vstd::std_specs::iter::IteratorSpec;

verus! {

/// The character that marks a hidden entry when it leads the name.
pub const HIDDEN_MARKER: char = '.';

/// The character that separates a file name from its extension.
pub const EXTENSION_SEPARATOR: char = '.';

/// A name is hidden when its first character is the hidden marker.
pub open spec fn spec_is_hidden(name: Seq<char>) -> bool {
    name.len() > 0 && name[0] == HIDDEN_MARKER
}

/// Position of the last extension separator in `name`, or `-1` when the
/// name holds none.
pub open spec fn last_separator(name: Seq<char>) -> int
    decreases name.len(),
{
    if name.len() == 0 {
        -1
    } else if name.last() == EXTENSION_SEPARATOR {
        name.len() - 1
    } else {
        last_separator(name.drop_last())
    }
}

/// The name of the parent directory, `..`, which never carries an extension.
pub open spec fn is_parent_name(name: Seq<char>) -> bool {
    name.len() == 2 && name[0] == EXTENSION_SEPARATOR && name[1] == EXTENSION_SEPARATOR
}

/// The extension of a name: what follows its last separator, provided that
/// separator is not the leading character. After a trailing separator the
/// extension is empty. Directories have none, and neither has `..`.
pub open spec fn spec_extension(name: Seq<char>, is_dir: bool) -> Option<Seq<char>> {
    if is_dir || is_parent_name(name) || last_separator(name) <= 0 {
        None
    } else {
        Some(name.subrange(last_separator(name) + 1, name.len() as int))
    }
}

/// Strict lexicographic order of names, character by character in code
/// point order; a proper prefix comes before the longer name.
pub open spec fn name_before(a: Seq<char>, b: Seq<char>) -> bool
    decreases a.len(),
{
    if b.len() == 0 {
        false
    } else if a.len() == 0 {
        true
    } else if a[0] != b[0] {
        a[0] < b[0]
    } else {
        name_before(a.drop_first(), b.drop_first())
    }
}

/// No name comes before itself.
pub proof fn lemma_name_before_irreflexive(a: Seq<char>)
    ensures
        !name_before(a, a),
    decreases a.len(),
{
    if a.len() > 0 {
        lemma_name_before_irreflexive(a.drop_first());
    }
}

/// Two names never come before each other.
pub proof fn lemma_name_before_asymmetric(a: Seq<char>, b: Seq<char>)
    requires
        name_before(a, b),
    ensures
        !name_before(b, a),
    decreases a.len(),
{
    if a.len() > 0 && b.len() > 0 && a[0] == b[0] {
        lemma_name_before_asymmetric(a.drop_first(), b.drop_first());
    }
}

/// The order of names is transitive.
pub proof fn lemma_name_before_transitive(a: Seq<char>, b: Seq<char>, c: Seq<char>)
    requires
        name_before(a, b),
        name_before(b, c),
    ensures
        name_before(a, c),
    decreases a.len(),
{
    if a.len() > 0 && a[0] == b[0] && b[0] == c[0] {
        lemma_name_before_transitive(a.drop_first(), b.drop_first(), c.drop_first());
    }
}

/// Of two different names one comes before the other.
pub proof fn lemma_name_before_total(a: Seq<char>, b: Seq<char>)
    requires
        !name_before(a, b),
        !name_before(b, a),
    ensures
        a == b,
    decreases a.len(),
{
    if a.len() > 0 && b.len() > 0 {
        lemma_name_before_total(a.drop_first(), b.drop_first());
        assert(a == seq![a[0]] + a.drop_first());
        assert(b == seq![b[0]] + b.drop_first());
    } else {
        assert(a == b);
    }
}

/// `last_separator` points at a separator that no separator follows, and is
/// `-1` exactly when the name holds none.
pub proof fn lemma_last_separator(name: Seq<char>)
    ensures
        -1 <= last_separator(name) < name.len(),
        last_separator(name) >= 0 ==> name[last_separator(name)] == EXTENSION_SEPARATOR,
        forall|j: int| last_separator(name) < j < name.len() ==> name[j] != EXTENSION_SEPARATOR,
    decreases name.len(),
{
    if name.len() > 0 && name.last() != EXTENSION_SEPARATOR {
        let front = name.drop_last();
        lemma_last_separator(front);
        assert forall|j: int| last_separator(name) < j < name.len() implies name[j]
            != EXTENSION_SEPARATOR by {
            if j < front.len() {
                assert(front[j] == name[j]);
            }
        }
    }
}

/// Tells whether `name` denotes a hidden entry.
pub fn is_hidden(name: &str) -> (hidden: bool)
    ensures
        hidden == spec_is_hidden(name@),
{
    let mut chars = name.chars();
    match chars.next() {
        Some(c) => c == HIDDEN_MARKER,
        None => false,
    }
}

/// Tells whether `a` comes strictly before `b` in the order of names.
pub fn comes_before(a: &str, b: &str) -> (before: bool)
    ensures
        before == name_before(a@, b@),
{
    let mut left = a.chars();
    let mut right = b.chars();
    loop
        invariant
            left.obeys_prophetic_iter_laws(),
            right.obeys_prophetic_iter_laws(),
            left.decrease() is Some,
            name_before(a@, b@) == name_before(left.remaining(), right.remaining()),
        decreases left.decrease()->0,
    {
        match (left.next(), right.next()) {
            (_, None) => {
                return false;
            },
            (None, Some(_)) => {
                return true;
            },
            (Some(x), Some(y)) => {
                if x != y {
                    return x < y;
                }
            },
        }
    }
}

/// Counts the characters of `name` and finds the last extension separator
/// among them.
fn scan(name: &str) -> (found: (usize, Option<usize>))
    ensures
        found.0 == name@.len(),
        match found.1 {
            Some(i) => i == last_separator(name@),
            None => last_separator(name@) == -1,
        },
{
    let len: usize = name.unicode_len();
    let mut chars = name.chars();
    let mut idx: usize = 0;
    let mut last: Option<usize> = None;
    while idx < len
        invariant
            len == name@.len(),
            idx <= len,
            chars.obeys_prophetic_iter_laws(),
            chars.remaining() == name@.subrange(idx as int, len as int),
            match last {
                Some(i) => i == last_separator(name@.subrange(0, idx as int)),
                None => last_separator(name@.subrange(0, idx as int)) == -1,
            },
        decreases len - idx,
    {
        let next = chars.next();
        proof {
            let seen = name@.subrange(0, idx + 1);
            assert(seen.drop_last() == name@.subrange(0, idx as int));
            assert(seen.last() == name@[idx as int]);
            assert(name@.subrange(idx as int, len as int).drop_first() == name@.subrange(
                idx + 1,
                len as int,
            ));
        }
        if next == Some(EXTENSION_SEPARATOR) {
            last = Some(idx);
        }
        idx += 1;
    }
    (len, last)
}

/// Derives the extension of an entry from its name, and from whether it is
/// a directory.
pub fn extension(name: &str, is_dir: bool) -> (ext: Option<String>)
    ensures
        text_of(ext) == spec_extension(name@, is_dir),
{
    if is_dir {
        return None;
    }
    let (len, last) = scan(name);
    match last {
        None => None,
        Some(i) => {
            proof {
                lemma_last_separator(name@);
            }
            if i == 0 || (len == 2 && name.get_char(0) == EXTENSION_SEPARATOR) {
                None
            } else {
                Some(name.substring_char(i + 1, len).to_owned())
            }
        },
    }
}

} // verus!
