//! The operating-system family whose conventions a computation follows.

use vstd::prelude::*;

verus! {

/// Unix-like systems and Windows differ in path separators, in the
/// separator of PATH lists and in where `pave` keeps its lists.
#[derive(Clone, Copy, Debug, PartialEq, Eq, Structural)]
pub enum Platform {
    Unix,
    Windows,
}

/// Whether `c` separates path components: `/` everywhere, `\` on Windows too.
pub open spec fn is_sep(p: Platform, c: char) -> bool {
    c == '/' || (p == Platform::Windows && c == '\\')
}

/// The character between the directories of a PATH value.
pub open spec fn list_sep(p: Platform) -> char {
    if p == Platform::Windows {
        ';'
    } else {
        ':'
    }
}

pub fn is_separator(p: Platform, c: char) -> (r: bool)
    ensures
        r == is_sep(p, c),
{
    c == '/' || (p == Platform::Windows && c == '\\')
}

pub fn list_separator(p: Platform) -> (r: char)
    ensures
        r == list_sep(p),
{
    if p == Platform::Windows {
        ';'
    } else {
        ':'
    }
}

} // verus!
