//! A symlink-farm manager core: mirrors package directory trees into a
//! target directory with relative symlinks, and tracks every link it
//! creates in a registry so links can later be removed safely.

pub mod codec;
pub mod linker;
pub mod model;
pub mod pathutil;
pub mod registry;

use vstd::prelude::*;

verus! {

/// Decides whether two strings hold the same characters.
pub fn str_eq(a: &str, b: &str) -> (r: bool)
    ensures
        r == (a@ == b@),
{
    let n = a.unicode_len();
    if n != b.unicode_len() {
        return false;
    }
    let mut i: usize = 0;
    while i < n
        invariant
            i <= n,
            n == a@.len(),
            n == b@.len(),
            forall|j: int| 0 <= j < i ==> a@[j] == b@[j],
        decreases n - i,
    {
        if a.get_char(i) != b.get_char(i) {
            return false;
        }
        i = i + 1;
    }
    proof {
        assert(a@ =~= b@);
    }
    true
}

/// True of a path string that begins at the filesystem root.
pub open spec fn is_abs(s: Seq<char>) -> bool {
    s.len() > 0 && s[0] == '/'
}

/// Decides whether a path string is absolute.
pub fn is_absolute(path: &str) -> (r: bool)
    ensures
        r == is_abs(path@),
{
    path.unicode_len() > 0 && path.get_char(0) == '/'
}

} // verus!
