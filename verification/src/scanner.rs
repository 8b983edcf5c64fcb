//! The scanner's filter: which directory entries are candidate items.
//!
//! Listing a directory and telling files from subdirectories is I/O and
//! stays with the application shell; whether a path names a file of the
//! supported container format is a decision on the path's characters and
//! is made here. A path qualifies when it ends in the `.epub` suffix and
//! the suffix is an extension proper: there is a file-name character in
//! front of it, so a bare `.epub` (a dotfile with no stem) does not count.

use vstd::prelude::*;
use vstd::string::StrSliceExecFns;

verus! {

/// Whether a (`/`-separated) path names a candidate of the supported
/// format: it ends in `.epub`, with a non-separator character before the
/// suffix.
pub open spec fn supported_candidate(p: Seq<char>) -> bool {
    &&& p.len() >= 6
    &&& p.subrange(p.len() - 5, p.len() as int) == ".epub"@
    &&& p[p.len() - 6] != '/'
}

/// Decides whether `path` is a candidate item of the supported format.
pub fn is_supported_candidate(path: &str) -> (r: bool)
    ensures
        r == supported_candidate(path@),
{
    proof {
        reveal_strlit(".epub");
    }
    let n = path.unicode_len();
    if n < 6 {
        return false;
    }
    let r = path.get_char(n - 5) == '.' && path.get_char(n - 4) == 'e' && path.get_char(n - 3)
        == 'p' && path.get_char(n - 2) == 'u' && path.get_char(n - 1) == 'b' && path.get_char(
        n - 6,
    ) != '/';
    proof {
        let p = path@;
        let suffix = p.subrange(p.len() - 5, p.len() as int);
        if r {
            assert(suffix =~= ".epub"@);
        }
        if supported_candidate(p) {
            assert(p[p.len() - 5] == suffix[0]);
            assert(p[p.len() - 4] == suffix[1]);
            assert(p[p.len() - 3] == suffix[2]);
            assert(p[p.len() - 2] == suffix[3]);
            assert(p[p.len() - 1] == suffix[4]);
        }
    }
    r
}

} // verus!
