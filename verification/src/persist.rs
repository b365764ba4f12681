//! Transcript persistence rules: the destination path handed in by the host
//! must be absolute and must not contain a parent-directory component, so
//! that the write (a temporary file renamed into place by the caller) can
//! never land outside the chosen directory.

use vstd::prelude::*;

verus! {

/// Why a destination path was rejected.
#[derive(Clone, Copy, Debug, PartialEq, Eq, Structural)]
pub enum PathError {
    /// The path does not start at the filesystem root.
    NotAbsolute,
    /// The path contains a `..` component.
    ParentTraversal,
}

/// A path is absolute when it starts with the root separator.
pub open spec fn spec_is_absolute(p: Seq<char>) -> bool {
    p.len() > 0 && p[0] == '/'
}

/// A path climbs toward a parent directory when some `..` stands alone
/// between separators (or the path's ends).
pub open spec fn spec_has_parent_component(p: Seq<char>) -> bool {
    exists|i: int|
        0 <= i && i + 2 <= p.len() && #[trigger] p[i] == '.' && p[i + 1] == '.' && (i == 0 || p[i
            - 1] == '/') && (i + 2 == p.len() || p[i + 2] == '/')
}

/// The persistence rule: relative paths are rejected first, then paths with
/// a parent-directory component; everything else may be written.
pub open spec fn spec_validate_path(p: Seq<char>) -> Result<(), PathError> {
    if !spec_is_absolute(p) {
        Err(PathError::NotAbsolute)
    } else if spec_has_parent_component(p) {
        Err(PathError::ParentTraversal)
    } else {
        Ok(())
    }
}

/// Decides `spec_validate_path` for a destination path.
pub fn validate_transcription_path(path: &str) -> (r: Result<(), PathError>)
    ensures
        r == spec_validate_path(path@),
{
    let n = path.unicode_len();
    if n == 0 || path.get_char(0) != '/' {
        return Err(PathError::NotAbsolute);
    }
    let mut i: usize = 0;
    while i < n - 1
        invariant
            n == path@.len(),
            1 <= n,
            path@[0] == '/',
            i <= n,
            forall|m: int|
                0 <= m < i ==> !(m + 2 <= path@.len() && #[trigger] path@[m] == '.' && path@[m + 1]
                    == '.' && (m == 0 || path@[m - 1] == '/') && (m + 2 == path@.len() || path@[m
                    + 2] == '/')),
        decreases n - i,
    {
        let dots = path.get_char(i) == '.' && path.get_char(i + 1) == '.';
        let pre_ok = i == 0 || path.get_char(i - 1) == '/';
        let post_ok = i + 2 == n || path.get_char(i + 2) == '/';
        if dots && pre_ok && post_ok {
            proof {
                assert(spec_has_parent_component(path@));
            }
            return Err(PathError::ParentTraversal);
        }
        i += 1;
    }
    proof {
        assert(!spec_has_parent_component(path@));
    }
    Ok(())
}

} // verus!
