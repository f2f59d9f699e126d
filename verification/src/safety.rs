//! Path safety: the pure check that a relative path drawn from an archive
//! can never resolve outside the chosen destination directory. It rejects
//! absolute paths, parent-directory and current-directory segments, empty
//! segments, trailing separators, embedded null bytes and backslashes
//! (which would be separator-ambiguous on some platforms).

use vstd::prelude::*;

verus! {

/// The path separator byte, `/`.
pub const SLASH: u8 = 47;

/// The `.` byte.
pub const DOT: u8 = 46;

/// The `\` byte, rejected to avoid separator ambiguity.
pub const BACKSLASH: u8 = 92;

/// Index `i` starts a path segment: it is the first byte or follows a
/// separator.
pub open spec fn seg_start(p: Seq<u8>, i: int) -> bool {
    i == 0 || p[i - 1] == SLASH
}

/// Index `i` ends a path segment: it is the last byte or a separator
/// follows it.
pub open spec fn seg_end(p: Seq<u8>, i: int) -> bool {
    i == p.len() - 1 || p[i + 1] == SLASH
}

/// A path is safe to create under a destination: non-empty, relative, with
/// no empty, `.` or `..` segments, no trailing separator, and no null or
/// backslash bytes.
pub open spec fn safe_path(p: Seq<u8>) -> bool {
    &&& p.len() > 0
    &&& p[0] != SLASH
    &&& p[p.len() - 1] != SLASH
    &&& forall|i: int| 0 <= i < p.len() ==> #[trigger] p[i] != 0u8 && p[i] != BACKSLASH
    &&& forall|i: int| 0 <= i < p.len() - 1 ==> !(#[trigger] p[i] == SLASH && p[i + 1] == SLASH)
    &&& forall|i: int|
        0 <= i < p.len() ==> !(#[trigger] p[i] == DOT && seg_start(p, i) && seg_end(p, i))
    &&& forall|i: int|
        0 <= i < p.len() - 1 ==> !(#[trigger] p[i] == DOT && p[i + 1] == DOT && seg_start(p, i)
            && seg_end(p, i + 1))
}

/// Decides `safe_path` for a concrete path.
pub fn is_safe_path(p: &Vec<u8>) -> (r: bool)
    ensures
        r == safe_path(p@),
{
    let n = p.len();
    if n == 0 {
        return false;
    }
    if p[0] == SLASH {
        return false;
    }
    if p[n - 1] == SLASH {
        return false;
    }
    let mut i: usize = 0;
    while i < n
        invariant
            n == p@.len(),
            0 < n,
            p@[0] != SLASH,
            p@[n - 1] != SLASH,
            0 <= i <= n,
            forall|j: int| 0 <= j < i ==> #[trigger] p@[j] != 0u8 && p@[j] != BACKSLASH,
            forall|j: int| 0 <= j < i && j < n - 1 ==> !(#[trigger] p@[j] == SLASH && p@[j + 1] == SLASH),
            forall|j: int|
                0 <= j < i ==> !(#[trigger] p@[j] == DOT && seg_start(p@, j) && seg_end(p@, j)),
            forall|j: int|
                0 <= j < i && j < n - 1 ==> !(#[trigger] p@[j] == DOT && p@[j + 1] == DOT && seg_start(
                    p@,
                    j,
                ) && seg_end(p@, j + 1)),
        decreases n - i,
    {
        let b = p[i];
        if b == 0 || b == BACKSLASH {
            return false;
        }
        if i + 1 < n && b == SLASH && p[i + 1] == SLASH {
            return false;
        }
        let at_start = i == 0 || p[i - 1] == SLASH;
        if b == DOT && at_start {
            let at_end = i == n - 1 || p[i + 1] == SLASH;
            if at_end {
                assert(p@[i as int] == DOT && seg_start(p@, i as int) && seg_end(p@, i as int));
                return false;
            }
            if i + 1 < n && p[i + 1] == DOT {
                let dd_end = i + 1 == n - 1 || p[i + 2] == SLASH;
                if dd_end {
                    assert(p@[i as int] == DOT && p@[i + 1] == DOT && seg_start(p@, i as int)
                        && seg_end(p@, i + 1));
                    return false;
                }
            }
        }
        i = i + 1;
    }
    true
}

} // verus!
