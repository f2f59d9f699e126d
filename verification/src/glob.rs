//! Glob-style pattern matching for ignore rules: a pattern is a byte
//! string in which `*` matches any (possibly empty) run of bytes and
//! every other byte matches itself.

use vstd::prelude::*;

verus! {

/// The `*` wildcard byte.
pub const STAR: u8 = 42;

/// Whether pattern `pat` matches the whole string `s`.
pub open spec fn glob_match(pat: Seq<u8>, s: Seq<u8>) -> bool
    decreases pat.len() + s.len(),
{
    if pat.len() == 0 {
        s.len() == 0
    } else if pat[0] == STAR {
        glob_match(pat.skip(1), s) || (s.len() > 0 && glob_match(pat, s.skip(1)))
    } else {
        s.len() > 0 && pat[0] == s[0] && glob_match(pat.skip(1), s.skip(1))
    }
}

/// Decides `glob_match` on the suffixes of `pat` and `s` starting at
/// `pi` and `si`.
fn glob_matches_at(pat: &Vec<u8>, s: &Vec<u8>, pi: usize, si: usize) -> (r: bool)
    requires
        pi <= pat@.len(),
        si <= s@.len(),
    ensures
        r == glob_match(pat@.skip(pi as int), s@.skip(si as int)),
    decreases pat@.len() - pi + s@.len() - si,
{
    let ghost sp = pat@.skip(pi as int);
    let ghost ss = s@.skip(si as int);
    if pi == pat.len() {
        return si == s.len();
    }
    assert(sp[0] == pat@[pi as int]);
    if pat[pi] == STAR {
        proof {
            assert(sp.skip(1) =~= pat@.skip(pi + 1));
        }
        if glob_matches_at(pat, s, pi + 1, si) {
            return true;
        }
        if si < s.len() {
            proof {
                assert(ss.skip(1) =~= s@.skip(si + 1));
            }
            if glob_matches_at(pat, s, pi, si + 1) {
                return true;
            }
        }
        return false;
    }
    if si == s.len() {
        return false;
    }
    assert(ss[0] == s@[si as int]);
    if pat[pi] != s[si] {
        return false;
    }
    proof {
        assert(sp.skip(1) =~= pat@.skip(pi + 1));
        assert(ss.skip(1) =~= s@.skip(si + 1));
    }
    glob_matches_at(pat, s, pi + 1, si + 1)
}

/// Decides `glob_match` for a whole pattern and string.
pub fn glob_matches(pat: &Vec<u8>, s: &Vec<u8>) -> (r: bool)
    ensures
        r == glob_match(pat@, s@),
{
    proof {
        assert(pat@.skip(0) =~= pat@);
        assert(s@.skip(0) =~= s@);
    }
    glob_matches_at(pat, s, 0, 0)
}

} // verus!
