//! The upload path guard: a stored filename must be exactly one normal
//! path component, so traversal strings such as `../../etc/passwd` are
//! rejected before any file is written.

use vstd::prelude::*;
use vstd::string::StrSliceExecFns;

verus! {

/// The index of the first separator in `s` at or after `i`, or the length
/// when there is none.
pub open spec fn first_sep_from(s: Seq<char>, i: int) -> int
    decreases s.len() - i,
{
    if i >= s.len() {
        s.len() as int
    } else if s[i] == '/' {
        i
    } else {
        first_sep_from(s, i + 1)
    }
}

/// A path that names exactly one normal component: it does not start with
/// a separator, its first segment is neither `.` nor `..`, and whatever
/// follows the first segment is only separators and lone `.` segments,
/// which path normalization drops. This is how a path with exactly one
/// normal component, and a normal first component, reads character by
/// character.
pub open spec fn path_is_valid_spec(s: Seq<char>) -> bool {
    let k = first_sep_from(s, 0);
    &&& 0 < k
    &&& !(k == 1 && s[0] == '.')
    &&& !(k == 2 && s[0] == '.' && s[1] == '.')
    &&& forall|j: int|
        k <= j < s.len() ==> ((#[trigger] s[j]) == '/' || (s[j] == '.' && s[j - 1] == '/'))
}

/// Whether `path` is acceptable as a stored upload filename: exactly one
/// normal path component.
pub fn path_is_valid(path: &str) -> (r: bool)
    ensures
        r == path_is_valid_spec(path@),
{
    let n = path.unicode_len();
    let mut k: usize = 0;
    loop
        invariant_except_break
            k <= n,
            n == path@.len(),
            first_sep_from(path@, 0) == first_sep_from(path@, k as int),
        ensures
            k <= n,
            n == path@.len(),
            k as int == first_sep_from(path@, 0),
        decreases n - k,
    {
        if k == n {
            break ;
        }
        if path.get_char(k) == '/' {
            break ;
        }
        k = k + 1;
    }
    if k == 0 {
        return false;
    }
    if k == 1 && path.get_char(0) == '.' {
        return false;
    }
    if k == 2 && path.get_char(0) == '.' && path.get_char(1) == '.' {
        return false;
    }
    let mut j: usize = k;
    while j < n
        invariant
            k <= j <= n,
            n == path@.len(),
            0 < k,
            k as int == first_sep_from(path@, 0),
            forall|m: int|
                k <= m < j ==> ((#[trigger] path@[m]) == '/' || (path@[m] == '.' && path@[m - 1]
                    == '/')),
        decreases n - j,
    {
        let c = path.get_char(j);
        if c == '/' {
        } else if c == '.' {
            if path.get_char(j - 1) != '/' {
                return false;
            }
        } else {
            return false;
        }
        j = j + 1;
    }
    true
}

} // verus!
