//! Keeping writes inside the backup root: a relative path from the phone may not climb out
//! of the folder it is joined to.

use vstd::prelude::*;
use crate::error::AlbumError;
use crate::text::{chars_of, push_str};
use crate::trash::replaces_on_join;

verus! {

/// A path separator on the app's platform (Windows takes both).
pub open spec fn is_sep(c: char) -> bool {
    c == '/' || c == '\\'
}

/// Depth below the root after one more component: `..` climbs one level, `.` and an empty
/// component (two separators in a row) stay, any other name goes one down.
pub open spec fn depth_after(depth: int, comp: Seq<char>) -> int {
    if comp == seq!['.', '.'] {
        depth - 1
    } else if comp == seq!['.'] || comp.len() == 0 {
        depth
    } else {
        depth + 1
    }
}

/// Walking the components of `s` from the one that starts at `a` (scanned up to `i`),
/// starting `depth` levels below the root, never climbs above the root.
pub open spec fn stays_from(s: Seq<char>, a: int, i: int, depth: int) -> bool
    decreases s.len() - i,
{
    if i >= s.len() {
        depth_after(depth, s.subrange(a, s.len() as int)) >= 0
    } else if is_sep(s[i]) {
        depth_after(depth, s.subrange(a, i)) >= 0 && stays_from(s, i + 1, i + 1, depth_after(
            depth,
            s.subrange(a, i),
        ))
    } else {
        stays_from(s, a, i + 1, depth)
    }
}

/// Joined to the backup root, `rel` names a place inside it: it does not replace the root
/// (no leading separator, no drive) and its `..` components never climb above the root.
pub open spec fn stays_inside(rel: Seq<char>) -> bool {
    !replaces_on_join(rel) && stays_from(rel, 0, 0, 0)
}

/// The error for a path that would leave the backup root.
pub open spec fn escape_message(rel: Seq<char>) -> Seq<char> {
    "路径越出备份目录: "@ + rel
}

fn component_is(cs: &Vec<char>, a: usize, i: usize) -> (r: u8)
    requires
        a <= i <= cs@.len(),
    ensures
        r == 0 <==> cs@.subrange(a as int, i as int) == seq!['.', '.'],
        r == 1 <==> (cs@.subrange(a as int, i as int) == seq!['.'] || i == a),
        r <= 2,
{
    let ghost c = cs@.subrange(a as int, i as int);
    if i - a == 2 && cs[a] == '.' && cs[a + 1] == '.' {
        assert(c =~= seq!['.', '.']);
        0
    } else if i == a || (i - a == 1 && cs[a] == '.') {
        proof {
            if i - a == 1 {
                assert(c =~= seq!['.']);
            }
            assert(c != seq!['.', '.']) by {
                if c =~= seq!['.', '.'] {
                    assert(c.len() == 2);
                }
            }
        }
        1
    } else {
        proof {
            assert(c != seq!['.', '.']) by {
                if c =~= seq!['.', '.'] {
                    assert(c.len() == 2 && c[0] == '.' && c[1] == '.');
                    assert(cs@[a as int] == '.' && cs@[a + 1] == '.');
                }
            }
            assert(c != seq!['.']) by {
                if c =~= seq!['.'] {
                    assert(c.len() == 1 && c[0] == '.');
                    assert(cs@[a as int] == '.');
                }
            }
        }
        2
    }
}

/// Whether `rel`, joined to the backup root, stays inside it (`stays_inside`).
pub fn stays_inside_root(rel: &str) -> (r: bool)
    ensures
        r == stays_inside(rel@),
{
    let cs = chars_of(rel);
    let n = cs.len();
    let rooted = (n > 0 && (cs[0] == '/' || cs[0] == '\\')) || (n >= 2 && cs[1] == ':' && (('a' <= cs[0]
        && cs[0] <= 'z') || ('A' <= cs[0] && cs[0] <= 'Z')));
    if rooted {
        return false;
    }
    let mut depth: usize = 0;
    let mut a: usize = 0;
    let mut i: usize = 0;
    while i < n
        invariant
            a <= i <= n,
            n == cs@.len(),
            cs@ == rel@,
            depth <= i,
            stays_from(cs@, 0, 0, 0) == stays_from(cs@, a as int, i as int, depth as int),
        decreases n - i,
    {
        if cs[i] == '/' || cs[i] == '\\' {
            let k = component_is(&cs, a, i);
            if k == 0 {
                if depth == 0 {
                    return false;
                }
                depth = depth - 1;
            } else if k == 2 {
                depth = depth + 1;
            }
            a = i + 1;
        }
        i = i + 1;
    }
    let k = component_is(&cs, a, n);
    !(k == 0 && depth == 0)
}

/// Refuses a path from the phone that would put a file outside the backup root.
pub fn guard_rel_path(rel: &str) -> (r: Result<(), AlbumError>)
    ensures
        stays_inside(rel@) ==> r is Ok,
        !stays_inside(rel@) ==> (r matches Err(AlbumError::Other(m)) && m@ == escape_message(rel@)),
{
    if stays_inside_root(rel) {
        Ok(())
    } else {
        let mut m = String::new();
        push_str(&mut m, "路径越出备份目录: ");
        push_str(&mut m, rel);
        Err(AlbumError::Other(m))
    }
}

} // verus!
