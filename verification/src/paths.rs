// Path helpers for filesystem traversal: the directory a scan starts from
// and the forward-slash form of a path.

use crate::globber::ScanHint;
use crate::text::{push_char, str_to_chars};
use vstd::prelude::*;

verus! {

/// `p` with every backslash replaced by `/`.
pub open spec fn forward_slashes(p: Seq<char>) -> Seq<char> {
    p.map_values(|c: char| if c == '\\' { '/' } else { c })
}

/// Rewrites `p` to use forward slashes only.
pub fn normalize(p: &str) -> (r: String)
    ensures
        r@ == forward_slashes(p@),
{
    let cs = str_to_chars(p);
    let mut out = String::new();
    let mut i: usize = 0;
    while i < cs.len()
        invariant
            i <= cs.len(),
            cs@ == p@,
            out@ == forward_slashes(p@.take(i as int)),
        decreases cs.len() - i,
    {
        let c = cs[i];
        if c == '\\' {
            push_char(&mut out, '/');
        } else {
            push_char(&mut out, c);
        }
        assert(p@.take(i + 1) =~= p@.take(i as int).push(c));
        assert(forward_slashes(p@.take(i + 1)) =~= forward_slashes(p@.take(i as int)).push(
            if c == '\\' { '/' } else { c },
        ));
        i = i + 1;
    }
    assert(p@.take(cs.len() as int) =~= p@);
    out
}

/// The directory a scan starts from: the hint's root, or `.` when the root
/// is empty.
pub fn traversal_root<'a>(hint: &ScanHint<'a>) -> (r: &'a str)
    ensures
        r@ == if hint.root@.len() == 0 { "."@ } else { hint.root@ },
{
    if hint.root.is_empty() {
        "."
    } else {
        hint.root
    }
}

} // verus!
