//! Classification of a path segment as directory-like or file-like.
//!
//! The naming heuristic of the tool: a resolved path is directory-like iff
//! its final segment has no recognizable extension and does not start with
//! the dotfile marker.  Dotfiles (`.gitignore`) and extensioned names
//! (`main.rs`) are file-like.  The heuristic is inherently ambiguous (a
//! directory deliberately named `v1.2` is misread as a file); it is kept
//! for the terseness of the input notation.

use vstd::prelude::*;

verus! {

/// The segment starts with the dotfile marker.
pub open spec fn starts_with_dot(s: Seq<char>) -> bool {
    s.len() > 0 && s[0] == '.'
}

/// The segment has a recognizable extension: a dot strictly after the
/// first character (so `.gitignore` has none, `a.b` and `x.` have one).
pub open spec fn has_extension(s: Seq<char>) -> bool {
    exists|i: int| 1 <= i < s.len() && s[i] == '.'
}

/// Directory-like iff no extension and not a dotfile.
pub open spec fn dir_like(s: Seq<char>) -> bool {
    !has_extension(s) && !starts_with_dot(s)
}

/// A whole path is classified by its final segment alone.
pub open spec fn path_dir_like(p: Seq<Seq<char>>) -> bool
    recommends
        p.len() > 0,
{
    dir_like(p.last())
}

/// The heuristic, spelled out: a segment is directory-like exactly when it
/// contains no dot at all.
pub proof fn lemma_dir_like_no_dot(s: Seq<char>)
    ensures
        dir_like(s) <==> (forall|i: int| 0 <= i < s.len() ==> s[i] != '.'),
{
    if forall|i: int| 0 <= i < s.len() ==> s[i] != '.' {
        assert(!starts_with_dot(s));
        assert(!has_extension(s));
    }
}

/// Classification is a pure function of the final path segment: two paths
/// ending in the same segment text are classified identically, whatever
/// stands before it.
pub proof fn lemma_classification_pure(p1: Seq<Seq<char>>, p2: Seq<Seq<char>>)
    requires
        p1.len() > 0,
        p2.len() > 0,
        p1.last() == p2.last(),
    ensures
        path_dir_like(p1) == path_dir_like(p2),
{
}

/// Decides whether a segment is directory-like.
pub fn classify_segment(seg: &str) -> (r: bool)
    ensures
        r == dir_like(seg@),
{
    let n = seg.unicode_len();
    let mut i: usize = 0;
    while i < n
        invariant
            n == seg@.len(),
            i <= n,
            forall|j: int| 0 <= j < i ==> seg@[j] != '.',
        decreases n - i,
    {
        if seg.get_char(i) == '.' {
            return false;
        }
        i += 1;
    }
    true
}

} // verus!
