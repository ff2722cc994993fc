//! Classification of filesystem events for the document feed: only markdown
//! files take part in indexing, and a path that no longer exists is a removal.

use crate::text::chars_of;
use vstd::prelude::*;

verus! {

/// A change reported by the filesystem feed, reduced to the path it concerns.
#[derive(Debug, Clone)]
pub enum FileEvent {
    Created(String),
    Modified(String),
    Deleted(String),
}

/// The path without its trailing separators: `a.md/` names the same file
/// as `a.md`.
pub open spec fn strip_trailing_seps(s: Seq<char>) -> Seq<char>
    decreases s.len(),
{
    if s.len() > 0 && s[s.len() - 1] == '/' {
        strip_trailing_seps(s.drop_last())
    } else {
        s
    }
}

/// The (separator-free) path names a markdown file: it ends in `.md`,
/// compared case-insensitively, and the dot does not begin the file name (a
/// bare `.md` is a hidden file, not an extension).
pub open spec fn md_file_name(s: Seq<char>) -> bool {
    &&& s.len() >= 4
    &&& s[s.len() - 3] == '.'
    &&& (s[s.len() - 2] == 'm' || s[s.len() - 2] == 'M')
    &&& (s[s.len() - 1] == 'd' || s[s.len() - 1] == 'D')
    &&& s[s.len() - 4] != '/'
}

/// Holds when the path's final component has the extension `md`, trailing
/// separators ignored.
pub open spec fn is_md_path(s: Seq<char>) -> bool {
    md_file_name(strip_trailing_seps(s))
}

proof fn lemma_strip_seps_skip(s: Seq<char>, b: int)
    requires
        0 <= b <= s.len(),
        forall|j: int| b <= j < s.len() ==> s[j] == '/',
    ensures
        strip_trailing_seps(s) == strip_trailing_seps(s.subrange(0, b)),
    decreases s.len() - b,
{
    if b == s.len() {
        assert(s.subrange(0, s.len() as int) =~= s);
    } else {
        assert(s[s.len() - 1] == '/');
        assert(s.drop_last() =~= s.subrange(0, s.len() - 1));
        lemma_strip_seps_skip(s.drop_last(), b);
        assert(s.drop_last().subrange(0, b) =~= s.subrange(0, b));
    }
}

/// Decides whether a path names a markdown file.
pub fn is_markdown_file(path: &str) -> (r: bool)
    ensures
        r == is_md_path(path@),
{
    let cs = chars_of(path);
    let mut n = cs.len();
    while n > 0 && cs[n - 1] == '/'
        invariant
            cs@ == path@,
            n <= path@.len(),
            forall|j: int| n <= j < path@.len() ==> path@[j] == '/',
        decreases n,
    {
        n -= 1;
    }
    let ghost bare = path@.subrange(0, n as int);
    proof {
        lemma_strip_seps_skip(path@, n as int);
        if n > 0 {
            assert(bare.len() > 0 && bare[bare.len() - 1] != '/');
        } else {
            assert(bare.len() == 0);
        }
        assert(strip_trailing_seps(bare) == bare);
        assert(is_md_path(path@) == md_file_name(bare));
    }
    if n < 4 {
        return false;
    }
    let dot = cs[n - 3];
    let c1 = cs[n - 2];
    let c2 = cs[n - 1];
    let before = cs[n - 4];
    proof {
        assert(bare[bare.len() - 3] == path@[n - 3]);
        assert(bare[bare.len() - 2] == path@[n - 2]);
        assert(bare[bare.len() - 1] == path@[n - 1]);
        assert(bare[bare.len() - 4] == path@[n - 4]);
    }
    dot == '.' && (c1 == 'm' || c1 == 'M') && (c2 == 'd' || c2 == 'D') && before != '/'
}

/// Turns one raw filesystem notification into an indexing event: non-markdown
/// paths are ignored, and existence at the time of the event decides between a
/// modification and a deletion.
pub fn classify_event(path: String, exists: bool) -> (r: Option<FileEvent>)
    ensures
        !is_md_path(path@) ==> r is None,
        is_md_path(path@) && exists ==> (r matches Some(e) && (e matches FileEvent::Modified(p)
            && p@ == path@)),
        is_md_path(path@) && !exists ==> (r matches Some(e) && (e matches FileEvent::Deleted(p)
            && p@ == path@)),
{
    if !is_markdown_file(path.as_str()) {
        return None;
    }
    if exists {
        Some(FileEvent::Modified(path))
    } else {
        Some(FileEvent::Deleted(path))
    }
}

} // verus!
