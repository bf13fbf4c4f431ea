//! Paths as texts.
//!
//! The paths that the server works on are absolute and in canonical form:
//! components with one slash between them, none of them `.` or `..`. What a
//! path is under, what its file is called and what extension the file has are
//! read off the characters.

use crate::text::chars_vec;
use crate::text::index_of;
use crate::text::is_item;
use crate::text::lemma_position_is;
use crate::text::string_from_chars;
use vstd::prelude::*;

verus! {

/// The index of the last `c` in `s`, or -1 where there is none.
pub open spec fn last_index_of(s: Seq<char>, c: char) -> int {
    s.len() - 1 - index_of(s.reverse(), c)
}

/// The name of the file of a path: what stands behind its last slash, or all
/// of it where it has no slash.
pub open spec fn file_name(path: Seq<char>) -> Seq<char> {
    path.skip(last_index_of(path, '/') + 1)
}

/// The extension of the file of a path: what stands behind the last dot of
/// the name of the file. A name without a dot has the empty extension, and
/// so has a name whose only dot is its first character.
pub open spec fn extension(path: Seq<char>) -> Seq<char> {
    let name = file_name(path);
    let dot = last_index_of(name, '.');
    if dot <= 0 {
        Seq::<char>::empty()
    } else {
        name.skip(dot + 1)
    }
}

/// Whether a path is the path `root` or lies under it: it begins with `root`,
/// and what follows `root` in it, if anything, begins a new component.
pub open spec fn path_under(path: Seq<char>, root: Seq<char>) -> bool {
    &&& root.len() <= path.len()
    &&& path.take(root.len() as int) == root
    &&& root.len() == 0 || root.len() == path.len() || root.last() == '/' || path[root.len() as int]
        == '/'
}

/// The index behind the last `c`, or 0 where there is none.
fn after_last(s: &Vec<char>, c: char) -> (r: usize)
    ensures
        r == last_index_of(s@, c) + 1,
        r <= s@.len(),
{
    let end = s.len();
    let mut i: usize = end;
    while i > 0 && s[i - 1] != c
        invariant
            i <= end == s@.len(),
            forall|k: int| i <= k < end ==> s@[k] != c,
        decreases i,
    {
        i -= 1;
    }
    proof {
        let t = s@.reverse();
        assert forall|k: int| 0 <= k < end - i implies !is_item(c)(#[trigger] t[k]) by {
            assert(t[k] == s@[end - 1 - k]);
        }
        if i > 0 {
            assert(t[end - i] == s@[i - 1]);
        }
        lemma_position_is(t, is_item(c), end - i);
    }
    i
}

/// The name of the file of a path.
pub fn file_name_of(path: &str) -> (r: String)
    ensures
        r@ == file_name(path@),
{
    let chars = chars_vec(path);
    let from = after_last(&chars, '/');
    let name = crate::text::copy_chars(chars.as_slice(), from, chars.len());
    proof {
        assert(name@ =~= file_name(path@));
    }
    string_from_chars(name.as_slice())
}

/// The extension of the file of a path.
pub fn extension_of(path: &str) -> (r: String)
    ensures
        r@ == extension(path@),
{
    let name = file_name_of(path);
    let chars = chars_vec(name.as_str());
    let from = after_last(&chars, '.');
    if from <= 1 {
        String::new()
    } else {
        let ext = crate::text::copy_chars(chars.as_slice(), from, chars.len());
        proof {
            assert(ext@ =~= extension(path@));
        }
        string_from_chars(ext.as_slice())
    }
}

/// Tells whether a path is the path `root` or lies under it.
pub fn is_under(path: &str, root: &str) -> (r: bool)
    ensures
        r == path_under(path@, root@),
{
    let p = chars_vec(path);
    let b = chars_vec(root);
    if b.len() > p.len() {
        return false;
    }
    let mut i: usize = 0;
    while i < b.len()
        invariant
            i <= b@.len() <= p@.len(),
            forall|k: int| 0 <= k < i ==> p@[k] == b@[k],
            p@ == path@,
            b@ == root@,
        decreases b@.len() - i,
    {
        if p[i] != b[i] {
            proof {
                assert(path@.take(root@.len() as int)[i as int] != root@[i as int]);
            }
            return false;
        }
        i += 1;
    }
    proof {
        assert(path@.take(root@.len() as int) =~= root@);
    }
    b.len() == 0 || b.len() == p.len() || b[b.len() - 1] == '/' || p[b.len()] == '/'
}

} // verus!
