//! Relative paths as text: components joined by one separator.
//!
//! A path is a sequence of characters. Its *file name* is what follows the
//! last separator, its *directory prefix* is everything up to and including
//! that separator. A directory prefix is therefore either empty (the root of
//! a tree) or ends with the separator, and a path is always its directory
//! prefix followed by its file name.

use vstd::prelude::*;
use vstd::string::StringExecFns;

verus! {

/// The separator between the components of a path.
pub const SEPARATOR: char = '/';

/// Whether the separator occurs in `s`.
pub open spec fn has_separator(s: Seq<char>) -> bool {
    exists|i: int| 0 <= i < s.len() && s[i] == SEPARATOR
}

/// A single path component: not empty, and free of separators.
pub open spec fn is_component(s: Seq<char>) -> bool {
    s.len() > 0 && !has_separator(s)
}

/// Text that can stand in front of a file name: empty, or closed by a separator.
pub open spec fn is_dir_prefix(d: Seq<char>) -> bool {
    d.len() == 0 || d.last() == SEPARATOR
}

/// The final component of `path`: what follows its last separator, and the
/// whole of `path` where it has none.
pub open spec fn file_name(path: Seq<char>) -> Seq<char>
    decreases path.len(),
{
    if path.len() == 0 || path.last() == SEPARATOR {
        Seq::empty()
    } else {
        file_name(path.drop_last()).push(path.last())
    }
}

/// What stands in front of the file name of `path`.
pub open spec fn dir_prefix(path: Seq<char>) -> Seq<char> {
    path.take(path.len() - file_name(path).len())
}

/// `rel` below `root`: one separator is put between the two unless `root`
/// is empty or already ends with one.
pub open spec fn joined(root: Seq<char>, rel: Seq<char>) -> Seq<char> {
    if is_dir_prefix(root) {
        root + rel
    } else {
        root.push(SEPARATOR) + rel
    }
}

/// The file name is a separator-free suffix of the path, and what precedes
/// it is a directory prefix.
pub proof fn lemma_file_name_splits(path: Seq<char>)
    ensures
        file_name(path).len() <= path.len(),
        !has_separator(file_name(path)),
        is_dir_prefix(dir_prefix(path)),
        dir_prefix(path) + file_name(path) == path,
    decreases path.len(),
{
    if path.len() > 0 && path.last() != SEPARATOR {
        let shorter = path.drop_last();
        lemma_file_name_splits(shorter);
        let name = file_name(path);
        assert forall|i: int| 0 <= i < name.len() implies name[i] != SEPARATOR by {}
        assert(dir_prefix(path) + file_name(path) =~= path) by {
            assert(path =~= shorter.push(path.last()));
        }
    }
}

/// A path put together from a directory prefix and a separator-free name
/// has that name as its file name and that prefix as its directory prefix.
pub proof fn lemma_file_name_of_concat(dir: Seq<char>, name: Seq<char>)
    requires
        is_dir_prefix(dir),
        !has_separator(name),
    ensures
        file_name(dir + name) == name,
        dir_prefix(dir + name) == dir,
    decreases name.len(),
{
    if name.len() > 0 {
        let shorter = name.drop_last();
        assert forall|i: int| 0 <= i < shorter.len() implies shorter[i] != SEPARATOR by {}
        lemma_file_name_of_concat(dir, shorter);
        assert((dir + name).drop_last() =~= dir + shorter);
    }
}

/// Whether `name` contains the separator.
pub fn contains_separator(name: &str) -> (r: bool)
    ensures
        r == has_separator(name@),
{
    let mut found = false;
    for c in it: name.chars()
        invariant
            it.seq() == name@,
            found == exists|i: int| 0 <= i < it.index() && name@[i] == SEPARATOR,
    {
        if c == SEPARATOR {
            found = true;
        }
    }
    found
}

/// The number of characters that stand in front of the file name of `path`,
/// together with the number of characters of `path`.
fn split_point(path: &str) -> (r: (usize, usize))
    ensures
        r.0 == dir_prefix(path@).len(),
        r.1 == path@.len(),
        r.0 <= r.1,
{
    let len = path.unicode_len();
    let mut start: usize = 0;
    let mut seen: usize = 0;
    for c in it: path.chars()
        invariant
            it.seq() == path@,
            len == path@.len(),
            seen == it.index(),
            start <= seen <= len,
            start == seen - file_name(path@.take(seen as int)).len(),
    {
        proof {
            assert(path@.take(seen + 1).drop_last() =~= path@.take(seen as int));
        }
        seen = seen + 1;
        if c == SEPARATOR {
            start = seen;
        }
    }
    proof {
        assert(path@.take(seen as int) =~= path@);
        lemma_file_name_splits(path@);
    }
    (start, len)
}

/// The final component of `path`.
pub fn file_name_of(path: &str) -> (name: String)
    ensures
        name@ == file_name(path@),
{
    let (start, len) = split_point(path);
    proof {
        lemma_file_name_splits(path@);
        assert(path@.subrange(start as int, len as int) =~= file_name(path@));
    }
    String::from_str(path.substring_char(start, len))
}

/// What stands in front of the final component of `path`: the directory that
/// holds it, closed by a separator, or nothing where `path` is a bare name.
pub fn dir_prefix_of(path: &str) -> (dir: String)
    ensures
        dir@ == dir_prefix(path@),
{
    let (start, _len) = split_point(path);
    proof {
        lemma_file_name_splits(path@);
    }
    String::from_str(path.substring_char(0, start))
}

/// Whether `text` is empty or ends with a separator.
pub fn ends_dir_prefix(text: &str) -> (r: bool)
    ensures
        r == is_dir_prefix(text@),
{
    let mut r = true;
    for c in it: text.chars()
        invariant
            it.seq() == text@,
            r == is_dir_prefix(text@.take(it.index())),
    {
        r = c == SEPARATOR;
    }
    r
}

/// Closes `text` with a separator.
pub fn push_separator(text: &mut String)
    ensures
        final(text)@ == old(text)@.push(SEPARATOR),
{
    proof {
        reveal_strlit("/");
    }
    text.append("/");
}

/// The path of `rel` below `root`.
pub fn join(root: &str, rel: &str) -> (path: String)
    ensures
        path@ == joined(root@, rel@),
{
    let mut path = String::from_str(root);
    if !ends_dir_prefix(root) {
        push_separator(&mut path);
    }
    path.append(rel);
    path
}

} // verus!
