//! One file of a tree, as a crawl records it.

use vstd::prelude::*;
use vstd::string::StringExecFns;
use crate::path::{file_name, file_name_of, is_component, is_dir_prefix, lemma_file_name_of_concat};

verus! {

/// What a listing says, as plain values.
pub struct ListingView {
    /// Bytes in the file.
    pub size: u64,
    /// Final component of the path.
    pub name: Seq<char>,
    /// Path from the root of the tree to the file.
    pub relative_path: Seq<char>,
}

/// Two listings stand for the same file when size, name and relative path
/// all agree.
pub open spec fn equivalent(a: ListingView, b: ListingView) -> bool {
    a.size == b.size && a.name == b.name && a.relative_path == b.relative_path
}

/// A listing names a file: its name is the final component of its relative
/// path, and is not empty.
pub open spec fn well_formed(l: ListingView) -> bool {
    l.name.len() > 0 && l.name == file_name(l.relative_path)
}

/// As the name follows from the path, two well-formed listings are
/// equivalent exactly when relative path and size agree.
pub proof fn lemma_equivalence_is_keyed(a: ListingView, b: ListingView)
    requires
        well_formed(a),
        well_formed(b),
    ensures
        equivalent(a, b) <==> (a.relative_path == b.relative_path && a.size == b.size),
        equivalent(a, b) <==> a == b,
{
}

/// One file found below the root of a tree.
#[derive(Debug)]
pub struct FileListing {
    size: u64,
    name: String,
    relative_path: String,
}

impl View for FileListing {
    type V = ListingView;

    closed spec fn view(&self) -> ListingView {
        ListingView { size: self.size, name: self.name@, relative_path: self.relative_path@ }
    }
}

impl FileListing {
    /// Every listing is well-formed.
    #[verifier::type_invariant]
    pub open spec fn is_well_formed(self) -> bool {
        well_formed(self@)
    }

    /// The listing of the file at `relative_path` with `size` bytes. There is
    /// none where the path names no file: where it is empty or ends with a
    /// separator.
    pub fn new(relative_path: &str, size: u64) -> (r: Option<FileListing>)
        ensures
            r is Some <==> file_name(relative_path@).len() > 0,
            r matches Some(l) ==> l@ == (ListingView {
                size,
                name: file_name(relative_path@),
                relative_path: relative_path@,
            }),
    {
        let name = file_name_of(relative_path);
        if name.as_str().unicode_len() == 0 {
            None
        } else {
            Some(FileListing { size, name, relative_path: String::from_str(relative_path) })
        }
    }

    /// The listing of the file `name` of `size` bytes in the directory with
    /// the prefix `dir`.
    pub(crate) fn in_directory(dir: &str, name: &str, size: u64) -> (l: FileListing)
        requires
            is_dir_prefix(dir@),
            is_component(name@),
        ensures
            l@ == (ListingView { size, name: name@, relative_path: dir@ + name@ }),
    {
        proof {
            lemma_file_name_of_concat(dir@, name@);
        }
        let mut relative_path = String::from_str(dir);
        relative_path.append(name);
        FileListing { size, name: String::from_str(name), relative_path }
    }

    /// Bytes in the file.
    pub fn size(&self) -> (r: u64)
        ensures
            r == self@.size,
    {
        self.size
    }

    /// Final component of the path.
    pub fn name(&self) -> (r: &str)
        ensures
            r@ == self@.name,
    {
        self.name.as_str()
    }

    /// Path from the root of the tree to the file.
    pub fn relative_path(&self) -> (r: &str)
        ensures
            r@ == self@.relative_path,
    {
        self.relative_path.as_str()
    }

    /// Whether `self` and `other` stand for the same file: size, name and
    /// relative path all agree.
    pub fn equivalent_to(&self, other: &Self) -> (r: bool)
        ensures
            r == equivalent(self@, other@),
    {
        self.size == other.size && self.name == other.name && self.relative_path
            == other.relative_path
    }
}

impl Clone for FileListing {
    fn clone(&self) -> (r: Self)
        ensures
            r@ == self@,
    {
        proof {
            use_type_invariant(self);
        }
        FileListing {
            size: self.size,
            name: self.name.clone(),
            relative_path: self.relative_path.clone(),
        }
    }
}

} // verus!
