//! The listing of one tree: its files, no relative path twice.

use vstd::prelude::*;
use vstd::hash_set::StringHashSet;
use vstd::string::StringExecFns;
use crate::listing::{well_formed, FileListing, ListingView};

verus! {

/// No two listings of `s` share a relative path.
pub open spec fn unique_paths(s: Seq<ListingView>) -> bool {
    forall|i: int, j: int|
        0 <= i < j < s.len() ==> (#[trigger] s[i]).relative_path != (#[trigger] s[j]).relative_path
}

/// Every listing of `s` is well-formed.
pub open spec fn all_well_formed(s: Seq<ListingView>) -> bool {
    forall|i: int| 0 <= i < s.len() ==> well_formed(#[trigger] s[i])
}

/// What holds of the listing of a tree: well-formed entries, and no
/// relative path twice.
pub open spec fn is_snapshot(s: Seq<ListingView>) -> bool {
    unique_paths(s) && all_well_formed(s)
}

/// Whether some listing of `s` has the relative path `path`.
pub open spec fn has_path(s: Seq<ListingView>, path: Seq<char>) -> bool {
    exists|i: int| 0 <= i < s.len() && (#[trigger] s[i]).relative_path == path
}

/// The listings of `v` as plain values, in the same order.
pub open spec fn views(v: Seq<FileListing>) -> Seq<ListingView> {
    v.map_values(|l: FileListing| l@)
}

/// The files of one tree. The order is that of discovery and carries no
/// meaning.
#[derive(Debug)]
pub struct Snapshot {
    entries: Vec<FileListing>,
}

impl View for Snapshot {
    type V = Seq<ListingView>;

    closed spec fn view(&self) -> Seq<ListingView> {
        views(self.entries@)
    }
}

impl Snapshot {
    /// Every snapshot holds well-formed listings with distinct relative paths.
    #[verifier::type_invariant]
    pub open spec fn is_valid(self) -> bool {
        is_snapshot(self@)
    }

    /// The snapshot of a tree without files.
    pub fn new() -> (s: Snapshot)
        ensures
            s@ == Seq::<ListingView>::empty(),
    {
        Snapshot { entries: Vec::new() }
    }

    /// The snapshot that holds `listings`, in their order. There is none
    /// where two of them share a relative path.
    pub fn from_listings(listings: Vec<FileListing>) -> (r: Option<Snapshot>)
        ensures
            r is Some <==> unique_paths(views(listings@)),
            r matches Some(s) ==> s@ == views(listings@),
    {
        let ghost all = views(listings@);
        let mut seen = StringHashSet::new();
        let mut i: usize = 0;
        while i < listings.len()
            invariant
                i <= listings.len(),
                all == views(listings@),
                is_snapshot(all.take(i as int)),
                forall|p: Seq<char>| seen@.contains(p) <==> has_path(all.take(i as int), p),
            decreases listings.len() - i,
        {
            let listing = &listings[i];
            proof {
                use_type_invariant(listing);
            }
            let ghost before = all.take(i as int);
            let ghost after = all.take(i + 1);
            assert(all[i as int] == listing@);
            let fresh = seen.insert(String::from_str(listing.relative_path()));
            if !fresh {
                proof {
                    // An earlier listing has the path of this one.
                    let k = choose|k: int|
                        0 <= k < before.len() && (#[trigger] before[k]).relative_path
                            == listing@.relative_path;
                    assert(all[k].relative_path == all[i as int].relative_path);
                }
                return None;
            }
            proof {
                assert forall|p: Seq<char>| seen@.contains(p) <==> has_path(after, p) by {
                    if has_path(after, p) {
                        let k = choose|k: int|
                            0 <= k < after.len() && (#[trigger] after[k]).relative_path == p;
                        assert(k < i ==> before[k] == after[k]);
                    }
                    if has_path(before, p) {
                        let k = choose|k: int|
                            0 <= k < before.len() && (#[trigger] before[k]).relative_path == p;
                        assert(after[k] == before[k]);
                    }
                    if p == listing@.relative_path {
                        assert(after[i as int].relative_path == p);
                    }
                }
                assert(unique_paths(after)) by {
                    assert forall|a: int| 0 <= a < i implies after[a] == before[a] by {}
                }
            }
            i = i + 1;
        }
        assert(all.take(i as int) =~= all);
        Some(Snapshot { entries: listings })
    }

    /// A snapshot is small enough to count.
    pub proof fn lemma_len_fits(&self)
        ensures
            self@.len() <= usize::MAX,
    {
        assert(self@.len() == self.entries.len());
    }

    /// The number of files.
    pub fn len(&self) -> (n: usize)
        ensures
            n == self@.len(),
    {
        self.entries.len()
    }

    /// Whether the tree holds no file.
    pub fn is_empty(&self) -> (r: bool)
        ensures
            r == (self@.len() == 0),
    {
        self.entries.len() == 0
    }

    /// The listing at position `i`.
    pub fn get(&self, i: usize) -> (l: &FileListing)
        requires
            i < self@.len(),
        ensures
            l@ == self@[i as int],
    {
        &self.entries[i]
    }

    /// The snapshot with one more file, whose relative path it did not hold
    /// yet.
    pub(crate) fn with(self, listing: FileListing) -> (s: Snapshot)
        requires
            !has_path(self@, listing@.relative_path),
        ensures
            s@ == self@.push(listing@),
    {
        proof {
            use_type_invariant(&self);
            use_type_invariant(&listing);
        }
        let ghost before = self@;
        let mut entries = self.entries;
        entries.push(listing);
        proof {
            let after = views(entries@);
            assert(after =~= before.push(listing@));
            assert(unique_paths(after)) by {
                assert forall|a: int| 0 <= a < before.len() implies after[a] == before[a] by {}
            }
        }
        Snapshot { entries }
    }
}

} // verus!
