//! Walks a tree, one directory at a time, into a snapshot of its files.
//!
//! The crawler reads nothing itself. It names the directory to read next;
//! whoever drives it reads that directory and hands back what it holds, or
//! the failure. The crawler keeps a work list of directories still to
//! read, each as the prefix that the paths below it start with: empty for
//! the root, and closed by a separator for every other directory.

use vstd::prelude::*;
use vstd::hash_set::StringHashSet;
use vstd::string::StringExecFns;
use crate::failure::IoFailure;
use crate::listing::{well_formed, FileListing, ListingView};
use crate::path::{
    contains_separator, has_separator, is_component, is_dir_prefix, lemma_file_name_of_concat,
    push_separator, SEPARATOR,
};
use crate::snapshot::{has_path, is_snapshot, Snapshot};

verus! {

/// What was found at the path given as the root of a tree.
#[derive(Clone, Copy, PartialEq, Eq, Debug)]
pub enum RootStatus {
    /// Nothing is there.
    Missing,
    /// Something is there, and it is not a directory.
    NotDirectory,
    /// A directory.
    Directory,
}

/// What an entry of a directory is.
#[derive(Clone, Copy, PartialEq, Eq, Debug)]
pub enum EntryKind {
    /// A file of `size` bytes.
    File { size: u64 },
    /// A directory.
    Directory,
}

/// One entry of a directory, as read.
#[derive(Debug)]
pub struct DirEntry {
    /// The name of the entry within its directory.
    pub name: String,
    /// File or directory.
    pub kind: EntryKind,
}

/// An entry as plain values.
pub struct EntryView {
    /// The name of the entry within its directory.
    pub name: Seq<char>,
    /// File or directory.
    pub kind: EntryKind,
}

impl View for DirEntry {
    type V = EntryView;

    open spec fn view(&self) -> EntryView {
        EntryView { name: self.name@, kind: self.kind }
    }
}

/// Why a crawl gave no snapshot.
#[derive(Clone, Copy, PartialEq, Eq, Debug)]
pub enum CrawlError {
    /// Nothing is at the root's path.
    NotFound,
    /// The root's path does not lead to a directory.
    NotADirectory,
    /// A directory, or the size of one of its files, could not be read.
    ReadFailed(IoFailure),
    /// A directory was read with an entry that no directory can hold: an
    /// empty name, a name with a separator in it, or the same name twice.
    BrokenEntry,
}

/// The entries of `v` as plain values, in the same order.
pub open spec fn entry_views(v: Seq<DirEntry>) -> Seq<EntryView> {
    v.map_values(|e: DirEntry| e@)
}

/// What one directory can hold: every name is a single component, and no
/// name occurs twice.
pub open spec fn valid_listing(entries: Seq<EntryView>) -> bool {
    &&& forall|i: int| 0 <= i < entries.len() ==> is_component((#[trigger] entries[i]).name)
    &&& forall|i: int, j: int|
        0 <= i < j < entries.len() ==> (#[trigger] entries[i]).name != (#[trigger] entries[j]).name
}

/// The prefix of the directory `name` within the directory with the prefix
/// `dir`.
pub open spec fn subdir(dir: Seq<char>, name: Seq<char>) -> Seq<char> {
    (dir + name).push(SEPARATOR)
}

/// The listing of the file `name` of `size` bytes within the directory
/// with the prefix `dir`.
pub open spec fn file_in(dir: Seq<char>, name: Seq<char>, size: u64) -> ListingView {
    ListingView { size, name, relative_path: dir + name }
}

/// The listings of the files among `entries`, read from the directory with
/// the prefix `dir`, in their order.
pub open spec fn files_in(dir: Seq<char>, entries: Seq<EntryView>) -> Seq<ListingView>
    decreases entries.len(),
{
    if entries.len() == 0 {
        Seq::empty()
    } else {
        let before = files_in(dir, entries.drop_last());
        match entries.last().kind {
            EntryKind::File { size } => before.push(file_in(dir, entries.last().name, size)),
            EntryKind::Directory => before,
        }
    }
}

/// The prefixes of the directories among `entries`, read from the
/// directory with the prefix `dir`, in their order.
pub open spec fn dirs_in(dir: Seq<char>, entries: Seq<EntryView>) -> Seq<Seq<char>>
    decreases entries.len(),
{
    if entries.len() == 0 {
        Seq::empty()
    } else {
        let before = dirs_in(dir, entries.drop_last());
        match entries.last().kind {
            EntryKind::File { .. } => before,
            EntryKind::Directory => before.push(subdir(dir, entries.last().name)),
        }
    }
}

/// A crawl under way, as plain values.
pub struct CrawlerView {
    /// The prefixes of the directories still to read. The last one is read
    /// next.
    pub pending: Seq<Seq<char>>,
    /// The files found so far.
    pub found: Seq<ListingView>,
}

/// The crawl `v` once the directory it asked for has been read and held
/// `entries`: that directory leaves the work list, the directories among
/// the entries join it, and the files among them join what was found.
pub open spec fn recorded(v: CrawlerView, entries: Seq<EntryView>) -> CrawlerView {
    CrawlerView {
        pending: v.pending.drop_last() + dirs_in(v.pending.last(), entries),
        found: v.found + files_in(v.pending.last(), entries),
    }
}

/// Whether `s` starts with `p`.
pub open spec fn is_prefix(p: Seq<char>, s: Seq<char>) -> bool {
    p.len() <= s.len() && forall|i: int| 0 <= i < p.len() ==> p[i] == s[i]
}

/// Whether the directories of `pending` and the files of `found` lie apart:
/// no pending directory lies in or below another, and no file found lies
/// below a pending directory.
pub open spec fn apart(pending: Seq<Seq<char>>, found: Seq<ListingView>) -> bool {
    &&& forall|i: int| 0 <= i < pending.len() ==> is_dir_prefix(#[trigger] pending[i])
    &&& forall|i: int, j: int|
        0 <= i < pending.len() && 0 <= j < pending.len() && i != j ==> !is_prefix(
            #[trigger] pending[i],
            #[trigger] pending[j],
        )
    &&& forall|i: int, k: int|
        0 <= i < pending.len() && 0 <= k < found.len() ==> !is_prefix(
            #[trigger] pending[i],
            (#[trigger] found[k]).relative_path,
        )
}

/// What holds of a crawl under way: there is a directory to read, the files
/// found are a snapshot, and what is pending and what was found lie apart.
pub open spec fn on_course(v: CrawlerView) -> bool {
    &&& v.pending.len() > 0
    &&& is_snapshot(v.found)
    &&& apart(v.pending, v.found)
}

/// What lies outside a directory, and does not hold it, does not hold
/// anything below it.
proof fn lemma_outside_stays_outside(p: Seq<char>, dir: Seq<char>, x: Seq<char>)
    requires
        !is_prefix(p, dir),
        !is_prefix(dir, p),
    ensures
        !is_prefix(p, dir + x),
{
    if is_prefix(p, dir + x) {
        if p.len() <= dir.len() {
            assert forall|i: int| 0 <= i < p.len() implies p[i] == dir[i] by {
                assert(p[i] == (dir + x)[i]);
            }
        } else {
            assert forall|i: int| 0 <= i < dir.len() implies dir[i] == p[i] by {
                assert(p[i] == (dir + x)[i]);
            }
        }
    }
}

/// What starts with something below a directory starts with the directory.
proof fn lemma_below_child_is_below(dir: Seq<char>, x: Seq<char>, s: Seq<char>)
    requires
        is_prefix(dir + x, s),
    ensures
        is_prefix(dir, s),
{
    assert forall|i: int| 0 <= i < dir.len() implies dir[i] == s[i] by {
        assert((dir + x)[i] == s[i]);
    }
}

/// A directory does not hold the path of a name of its parent directory.
proof fn lemma_file_not_below_sibling(dir: Seq<char>, n: Seq<char>, m: Seq<char>)
    requires
        !has_separator(m),
    ensures
        !is_prefix(subdir(dir, n), dir + m),
{
    let p = subdir(dir, n);
    let s = dir + m;
    if is_prefix(p, s) {
        let at = (dir.len() + n.len()) as int;
        assert(p[at] == SEPARATOR);
        assert(s[at] == m[n.len() as int]);
    }
}

/// Of two directories of one parent with different names, neither holds the
/// other.
proof fn lemma_siblings_apart(dir: Seq<char>, n: Seq<char>, m: Seq<char>)
    requires
        !has_separator(n),
        !has_separator(m),
        n != m,
    ensures
        !is_prefix(subdir(dir, n), subdir(dir, m)),
{
    let p = subdir(dir, n);
    let s = subdir(dir, m);
    if is_prefix(p, s) {
        if n.len() < m.len() {
            let at = (dir.len() + n.len()) as int;
            assert(p[at] == SEPARATOR);
            assert(s[at] == m[n.len() as int]);
        } else {
            assert(n.len() == m.len());
            assert forall|i: int| 0 <= i < n.len() implies n[i] == m[i] by {
                assert(p[dir.len() + i] == n[i]);
                assert(s[dir.len() + i] == m[i]);
            }
            assert(n =~= m);
        }
    }
}

/// Reading one directory of the work list keeps directories and files
/// apart and the files found a snapshot.
proof fn lemma_reading_keeps_apart(
    rest: Seq<Seq<char>>,
    dir: Seq<char>,
    found: Seq<ListingView>,
    entries: Seq<EntryView>,
)
    requires
        apart(rest.push(dir), found),
        is_snapshot(found),
        valid_listing(entries),
    ensures
        apart(rest + dirs_in(dir, entries), found + files_in(dir, entries)),
        is_snapshot(found + files_in(dir, entries)),
        forall|i: int|
            0 <= i < dirs_in(dir, entries).len() ==> exists|j: int|
                0 <= j < entries.len() && #[trigger] dirs_in(dir, entries)[i] == subdir(
                    dir,
                    entries[j].name,
                ),
        forall|k: int|
            0 <= k < files_in(dir, entries).len() ==> exists|j: int|
                0 <= j < entries.len() && (#[trigger] files_in(dir, entries)[k]).relative_path
                    == dir + entries[j].name,
    decreases entries.len(),
{
    let old_pending = rest.push(dir);
    let dirs = dirs_in(dir, entries);
    let files = files_in(dir, entries);
    let pending = rest + dirs;
    let all = found + files;
    assert(old_pending[rest.len() as int] == dir);
    assert(is_dir_prefix(dir));
    assert forall|i: int| 0 <= i < rest.len() implies !is_prefix(#[trigger] rest[i], dir)
        && !is_prefix(dir, rest[i]) && is_dir_prefix(rest[i]) by {
        assert(old_pending[i] == rest[i]);
    }
    assert forall|k: int| 0 <= k < found.len() implies !is_prefix(
        dir,
        (#[trigger] found[k]).relative_path,
    ) by {}
    assert forall|i: int, k: int| 0 <= i < rest.len() && 0 <= k < found.len() implies !is_prefix(
        #[trigger] rest[i],
        (#[trigger] found[k]).relative_path,
    ) by {
        assert(old_pending[i] == rest[i]);
    }
    assert forall|i: int, j: int|
        0 <= i < rest.len() && 0 <= j < rest.len() && i != j implies !is_prefix(
        #[trigger] rest[i],
        #[trigger] rest[j],
    ) by {
        assert(old_pending[i] == rest[i]);
        assert(old_pending[j] == rest[j]);
    }
    if entries.len() == 0 {
        assert(pending =~= rest);
        assert(all =~= found);
    } else {
        let shorter = entries.drop_last();
        let e = entries.last();
        assert(valid_listing(shorter)) by {
            assert forall|i: int| 0 <= i < shorter.len() implies shorter[i] == entries[i] by {}
        }
        lemma_reading_keeps_apart(rest, dir, found, shorter);
        let dirs0 = dirs_in(dir, shorter);
        let files0 = files_in(dir, shorter);
        let pending0 = rest + dirs0;
        let all0 = found + files0;
        assert(entries[entries.len() - 1] == e);
        assert(is_component(e.name));
        // Every name read before differs from the name of `e`.
        assert forall|j: int| 0 <= j < shorter.len() implies (#[trigger] shorter[j]).name
            != e.name && !has_separator(shorter[j].name) by {
            assert(shorter[j] == entries[j]);
        }
        assert forall|i: int| 0 <= i < dirs.len() implies exists|j: int|
            0 <= j < entries.len() && #[trigger] dirs[i] == subdir(dir, entries[j].name) by {
            if i < dirs0.len() {
                let j = choose|j: int|
                    0 <= j < shorter.len() && dirs0[i] == subdir(dir, shorter[j].name);
                assert(entries[j] == shorter[j]);
            } else {
                assert(dirs[i] == subdir(dir, entries[entries.len() - 1].name));
            }
        }
        assert forall|k: int| 0 <= k < files.len() implies exists|j: int|
            0 <= j < entries.len() && (#[trigger] files[k]).relative_path == dir
                + entries[j].name by {
            if k < files0.len() {
                let j = choose|j: int|
                    0 <= j < shorter.len() && files0[k].relative_path == dir + shorter[j].name;
                assert(entries[j] == shorter[j]);
            } else {
                assert(files[k].relative_path == dir + entries[entries.len() - 1].name);
            }
        }
        match e.kind {
            EntryKind::File { size } => {
                let x = file_in(dir, e.name, size);
                assert(dirs == dirs0);
                assert(files == files0.push(x));
                assert(all =~= all0.push(x));
                lemma_file_name_of_concat(dir, e.name);
                assert(well_formed(x));
                // The new file lies below no pending directory.
                assert forall|i: int| 0 <= i < pending.len() implies !is_prefix(
                    #[trigger] pending[i],
                    x.relative_path,
                ) by {
                    if i < rest.len() {
                        assert(pending[i] == rest[i]);
                        lemma_outside_stays_outside(rest[i], dir, e.name);
                    } else {
                        let d = i - rest.len();
                        assert(pending[i] == dirs0[d]);
                        let j = choose|j: int|
                            0 <= j < shorter.len() && dirs0[d] == subdir(dir, shorter[j].name);
                        lemma_file_not_below_sibling(dir, shorter[j].name, e.name);
                    }
                }
                // The new file has a path of its own.
                assert forall|k: int| 0 <= k < all0.len() implies (#[trigger] all0[k]).relative_path
                    != x.relative_path by {
                    if k < found.len() {
                        assert(all0[k] == found[k]);
                        if found[k].relative_path == x.relative_path {
                            assert(is_prefix(dir, dir + e.name));
                        }
                    } else {
                        let f = k - found.len();
                        assert(all0[k] == files0[f]);
                        let j = choose|j: int|
                            0 <= j < shorter.len() && files0[f].relative_path == dir
                                + shorter[j].name;
                        if dir + shorter[j].name == dir + e.name {
                            assert forall|c: int| 0 <= c < e.name.len() implies shorter[j].name[c]
                                == e.name[c] by {
                                assert((dir + shorter[j].name)[dir.len() + c] == shorter[j].name[c]);
                                assert((dir + e.name)[dir.len() + c] == e.name[c]);
                            }
                            assert((dir + shorter[j].name).len() == (dir + e.name).len());
                            assert(shorter[j].name =~= e.name);
                        }
                    }
                }
                assert(is_snapshot(all)) by {
                    assert forall|a: int, b: int| 0 <= a < b < all.len() implies (#[trigger] all[a]).relative_path
                        != (#[trigger] all[b]).relative_path by {
                        assert(all[a] == all0[a]);
                        if b < all0.len() {
                            assert(all[b] == all0[b]);
                        }
                    }
                    assert forall|a: int| 0 <= a < all.len() implies well_formed(#[trigger] all[a]) by {
                        if a < all0.len() {
                            assert(all[a] == all0[a]);
                        }
                    }
                }
                assert(apart(pending, all)) by {
                    assert(pending == pending0);
                    assert forall|i: int, k: int|
                        0 <= i < pending.len() && 0 <= k < all.len() implies !is_prefix(
                        #[trigger] pending[i],
                        (#[trigger] all[k]).relative_path,
                    ) by {
                        if k < all0.len() {
                            assert(all[k] == all0[k]);
                        }
                    }
                }
            },
            EntryKind::Directory => {
                let q = subdir(dir, e.name);
                assert(files == files0);
                assert(all == all0);
                assert(dirs == dirs0.push(q));
                assert(pending =~= pending0.push(q));
                assert(q =~= dir + e.name.push(SEPARATOR));
                // The new directory holds no pending directory and lies in none.
                assert forall|i: int| 0 <= i < pending0.len() implies !is_prefix(
                    #[trigger] pending0[i],
                    q,
                ) && !is_prefix(q, pending0[i]) by {
                    if i < rest.len() {
                        assert(pending0[i] == rest[i]);
                        lemma_outside_stays_outside(rest[i], dir, e.name.push(SEPARATOR));
                        if is_prefix(q, rest[i]) {
                            lemma_below_child_is_below(dir, e.name.push(SEPARATOR), rest[i]);
                        }
                    } else {
                        let d = i - rest.len();
                        assert(pending0[i] == dirs0[d]);
                        let j = choose|j: int|
                            0 <= j < shorter.len() && dirs0[d] == subdir(dir, shorter[j].name);
                        lemma_siblings_apart(dir, shorter[j].name, e.name);
                        lemma_siblings_apart(dir, e.name, shorter[j].name);
                    }
                }
                // The new directory holds no file found.
                assert forall|k: int| 0 <= k < all.len() implies !is_prefix(
                    q,
                    (#[trigger] all[k]).relative_path,
                ) by {
                    if k < found.len() {
                        assert(all[k] == found[k]);
                        if is_prefix(q, found[k].relative_path) {
                            lemma_below_child_is_below(
                                dir,
                                e.name.push(SEPARATOR),
                                found[k].relative_path,
                            );
                        }
                    } else {
                        let f = k - found.len();
                        assert(all[k] == files0[f]);
                        let j = choose|j: int|
                            0 <= j < shorter.len() && files0[f].relative_path == dir
                                + shorter[j].name;
                        lemma_file_not_below_sibling(dir, e.name, shorter[j].name);
                    }
                }
                assert(apart(pending, all)) by {
                    assert forall|i: int| 0 <= i < pending.len() implies is_dir_prefix(
                        #[trigger] pending[i],
                    ) by {
                        if i < pending0.len() {
                            assert(pending[i] == pending0[i]);
                        }
                    }
                    assert forall|i: int, j: int|
                        0 <= i < pending.len() && 0 <= j < pending.len() && i != j implies !is_prefix(
                        #[trigger] pending[i],
                        #[trigger] pending[j],
                    ) by {
                        if i < pending0.len() {
                            assert(pending[i] == pending0[i]);
                        }
                        if j < pending0.len() {
                            assert(pending[j] == pending0[j]);
                        }
                    }
                    assert forall|i: int, k: int|
                        0 <= i < pending.len() && 0 <= k < all.len() implies !is_prefix(
                        #[trigger] pending[i],
                        (#[trigger] all[k]).relative_path,
                    ) by {
                        if i < pending0.len() {
                            assert(pending[i] == pending0[i]);
                        }
                    }
                }
            },
        }
    }
}

/// Reading the directory that a crawl asked for leaves the files found a
/// snapshot, with no relative path twice, and keeps what is pending and
/// what was found apart: as long as a directory is left to read, the crawl
/// stays on course.
pub proof fn lemma_reading_stays_on_course(v: CrawlerView, listing: Seq<EntryView>)
    requires
        on_course(v),
        valid_listing(listing),
    ensures
        is_snapshot(recorded(v, listing).found),
        apart(recorded(v, listing).pending, recorded(v, listing).found),
        recorded(v, listing).pending.len() > 0 ==> on_course(recorded(v, listing)),
{
    assert(v.pending.drop_last().push(v.pending.last()) =~= v.pending);
    lemma_reading_keeps_apart(v.pending.drop_last(), v.pending.last(), v.found, listing);
}

/// The prefixes of `v` as plain values, in the same order.
pub open spec fn prefixes(v: Seq<String>) -> Seq<Seq<char>> {
    v.map_values(|s: String| s@)
}

/// A crawl under way: there is a directory to read.
pub struct Crawler {
    pending: Vec<String>,
    found: Snapshot,
}

impl View for Crawler {
    type V = CrawlerView;

    closed spec fn view(&self) -> CrawlerView {
        CrawlerView { pending: prefixes(self.pending@), found: self.found@ }
    }
}

/// How a crawl stands after a directory has been read.
pub enum Crawl {
    /// There is another directory to read.
    Pending(Crawler),
    /// Every directory has been read: the snapshot of the tree.
    Complete(Snapshot),
}

/// How a crawl stands, as plain values.
pub enum CrawlView {
    /// There is another directory to read.
    Pending(CrawlerView),
    /// Every directory has been read.
    Complete(Seq<ListingView>),
}

impl View for Crawl {
    type V = CrawlView;

    open spec fn view(&self) -> CrawlView {
        match self {
            Crawl::Pending(crawler) => CrawlView::Pending(crawler@),
            Crawl::Complete(snapshot) => CrawlView::Complete(snapshot@),
        }
    }
}

/// The crawl of a tree whose root was found to be a directory: nothing
/// found yet, and the root to read.
pub open spec fn at_root() -> CrawlerView {
    CrawlerView { pending: seq![Seq::<char>::empty()], found: Seq::empty() }
}

/// How a crawl starts, given what was found at the root: there is none
/// where the root is missing or is no directory.
pub open spec fn begun(root: RootStatus) -> Result<CrawlerView, CrawlError> {
    match root {
        RootStatus::Missing => Err(CrawlError::NotFound),
        RootStatus::NotDirectory => Err(CrawlError::NotADirectory),
        RootStatus::Directory => Ok(at_root()),
    }
}

/// How the crawl `v` stands once the directory it asked for has been read
/// and held `listing`. A listing that no directory can have ends the crawl
/// with an error. Otherwise the crawl is complete, with all that was found,
/// once no directory is left to read.
pub open spec fn after_listing(v: CrawlerView, listing: Seq<EntryView>) -> Result<
    CrawlView,
    CrawlError,
> {
    if !valid_listing(listing) {
        Err(CrawlError::BrokenEntry)
    } else if recorded(v, listing).pending.len() == 0 {
        Ok(CrawlView::Complete(recorded(v, listing).found))
    } else {
        Ok(CrawlView::Pending(recorded(v, listing)))
    }
}

/// The crawl of a tree whose root holds nothing is complete after the one
/// read, with no file found.
pub proof fn lemma_empty_root_is_complete()
    ensures
        after_listing(at_root(), Seq::empty()) == Ok::<CrawlView, CrawlError>(
            CrawlView::Complete(Seq::empty()),
        ),
{
    let next = recorded(at_root(), Seq::empty());
    assert(next.pending =~= Seq::<Seq<char>>::empty());
    assert(next.found =~= Seq::<ListingView>::empty());
}

/// Whether `entries` is what one directory can hold.
fn is_valid_listing(entries: &Vec<DirEntry>) -> (ok: bool)
    ensures
        ok == valid_listing(entry_views(entries@)),
{
    let ghost all = entry_views(entries@);
    let mut seen = StringHashSet::new();
    let mut i: usize = 0;
    while i < entries.len()
        invariant
            i <= entries.len(),
            all == entry_views(entries@),
            valid_listing(all.take(i as int)),
            forall|n: Seq<char>|
                seen@.contains(n) <==> exists|k: int| 0 <= k < i && (#[trigger] all[k]).name == n,
        decreases entries.len() - i,
    {
        let name = entries[i].name.as_str();
        let ghost before = all.take(i as int);
        let ghost after = all.take(i + 1);
        assert(all[i as int].name == name@);
        if name.is_empty() || contains_separator(name) {
            return false;
        }
        let fresh = seen.insert(String::from_str(name));
        if !fresh {
            proof {
                let k = choose|k: int| 0 <= k < i && (#[trigger] all[k]).name == name@;
                assert(all[k].name == all[i as int].name);
            }
            return false;
        }
        proof {
            assert forall|a: int| 0 <= a < after.len() implies is_component(
                (#[trigger] after[a]).name,
            ) by {
                if a < i {
                    assert(after[a] == before[a]);
                }
            }
            assert forall|a: int, b: int| 0 <= a < b < after.len() implies (#[trigger] after[a]).name
                != (#[trigger] after[b]).name by {
                assert(after[a] == before[a]);
                if b < i {
                    assert(after[b] == before[b]);
                }
            }
        }
        i = i + 1;
    }
    assert(all.take(i as int) =~= all);
    true
}

impl Crawler {
    /// Every crawl under way is on course.
    #[verifier::type_invariant]
    pub open spec fn is_on_course(self) -> bool {
        on_course(self@)
    }

    /// Starts the crawl of a tree, given what was found at its root. There
    /// is no crawl where the root is missing or is no directory.
    pub fn begin(root: RootStatus) -> (r: Result<Crawler, CrawlError>)
        ensures
            (match r {
                Ok(crawler) => Ok(crawler@),
                Err(e) => Err(e),
            }) == begun(root),
    {
        match root {
            RootStatus::Missing => Err(CrawlError::NotFound),
            RootStatus::NotDirectory => Err(CrawlError::NotADirectory),
            RootStatus::Directory => {
                let mut pending: Vec<String> = Vec::new();
                pending.push(String::new());
                let found = Snapshot::new();
                proof {
                    use_type_invariant(&found);
                }
                assert(prefixes(pending@) =~= at_root().pending);
                assert(pending@[0]@.len() == 0);
                Ok(Crawler { pending, found })
            },
        }
    }

    /// The directory to read next, as the prefix of the paths below it:
    /// empty for the root, else the path of the directory from the root,
    /// closed by a separator.
    pub fn directory(&self) -> (dir: &str)
        ensures
            self@.pending.len() > 0,
            dir@ == self@.pending.last(),
            is_dir_prefix(dir@),
    {
        proof {
            use_type_invariant(self);
        }
        let last = self.pending.len() - 1;
        assert(self@.pending[last as int] == self.pending@[last as int]@);
        self.pending[last].as_str()
    }

    /// Takes in what reading the directory asked for gave: its entries, or
    /// the failure. A failure ends the crawl, and so does a listing that no
    /// directory can have; nothing of what was found is handed out then.
    pub fn record(self, outcome: Result<Vec<DirEntry>, IoFailure>) -> (r: Result<Crawl, CrawlError>)
        ensures
            (match r {
                Ok(crawl) => Ok(crawl@),
                Err(e) => Err(e),
            }) == (match outcome {
                Ok(entries) => after_listing(self@, entry_views(entries@)),
                Err(failure) => Err(CrawlError::ReadFailed(failure)),
            }),
    {
        let entries = match outcome {
            Err(failure) => {
                return Err(CrawlError::ReadFailed(failure));
            },
            Ok(entries) => entries,
        };
        if !is_valid_listing(&entries) {
            return Err(CrawlError::BrokenEntry);
        }
        proof {
            use_type_invariant(&self);
            use_type_invariant(&self.found);
        }
        let ghost start = self@;
        let ghost listing = entry_views(entries@);
        let mut pending = self.pending;
        let mut found = self.found;
        let dir = pending.pop().unwrap();
        let ghost rest = prefixes(pending@);
        proof {
            assert(rest =~= start.pending.drop_last());
            assert(dir@ == start.pending.last());
            assert(rest.push(dir@) =~= start.pending);
        }
        let mut i: usize = 0;
        while i < entries.len()
            invariant
                i <= entries.len(),
                listing == entry_views(entries@),
                valid_listing(listing),
                apart(rest.push(dir@), start.found),
                is_snapshot(start.found),
                prefixes(pending@) == rest + dirs_in(dir@, listing.take(i as int)),
                found@ == start.found + files_in(dir@, listing.take(i as int)),
            decreases entries.len() - i,
        {
            let entry = &entries[i];
            let ghost before = listing.take(i as int);
            let ghost after = listing.take(i + 1);
            proof {
                assert(after.drop_last() =~= before);
                assert(after.last() == entry@);
                assert(valid_listing(after)) by {
                    assert forall|a: int| 0 <= a < after.len() implies after[a] == listing[a] by {}
                }
                assert(listing[i as int] == entry@);
                assert(is_component(entry@.name));
                assert(rest.push(dir@)[rest.len() as int] == dir@);
                lemma_reading_keeps_apart(rest, dir@, start.found, after);
            }
            match entry.kind {
                EntryKind::File { size } => {
                    let file = FileListing::in_directory(dir.as_str(), entry.name.as_str(), size);
                    proof {
                        assert(file@ == file_in(dir@, entry@.name, size));
                        let grown = start.found + files_in(dir@, after);
                        assert(grown =~= found@.push(file@));
                        if has_path(found@, file@.relative_path) {
                            let k = choose|k: int|
                                0 <= k < found@.len() && (#[trigger] found@[k]).relative_path
                                    == file@.relative_path;
                            assert(grown[k] == found@[k]);
                            assert(grown[found@.len() as int] == file@);
                        }
                    }
                    found = found.with(file);
                },
                EntryKind::Directory => {
                    let mut sub = String::from_str(dir.as_str());
                    sub.append(entry.name.as_str());
                    push_separator(&mut sub);
                    let ghost held = prefixes(pending@);
                    pending.push(sub);
                    assert(prefixes(pending@) =~= held.push(sub@));
                    assert(prefixes(pending@) =~= rest + dirs_in(dir@, after));
                },
            }
            i = i + 1;
        }
        proof {
            assert(listing.take(i as int) =~= listing);
            lemma_reading_keeps_apart(rest, dir@, start.found, listing);
            use_type_invariant(&found);
        }
        if pending.len() == 0 {
            Ok(Crawl::Complete(found))
        } else {
            Ok(Crawl::Pending(Crawler { pending, found }))
        }
    }
}

} // verus!
