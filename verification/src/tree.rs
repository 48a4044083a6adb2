//! A tree of directories and files as a value, and what a crawl of it
//! finds.
//!
//! Nothing here runs. The tree stands for what is on disk while a crawl is
//! under way, and the laws say that a crawler whose reads are answered from
//! the tree ends with the files of the tree, each once.

use vstd::prelude::*;
use vstd::multiset::{lemma_multiset_empty_len, Multiset};
use vstd::seq_lib::{lemma_multiset_commutative, to_multiset_build};
use crate::crawl::{
    after_listing, at_root, dirs_in, file_in, files_in, recorded, subdir, valid_listing, CrawlView,
    CrawlerView, EntryKind, EntryView,
};
use crate::listing::ListingView;

verus! {

/// One entry of a directory of the tree.
pub struct TreeEntry {
    /// The name of the entry within its directory.
    pub name: Seq<char>,
    /// What the entry is.
    pub node: TreeNode,
}

/// A file, or a directory with what it holds.
pub enum TreeNode {
    /// A file of `size` bytes.
    File { size: u64 },
    /// A directory with its entries.
    Directory { entries: Seq<TreeEntry> },
}

/// What reading a directory of the tree tells of one entry.
pub open spec fn entry_read(entry: TreeEntry) -> EntryView {
    EntryView {
        name: entry.name,
        kind: match entry.node {
            TreeNode::File { size } => EntryKind::File { size },
            TreeNode::Directory { .. } => EntryKind::Directory,
        },
    }
}

/// What reading a directory that holds `entries` yields.
pub open spec fn listing_of(entries: Seq<TreeEntry>) -> Seq<EntryView> {
    entries.map_values(|entry: TreeEntry| entry_read(entry))
}

/// The files in and below the first `n` of `entries`, which stand in the
/// directory with the prefix `dir`.
pub open spec fn files_among(dir: Seq<char>, entries: Seq<TreeEntry>, n: nat) -> Multiset<
    ListingView,
>
    decreases entries, n,
{
    if n == 0 || n > entries.len() {
        Multiset::empty()
    } else {
        let entry = entries[n - 1];
        let before = files_among(dir, entries, (n - 1) as nat);
        match entry.node {
            TreeNode::File { size } => before.insert(file_in(dir, entry.name, size)),
            TreeNode::Directory { entries: inner } => before.add(
                files_among(subdir(dir, entry.name), inner, inner.len()),
            ),
        }
    }
}

/// The files in and below the directory with the prefix `dir` that holds
/// `entries`.
pub open spec fn files_below(dir: Seq<char>, entries: Seq<TreeEntry>) -> Multiset<ListingView> {
    files_among(dir, entries, entries.len())
}

/// What the directories among `entries` hold, in their order.
pub open spec fn subtrees(entries: Seq<TreeEntry>) -> Seq<Seq<TreeEntry>>
    decreases entries.len(),
{
    if entries.len() == 0 {
        Seq::empty()
    } else {
        let before = subtrees(entries.drop_last());
        match entries.last().node {
            TreeNode::File { .. } => before,
            TreeNode::Directory { entries: inner } => before.push(inner),
        }
    }
}

/// The files in and below the directories with the prefixes `pending`,
/// where `trees` tells what each of them holds.
pub open spec fn owed(pending: Seq<Seq<char>>, trees: Seq<Seq<TreeEntry>>) -> Multiset<
    ListingView,
>
    decreases pending.len(),
{
    if pending.len() == 0 || trees.len() != pending.len() {
        Multiset::empty()
    } else {
        owed(pending.drop_last(), trees.drop_last()).add(files_below(pending.last(), trees.last()))
    }
}

/// Whether the crawl `v` is on its way through the tree with the entries
/// `root` at its root, where `trees` tells what each pending directory
/// holds: what was found, together with what lies in and below the pending
/// directories, is what the whole tree holds.
pub open spec fn tracks(v: CrawlerView, trees: Seq<Seq<TreeEntry>>, root: Seq<TreeEntry>) -> bool {
    &&& trees.len() == v.pending.len()
    &&& v.found.to_multiset().add(owed(v.pending, trees)) == files_below(Seq::empty(), root)
}

/// No listings make the empty multiset.
proof fn lemma_nothing_found()
    ensures
        Seq::<ListingView>::empty().to_multiset() == Multiset::<ListingView>::empty(),
{
    let none = Seq::<ListingView>::empty();
    none.to_multiset_ensures();
    lemma_multiset_empty_len(none.to_multiset());
}

/// What is owed for two work lists, one after the other, is what is owed
/// for each.
proof fn lemma_owed_concat(
    first: Seq<Seq<char>>,
    first_trees: Seq<Seq<TreeEntry>>,
    second: Seq<Seq<char>>,
    second_trees: Seq<Seq<TreeEntry>>,
)
    requires
        first.len() == first_trees.len(),
        second.len() == second_trees.len(),
    ensures
        owed(first + second, first_trees + second_trees) == owed(first, first_trees).add(
            owed(second, second_trees),
        ),
    decreases second.len(),
{
    if second.len() == 0 {
        assert(first + second =~= first);
        assert(first_trees + second_trees =~= first_trees);
        assert(owed(first, first_trees).add(owed(second, second_trees)) =~= owed(
            first,
            first_trees,
        ));
    } else {
        lemma_owed_concat(first, first_trees, second.drop_last(), second_trees.drop_last());
        assert((first + second).drop_last() =~= first + second.drop_last());
        assert((first_trees + second_trees).drop_last() =~= first_trees
            + second_trees.drop_last());
        assert((first + second).last() == second.last());
        assert((first_trees + second_trees).last() == second_trees.last());
        let a = owed(first, first_trees);
        let b = owed(second.drop_last(), second_trees.drop_last());
        let c = files_below(second.last(), second_trees.last());
        assert(a.add(b).add(c) =~= a.add(b.add(c)));
    }
}

/// The files in and below a directory are the files that a read of it
/// shows, and the files in and below the directories that the read shows.
proof fn lemma_files_below_one_level(dir: Seq<char>, entries: Seq<TreeEntry>)
    ensures
        dirs_in(dir, listing_of(entries)).len() == subtrees(entries).len(),
        files_below(dir, entries) == files_in(dir, listing_of(entries)).to_multiset().add(
            owed(dirs_in(dir, listing_of(entries)), subtrees(entries)),
        ),
    decreases entries.len(),
{
    let listing = listing_of(entries);
    let direct = files_in(dir, listing).to_multiset();
    let below = owed(dirs_in(dir, listing), subtrees(entries));
    if entries.len() == 0 {
        lemma_nothing_found();
        assert(direct.add(below) =~= Multiset::empty());
    } else {
        let shorter = entries.drop_last();
        let entry = entries.last();
        lemma_files_below_one_level(dir, shorter);
        lemma_files_among_prefix(dir, entries, shorter.len());
        assert(listing.drop_last() =~= listing_of(shorter));
        assert(listing.last() == entry_read(entry));
        let direct0 = files_in(dir, listing_of(shorter)).to_multiset();
        let dirs0 = dirs_in(dir, listing_of(shorter));
        let below0 = owed(dirs0, subtrees(shorter));
        assert(files_among(dir, entries, shorter.len()) == direct0.add(below0));
        match entry.node {
            TreeNode::File { size } => {
                let file = file_in(dir, entry.name, size);
                to_multiset_build(files_in(dir, listing_of(shorter)), file);
                assert(direct == direct0.insert(file));
                assert(below == below0);
                assert(direct0.add(below0).insert(file) =~= direct0.insert(file).add(below0));
            },
            TreeNode::Directory { entries: inner } => {
                let sub = subdir(dir, entry.name);
                assert(direct == direct0);
                assert(dirs_in(dir, listing) == dirs0.push(sub));
                assert(subtrees(entries) == subtrees(shorter).push(inner));
                assert(dirs0.push(sub).drop_last() =~= dirs0);
                assert(subtrees(shorter).push(inner).drop_last() =~= subtrees(shorter));
                assert(below == below0.add(files_below(sub, inner)));
                assert(direct0.add(below0).add(files_below(sub, inner)) =~= direct0.add(
                    below0.add(files_below(sub, inner)),
                ));
            },
        }
    }
}

/// The files among the first entries of a directory do not depend on the
/// entries that follow.
proof fn lemma_files_among_prefix(dir: Seq<char>, entries: Seq<TreeEntry>, n: nat)
    requires
        n <= entries.len(),
    ensures
        files_among(dir, entries, n) == files_below(dir, entries.take(n as int)),
    decreases n,
{
    let first = entries.take(n as int);
    if n > 0 {
        lemma_files_among_prefix(dir, entries, (n - 1) as nat);
        lemma_files_among_prefix(dir, first, (n - 1) as nat);
        assert(first.take(n - 1) =~= entries.take(n - 1));
        assert(first[n - 1] == entries[n - 1]);
    }
}

/// A crawl starts on its way through the tree.
pub proof fn lemma_start_tracks(root: Seq<TreeEntry>)
    ensures
        tracks(at_root(), seq![root], root),
{
    let v = at_root();
    let trees = seq![root];
    assert(v.pending.drop_last() =~= Seq::<Seq<char>>::empty());
    assert(trees.drop_last() =~= Seq::<Seq<TreeEntry>>::empty());
    assert(v.pending.last() =~= Seq::<char>::empty());
    lemma_nothing_found();
    assert(owed(v.pending.drop_last(), trees.drop_last()) == Multiset::<ListingView>::empty());
    assert(trees.last() == root);
    assert(owed(v.pending, trees) =~= files_below(Seq::empty(), root));
    assert(v.found.to_multiset().add(owed(v.pending, trees)) =~= files_below(Seq::empty(), root));
}

/// A crawl on its way through the tree stays on its way when the read it
/// asked for is answered with what the tree holds there: the directory
/// read makes way for the directories found in it.
pub proof fn lemma_reading_tracks(
    v: CrawlerView,
    trees: Seq<Seq<TreeEntry>>,
    root: Seq<TreeEntry>,
)
    requires
        tracks(v, trees, root),
        v.pending.len() > 0,
    ensures
        tracks(
            recorded(v, listing_of(trees.last())),
            trees.drop_last() + subtrees(trees.last()),
            root,
        ),
{
    let dir = v.pending.last();
    let held = trees.last();
    let listing = listing_of(held);
    let next = recorded(v, listing);
    let next_trees = trees.drop_last() + subtrees(held);
    lemma_files_below_one_level(dir, held);
    lemma_owed_concat(v.pending.drop_last(), trees.drop_last(), dirs_in(dir, listing), subtrees(held));
    lemma_multiset_commutative(v.found, files_in(dir, listing));
    let found = v.found.to_multiset();
    let rest = owed(v.pending.drop_last(), trees.drop_last());
    let direct = files_in(dir, listing).to_multiset();
    let below = owed(dirs_in(dir, listing), subtrees(held));
    assert(owed(v.pending, trees) == rest.add(files_below(dir, held)));
    assert(found.add(direct).add(rest.add(below)) =~= found.add(rest.add(direct.add(below))));
}

/// A crawl that has made its way through the tree, with no directory left
/// to read, has found the files of the tree, each once.
pub proof fn lemma_complete_holds_tree(
    v: CrawlerView,
    trees: Seq<Seq<TreeEntry>>,
    root: Seq<TreeEntry>,
)
    requires
        tracks(v, trees, root),
        v.pending.len() == 0,
    ensures
        v.found.to_multiset() == files_below(Seq::empty(), root),
{
    assert(v.found.to_multiset().add(Multiset::empty()) =~= v.found.to_multiset());
}

/// One read of a crawl on its way through the tree, answered with what
/// the tree holds there: the crawl goes on, still on its way; or it is
/// complete, and has found the files of the tree, each once; or it ends
/// with an error, and then the directory read is one that no directory can
/// be.
pub proof fn lemma_step_tracks(v: CrawlerView, trees: Seq<Seq<TreeEntry>>, root: Seq<TreeEntry>)
    requires
        tracks(v, trees, root),
        v.pending.len() > 0,
    ensures
        match after_listing(v, listing_of(trees.last())) {
            Ok(CrawlView::Pending(next)) => tracks(
                next,
                trees.drop_last() + subtrees(trees.last()),
                root,
            ),
            Ok(CrawlView::Complete(found)) => found.to_multiset() == files_below(
                Seq::empty(),
                root,
            ),
            Err(_) => !valid_listing(listing_of(trees.last())),
        },
{
    lemma_reading_tracks(v, trees, root);
    let next = recorded(v, listing_of(trees.last()));
    if next.pending.len() == 0 {
        lemma_complete_holds_tree(next, trees.drop_last() + subtrees(trees.last()), root);
    }
}

/// The number of files and directories in and below the first `n` of
/// `entries`.
pub open spec fn nodes_among(entries: Seq<TreeEntry>, n: nat) -> nat
    decreases entries, n,
{
    if n == 0 || n > entries.len() {
        0
    } else {
        let before = nodes_among(entries, (n - 1) as nat);
        match entries[n - 1].node {
            TreeNode::File { .. } => before + 1,
            TreeNode::Directory { entries: inner } => before + 1 + nodes_among(inner, inner.len()),
        }
    }
}

/// The number of reads that a crawl still has to make when the pending
/// directories hold `trees`: one for each of them, and one for each
/// directory below them; counted with the files, so that the number is at
/// least that of the reads.
pub open spec fn reads_left(trees: Seq<Seq<TreeEntry>>) -> nat
    decreases trees.len(),
{
    if trees.len() == 0 {
        0
    } else {
        reads_left(trees.drop_last()) + 1 + nodes_among(trees.last(), trees.last().len())
    }
}

/// The count for two lists of directories is the sum of their counts.
proof fn lemma_reads_left_concat(first: Seq<Seq<TreeEntry>>, second: Seq<Seq<TreeEntry>>)
    ensures
        reads_left(first + second) == reads_left(first) + reads_left(second),
    decreases second.len(),
{
    if second.len() == 0 {
        assert(first + second =~= first);
    } else {
        lemma_reads_left_concat(first, second.drop_last());
        assert((first + second).drop_last() =~= first + second.drop_last());
        assert((first + second).last() == second.last());
    }
}

/// The count does not depend on the entries that follow the first `n`.
proof fn lemma_nodes_among_prefix(entries: Seq<TreeEntry>, n: nat)
    requires
        n <= entries.len(),
    ensures
        nodes_among(entries, n) == nodes_among(entries.take(n as int), n),
    decreases n,
{
    let first = entries.take(n as int);
    if n > 0 {
        lemma_nodes_among_prefix(entries, (n - 1) as nat);
        lemma_nodes_among_prefix(first, (n - 1) as nat);
        assert(first.take(n - 1) =~= entries.take(n - 1));
        assert(first[n - 1] == entries[n - 1]);
    }
}

/// The directories of a directory need no more reads than it has files and
/// directories in and below it.
proof fn lemma_subtrees_need_fewer_reads(entries: Seq<TreeEntry>)
    ensures
        reads_left(subtrees(entries)) <= nodes_among(entries, entries.len()),
    decreases entries.len(),
{
    if entries.len() > 0 {
        let shorter = entries.drop_last();
        lemma_subtrees_need_fewer_reads(shorter);
        lemma_nodes_among_prefix(entries, shorter.len());
        match entries.last().node {
            TreeNode::File { .. } => {},
            TreeNode::Directory { .. } => {
                assert(subtrees(entries).drop_last() =~= subtrees(shorter));
            },
        }
    }
}

/// Each read that is answered from the tree brings the crawl nearer to its
/// end: a crawl of a tree ends.
pub proof fn lemma_reading_nears_end(trees: Seq<Seq<TreeEntry>>)
    requires
        trees.len() > 0,
    ensures
        reads_left(trees.drop_last() + subtrees(trees.last())) < reads_left(trees),
{
    lemma_reads_left_concat(trees.drop_last(), subtrees(trees.last()));
    lemma_subtrees_need_fewer_reads(trees.last());
}

} // verus!
