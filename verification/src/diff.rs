//! What one tree holds and the other lacks.

use vstd::prelude::*;
use vstd::hash_map::StringHashMap;
use vstd::string::StringExecFns;
use crate::listing::{equivalent, lemma_equivalence_is_keyed, ListingView};
use crate::snapshot::{all_well_formed, has_path, is_snapshot, unique_paths, Snapshot};

verus! {

/// Whether `s` holds a listing equivalent to `l`.
pub open spec fn has_equivalent(l: ListingView, s: Seq<ListingView>) -> bool {
    exists|i: int| 0 <= i < s.len() && equivalent(#[trigger] s[i], l)
}

/// The listings of `these`, in their order, that have no equivalent in
/// `those`.
pub open spec fn lacking(these: Seq<ListingView>, those: Seq<ListingView>) -> Seq<ListingView> {
    these.filter(|l: ListingView| !has_equivalent(l, those))
}

/// The files of `source` without an equivalent in `dest`.
pub open spec fn files_only_in_source(
    source: Seq<ListingView>,
    dest: Seq<ListingView>,
) -> Seq<ListingView> {
    lacking(source, dest)
}

/// The files of `dest` without an equivalent in `source`.
pub open spec fn files_only_in_dest(
    source: Seq<ListingView>,
    dest: Seq<ListingView>,
) -> Seq<ListingView> {
    lacking(dest, source)
}

/// `lacking` one listing further: the last listing of `these` is kept
/// exactly when `those` has no equivalent of it.
pub proof fn lemma_lacking_step(these: Seq<ListingView>, those: Seq<ListingView>)
    requires
        these.len() > 0,
    ensures
        lacking(these, those) == (if has_equivalent(these.last(), those) {
            lacking(these.drop_last(), those)
        } else {
            lacking(these.drop_last(), those).push(these.last())
        }),
{
    reveal(Seq::filter);
}

/// A listing is in `lacking(these, those)` exactly when it is in `these`
/// and `those` holds no equivalent of it.
pub proof fn lemma_lacking_membership(these: Seq<ListingView>, those: Seq<ListingView>)
    ensures
        forall|l: ListingView|
            #[trigger] lacking(these, those).contains(l) <==> these.contains(l) && !has_equivalent(
                l,
                those,
            ),
    decreases these.len(),
{
    let kept = lacking(these, those);
    if these.len() == 0 {
        assert forall|l: ListingView| #[trigger] kept.contains(l) <==> these.contains(l)
            && !has_equivalent(l, those) by {}
    } else {
        let shorter = these.drop_last();
        let last = these.last();
        lemma_lacking_membership(shorter, those);
        lemma_lacking_step(these, those);
        let kept_before = lacking(shorter, those);
        assert forall|l: ListingView| #[trigger] kept.contains(l) <==> these.contains(l)
            && !has_equivalent(l, those) by {
            if kept.contains(l) {
                let i = choose|i: int| 0 <= i < kept.len() && kept[i] == l;
                if i < kept_before.len() {
                    assert(kept_before[i] == l);
                    assert(kept_before.contains(l));
                    let k = choose|k: int| 0 <= k < shorter.len() && shorter[k] == l;
                    assert(these[k] == l);
                } else {
                    assert(l == last);
                    assert(these[these.len() - 1] == l);
                }
            }
            if these.contains(l) && !has_equivalent(l, those) {
                let k = choose|k: int| 0 <= k < these.len() && these[k] == l;
                if k < shorter.len() {
                    assert(shorter[k] == l);
                    assert(kept_before.contains(l));
                    let i = choose|i: int| 0 <= i < kept_before.len() && kept_before[i] == l;
                    assert(kept[i] == l);
                } else {
                    assert(kept[kept.len() - 1] == l);
                }
            }
        }
    }
}

/// What is kept of a snapshot is a snapshot.
pub proof fn lemma_lacking_is_snapshot(these: Seq<ListingView>, those: Seq<ListingView>)
    requires
        is_snapshot(these),
    ensures
        is_snapshot(lacking(these, those)),
    decreases these.len(),
{
    if these.len() > 0 {
        let shorter = these.drop_last();
        let last = these.last();
        assert(is_snapshot(shorter)) by {
            assert forall|i: int| 0 <= i < shorter.len() implies shorter[i] == these[i] by {}
        }
        lemma_lacking_is_snapshot(shorter, those);
        lemma_lacking_membership(shorter, those);
        lemma_lacking_step(these, those);
        let kept_before = lacking(shorter, those);
        if !has_equivalent(last, those) {
            assert forall|i: int| 0 <= i < kept_before.len() implies (#[trigger] kept_before[i]).relative_path
                != last.relative_path by {
                assert(kept_before.contains(kept_before[i]));
                let k = choose|k: int| 0 <= k < shorter.len() && shorter[k] == kept_before[i];
                assert(these[k] == kept_before[i]);
                assert(these[these.len() - 1] == last);
            }
        }
    }
}

/// No file that is only in the source has an equivalent in the
/// destination, and no file that is only in the destination has one in the
/// source.
pub proof fn lemma_differences_have_no_equivalent(
    source: Seq<ListingView>,
    dest: Seq<ListingView>,
)
    ensures
        forall|i: int|
            0 <= i < files_only_in_source(source, dest).len() ==> !has_equivalent(
                #[trigger] files_only_in_source(source, dest)[i],
                dest,
            ),
        forall|i: int|
            0 <= i < files_only_in_dest(source, dest).len() ==> !has_equivalent(
                #[trigger] files_only_in_dest(source, dest)[i],
                source,
            ),
{
    lemma_lacking_membership(source, dest);
    lemma_lacking_membership(dest, source);
    let copy = files_only_in_source(source, dest);
    let delete = files_only_in_dest(source, dest);
    assert forall|i: int| 0 <= i < copy.len() implies !has_equivalent(#[trigger] copy[i], dest) by {
        assert(copy.contains(copy[i]));
    }
    assert forall|i: int| 0 <= i < delete.len() implies !has_equivalent(
        #[trigger] delete[i],
        source,
    ) by {
        assert(delete.contains(delete[i]));
    }
}

/// The two differences mirror each other: what is only in the source, of
/// `a` against `b`, is what is only in the destination, of `b` against `a`.
pub proof fn lemma_differences_are_symmetric(a: Seq<ListingView>, b: Seq<ListingView>)
    ensures
        files_only_in_source(a, b) == files_only_in_dest(b, a),
{
}

/// The pairs of relative path and size that `s` holds.
pub open spec fn keys(s: Seq<ListingView>) -> Set<(Seq<char>, u64)> {
    Set::new(
        |k: (Seq<char>, u64)|
            exists|i: int|
                0 <= i < s.len() && (#[trigger] s[i]).relative_path == k.0 && s[i].size == k.1,
    )
}

/// Two trees that hold the same pairs of relative path and size differ in
/// nothing: no file is only in the source, none only in the destination.
pub proof fn lemma_same_keys_leave_nothing(source: Seq<ListingView>, dest: Seq<ListingView>)
    requires
        all_well_formed(source),
        all_well_formed(dest),
        keys(source) == keys(dest),
    ensures
        files_only_in_source(source, dest) == Seq::<ListingView>::empty(),
        files_only_in_dest(source, dest) == Seq::<ListingView>::empty(),
{
    lemma_every_key_matched(source, dest);
    lemma_every_key_matched(dest, source);
}

/// Where every pair of path and size of `these` is one of `those`, nothing
/// of `these` lacks an equivalent.
proof fn lemma_every_key_matched(these: Seq<ListingView>, those: Seq<ListingView>)
    requires
        all_well_formed(these),
        all_well_formed(those),
        keys(these).subset_of(keys(those)),
    ensures
        lacking(these, those) == Seq::<ListingView>::empty(),
{
    lemma_lacking_membership(these, those);
    let kept = lacking(these, those);
    if kept.len() > 0 {
        let l = kept[0];
        assert(kept.contains(l));
        let k = choose|k: int| 0 <= k < these.len() && these[k] == l;
        assert(keys(these).contains((these[k].relative_path, these[k].size)));
        assert(keys(those).contains((l.relative_path, l.size)));
        let j = choose|j: int|
            0 <= j < those.len() && (#[trigger] those[j]).relative_path == l.relative_path
                && those[j].size == l.size;
        lemma_equivalence_is_keyed(those[j], l);
        assert(has_equivalent(l, those));
    }
    assert(kept =~= Seq::<ListingView>::empty());
}

/// Whether `after` lists the destination as it stands once every file of
/// `copies` has been copied into a tree that `dest` listed before: the
/// copies are there, and so is every file of `dest` whose place no copy
/// took.
pub open spec fn lists_after_copy(
    after: Seq<ListingView>,
    dest: Seq<ListingView>,
    copies: Seq<ListingView>,
) -> bool {
    forall|l: ListingView|
        #[trigger] after.contains(l) <==> copies.contains(l) || (dest.contains(l) && !has_path(
            copies,
            l.relative_path,
        ))
}

/// Once the files that were only in the source have been copied, a fresh
/// listing of the destination leaves nothing to copy.
pub proof fn lemma_copy_leaves_nothing_to_copy(
    source: Seq<ListingView>,
    dest: Seq<ListingView>,
    after: Seq<ListingView>,
)
    requires
        is_snapshot(source),
        lists_after_copy(after, dest, files_only_in_source(source, dest)),
    ensures
        files_only_in_source(source, after) == Seq::<ListingView>::empty(),
{
    let copies = files_only_in_source(source, dest);
    lemma_lacking_membership(source, dest);
    lemma_lacking_membership(source, after);
    let left = files_only_in_source(source, after);
    if left.len() > 0 {
        let s = left[0];
        assert(left.contains(s));
        assert(source.contains(s) && !has_equivalent(s, after));
        if copies.contains(s) {
            assert(after.contains(s));
            let j = choose|j: int| 0 <= j < after.len() && after[j] == s;
            assert(equivalent(after[j], s));
        } else {
            assert(has_equivalent(s, dest));
            let d = choose|d: int| 0 <= d < dest.len() && equivalent(#[trigger] dest[d], s);
            assert(dest[d] == s);
            assert(dest.contains(s));
            if has_path(copies, s.relative_path) {
                let c = choose|c: int|
                    0 <= c < copies.len() && (#[trigger] copies[c]).relative_path
                        == s.relative_path;
                assert(copies.contains(copies[c]));
                let a = choose|a: int| 0 <= a < source.len() && source[a] == copies[c];
                let b = choose|b: int| 0 <= b < source.len() && source[b] == s;
                assert(source[a].relative_path == source[b].relative_path);
                assert(a == b);
            }
            assert(after.contains(s));
            let j = choose|j: int| 0 <= j < after.len() && after[j] == s;
            assert(equivalent(after[j], s));
        }
    }
    assert(left =~= Seq::<ListingView>::empty());
}

/// Whether `index` gives, for each relative path of `s`, the position of the
/// listing that has it, and holds no other path.
spec fn indexes(index: Map<Seq<char>, usize>, s: Seq<ListingView>) -> bool {
    &&& forall|i: int|
        0 <= i < s.len() ==> index.contains_key((#[trigger] s[i]).relative_path)
            && index[s[i].relative_path] == i
    &&& forall|p: Seq<char>| #[trigger]
        index.contains_key(p) ==> index[p] < s.len() && s[index[p] as int].relative_path == p
}

/// The positions of the listings of `snapshot`, by relative path.
fn index_of(snapshot: &Snapshot) -> (index: StringHashMap<usize>)
    ensures
        indexes(index@, snapshot@),
{
    proof {
        use_type_invariant(snapshot);
    }
    let mut index: StringHashMap<usize> = StringHashMap::new();
    let mut i: usize = 0;
    while i < snapshot.len()
        invariant
            i <= snapshot@.len(),
            unique_paths(snapshot@),
            indexes(index@, snapshot@.take(i as int)),
        decreases snapshot@.len() - i,
    {
        let ghost before = snapshot@.take(i as int);
        let ghost after = snapshot@.take(i + 1);
        let ghost old_index = index@;
        let listing = snapshot.get(i);
        index.insert(String::from_str(listing.relative_path()), i);
        proof {
            let path = listing@.relative_path;
            assert forall|k: int| 0 <= k < after.len() implies index@.contains_key(
                (#[trigger] after[k]).relative_path,
            ) && index@[after[k].relative_path] == k by {
                if k < i {
                    assert(before[k] == after[k]);
                    assert(snapshot@[k] == after[k]);
                    assert(snapshot@[i as int].relative_path != snapshot@[k].relative_path);
                }
            }
            assert forall|p: Seq<char>| #[trigger] index@.contains_key(p) implies index@[p]
                < after.len() && after[index@[p] as int].relative_path == p by {
                if p != path {
                    assert(old_index.contains_key(p));
                    assert(before[old_index[p] as int] == after[old_index[p] as int]);
                }
            }
        }
        i = i + 1;
    }
    assert(snapshot@.take(i as int) =~= snapshot@);
    index
}

/// The files of `these` that have no equivalent in `those`, in the order
/// of `these`.
fn lacking_in(these: &Snapshot, those: &Snapshot) -> (kept: Snapshot)
    ensures
        kept@ == lacking(these@, those@),
{
    proof {
        use_type_invariant(these);
        use_type_invariant(those);
    }
    let index = index_of(those);
    let mut kept = Snapshot::new();
    let mut i: usize = 0;
    while i < these.len()
        invariant
            i <= these@.len(),
            is_snapshot(these@),
            is_snapshot(those@),
            indexes(index@, those@),
            kept@ == lacking(these@.take(i as int), those@),
        decreases these@.len() - i,
    {
        let ghost before = these@.take(i as int);
        let ghost after = these@.take(i + 1);
        let listing = these.get(i);
        let matched = match index.get(listing.relative_path()) {
            Some(j) => those.get(*j).equivalent_to(listing),
            None => false,
        };
        proof {
            if has_equivalent(listing@, those@) {
                let d = choose|d: int|
                    0 <= d < those@.len() && equivalent(#[trigger] those@[d], listing@);
                assert(index@[those@[d].relative_path] == d);
            }
            assert(matched == has_equivalent(listing@, those@));
            assert(after.drop_last() =~= before);
            assert(after.last() == listing@);
            lemma_lacking_step(after, those@);
        }
        if !matched {
            proof {
                lemma_lacking_membership(before, those@);
                if has_path(kept@, listing@.relative_path) {
                    let c = choose|c: int|
                        0 <= c < kept@.len() && (#[trigger] kept@[c]).relative_path
                            == listing@.relative_path;
                    assert(kept@.contains(kept@[c]));
                    let k = choose|k: int| 0 <= k < before.len() && before[k] == kept@[c];
                    assert(these@[k] == before[k]);
                    assert(these@[k].relative_path != these@[i as int].relative_path);
                }
            }
            kept = kept.with(listing.clone());
        }
        i = i + 1;
    }
    assert(these@.take(i as int) =~= these@);
    kept
}

/// The files of `source` that `dest` lacks: those without an equivalent
/// there, in the order of `source`.
pub fn source_only(source: &Snapshot, dest: &Snapshot) -> (only: Snapshot)
    ensures
        only@ == files_only_in_source(source@, dest@),
{
    lacking_in(source, dest)
}

/// The files of `dest` that `source` lacks: those without an equivalent
/// there, in the order of `dest`.
pub fn dest_only(source: &Snapshot, dest: &Snapshot) -> (only: Snapshot)
    ensures
        only@ == files_only_in_dest(source@, dest@),
{
    lacking_in(dest, source)
}

} // verus!
