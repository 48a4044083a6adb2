//! What a run will do: the files to copy and the files to delete.

use vstd::prelude::*;
use crate::diff::{
    dest_only, files_only_in_dest, files_only_in_source, has_equivalent,
    lemma_lacking_membership, source_only,
};
use crate::listing::ListingView;
use crate::snapshot::{has_path, is_snapshot, Snapshot};

verus! {

/// A plan as plain values.
pub struct PlanView {
    /// The files to bring to the destination.
    pub copy_set: Seq<ListingView>,
    /// The files to remove from the destination.
    pub delete_set: Seq<ListingView>,
}

/// The plan that makes a destination listed as `dest` hold the files of
/// `source`: copy what is only in the source, delete what is only in the
/// destination.
pub open spec fn plan_for(source: Seq<ListingView>, dest: Seq<ListingView>) -> PlanView {
    PlanView {
        copy_set: files_only_in_source(source, dest),
        delete_set: files_only_in_dest(source, dest),
    }
}

/// Whether `after` lists the destination as it stands once `plan` has been
/// carried out on a tree that `dest` listed before. A deletion removes the
/// file at its relative path, then a copy puts the source's file at its
/// relative path, in place of what was there.
pub open spec fn lists_after_sync(
    after: Seq<ListingView>,
    dest: Seq<ListingView>,
    plan: PlanView,
) -> bool {
    forall|l: ListingView|
        #[trigger] after.contains(l) <==> plan.copy_set.contains(l) || (dest.contains(l)
            && !has_path(plan.delete_set, l.relative_path) && !has_path(
            plan.copy_set,
            l.relative_path,
        ))
}

/// A destination on which the plan for it has been carried out holds
/// exactly the files of the source.
pub proof fn lemma_sync_mirrors_source(
    source: Seq<ListingView>,
    dest: Seq<ListingView>,
    after: Seq<ListingView>,
)
    requires
        is_snapshot(source),
        is_snapshot(dest),
        lists_after_sync(after, dest, plan_for(source, dest)),
    ensures
        forall|l: ListingView| after.contains(l) <==> source.contains(l),
{
    let plan = plan_for(source, dest);
    lemma_lacking_membership(source, dest);
    lemma_lacking_membership(dest, source);
    assert forall|l: ListingView| after.contains(l) <==> source.contains(l) by {
        if after.contains(l) && !plan.copy_set.contains(l) {
            assert(dest.contains(l) && !has_path(plan.delete_set, l.relative_path));
            if plan.delete_set.contains(l) {
                let i = choose|i: int| 0 <= i < plan.delete_set.len() && plan.delete_set[i] == l;
                assert(plan.delete_set[i].relative_path == l.relative_path);
            }
            assert(has_equivalent(l, source));
            let s = choose|s: int| 0 <= s < source.len() && l == #[trigger] source[s];
            assert(source[s] == l);
        }
        if source.contains(l) && !plan.copy_set.contains(l) {
            assert(has_equivalent(l, dest));
            let d = choose|d: int| 0 <= d < dest.len() && l == #[trigger] dest[d];
            let s = choose|s: int| 0 <= s < source.len() && source[s] == l;
            assert(dest.contains(l));
            if has_path(plan.delete_set, l.relative_path) {
                let i = choose|i: int|
                    0 <= i < plan.delete_set.len() && (#[trigger] plan.delete_set[i]).relative_path
                        == l.relative_path;
                let gone = plan.delete_set[i];
                assert(plan.delete_set.contains(gone));
                let e = choose|e: int| 0 <= e < dest.len() && dest[e] == gone;
                assert(dest[e].relative_path == dest[d].relative_path);
                assert(e == d);
                assert(source[s] == gone);
            }
            if has_path(plan.copy_set, l.relative_path) {
                let i = choose|i: int|
                    0 <= i < plan.copy_set.len() && (#[trigger] plan.copy_set[i]).relative_path
                        == l.relative_path;
                let copied = plan.copy_set[i];
                assert(plan.copy_set.contains(copied));
                let t = choose|t: int| 0 <= t < source.len() && source[t] == copied;
                assert(source[t].relative_path == source[s].relative_path);
                assert(t == s);
            }
        }
    }
}

/// The files to copy and the files to delete.
#[derive(Debug)]
pub struct SyncPlan {
    copy_set: Snapshot,
    delete_set: Snapshot,
}

impl View for SyncPlan {
    type V = PlanView;

    closed spec fn view(&self) -> PlanView {
        PlanView { copy_set: self.copy_set@, delete_set: self.delete_set@ }
    }
}

impl SyncPlan {
    /// The plan that makes the tree listed by `dest` hold the files of the
    /// tree listed by `source`.
    pub fn new(source: &Snapshot, dest: &Snapshot) -> (plan: SyncPlan)
        ensures
            plan@ == plan_for(source@, dest@),
    {
        SyncPlan { copy_set: source_only(source, dest), delete_set: dest_only(source, dest) }
    }

    /// The files to bring to the destination, in the order of the source.
    pub fn copy_set(&self) -> (set: &Snapshot)
        ensures
            set@ == self@.copy_set,
    {
        &self.copy_set
    }

    /// The files to remove from the destination, in the order of the
    /// destination.
    pub fn delete_set(&self) -> (set: &Snapshot)
        ensures
            set@ == self@.delete_set,
    {
        &self.delete_set
    }

    /// Both sets are small enough to count.
    pub proof fn lemma_counts_fit(&self)
        ensures
            self@.copy_set.len() <= usize::MAX,
            self@.delete_set.len() <= usize::MAX,
    {
        self.copy_set.lemma_len_fits();
        self.delete_set.lemma_len_fits();
    }

    /// How many files the plan copies.
    pub fn copy_count(&self) -> (n: usize)
        ensures
            n == self@.copy_set.len(),
    {
        self.copy_set.len()
    }

    /// How many files the plan deletes.
    pub fn delete_count(&self) -> (n: usize)
        ensures
            n == self@.delete_set.len(),
    {
        self.delete_set.len()
    }
}

} // verus!
