//! Carries out a plan: first every deletion, then every copy.
//!
//! The executor touches nothing itself. It names the next action; whoever
//! drives it performs that action and hands back how it went. The first
//! failure ends the run: what was done stays done, and nothing more is
//! asked for.

use vstd::prelude::*;
use crate::failure::IoFailure;
use crate::path::{dir_prefix, dir_prefix_of, join, joined};
use crate::plan::{PlanView, SyncPlan};

verus! {

/// What the driver of a run is asked to do.
#[derive(PartialEq, Eq, Debug)]
pub enum Action {
    /// Show how many files are to be deleted and how many copied, then
    /// wait for one line from the operator.
    Confirm { delete_count: usize, copy_count: usize },
    /// Show the path of the file that is to be deleted, then wait for one
    /// line from the operator.
    AnnounceDelete { path: String },
    /// Remove the file at `path`.
    Remove { path: String },
    /// Show the copy from `from` to `to`, then create the directory `dir`
    /// and those above it, as far as they are missing.
    Prepare { from: String, to: String, dir: String },
    /// Copy the bytes of the file at `from` to `to`, in place of what is
    /// there.
    Copy { from: String, to: String },
}

/// An action as plain values.
pub enum ActionView {
    /// Show both counts and wait for one line.
    Confirm { delete_count: nat, copy_count: nat },
    /// Show the path and wait for one line.
    AnnounceDelete { path: Seq<char> },
    /// Remove the file at `path`.
    Remove { path: Seq<char> },
    /// Show the copy and create the directories that it needs.
    Prepare { from: Seq<char>, to: Seq<char>, dir: Seq<char> },
    /// Copy the bytes.
    Copy { from: Seq<char>, to: Seq<char> },
}

impl View for Action {
    type V = ActionView;

    open spec fn view(&self) -> ActionView {
        match self {
            Action::Confirm { delete_count, copy_count } => ActionView::Confirm {
                delete_count: *delete_count as nat,
                copy_count: *copy_count as nat,
            },
            Action::AnnounceDelete { path } => ActionView::AnnounceDelete { path: path@ },
            Action::Remove { path } => ActionView::Remove { path: path@ },
            Action::Prepare { from, to, dir } => ActionView::Prepare {
                from: from@,
                to: to@,
                dir: dir@,
            },
            Action::Copy { from, to } => ActionView::Copy { from: from@, to: to@ },
        }
    }
}

/// Why a run ended early.
#[derive(Clone, Copy, PartialEq, Eq, Debug)]
pub enum SyncError {
    /// The operator's line could not be read.
    Input(IoFailure),
    /// A file of the destination could not be removed.
    Delete(IoFailure),
    /// A directory could not be created, or a file could not be copied.
    Copy(IoFailure),
}

/// Where a run stands.
#[derive(Clone, Copy, PartialEq, Eq, Debug)]
pub enum Stage {
    /// Waiting for the operator to let the run begin.
    Confirm,
    /// Waiting for the operator's line before a deletion.
    Announce,
    /// Removing a file.
    Remove,
    /// Creating the directories that a copy needs.
    Prepare,
    /// Copying a file.
    Copy,
}

/// A run under way, as plain values.
pub struct ExecutorView {
    /// The root of the source tree.
    pub source_root: Seq<char>,
    /// The root of the destination tree.
    pub dest_root: Seq<char>,
    /// The plan that is carried out.
    pub plan: PlanView,
    /// Where the run stands.
    pub stage: Stage,
    /// The position, in the delete set or the copy set, of the file at hand.
    pub index: nat,
}

/// Whether the file at hand exists: while deleting, the position lies in
/// the delete set; while copying, in the copy set.
pub open spec fn in_step(v: ExecutorView) -> bool {
    match v.stage {
        Stage::Confirm => v.index == 0,
        Stage::Announce | Stage::Remove => v.index < v.plan.delete_set.len(),
        Stage::Prepare | Stage::Copy => v.index < v.plan.copy_set.len(),
    }
}

/// The run of `plan` between the two roots, before anything has happened.
pub open spec fn at_start(
    source_root: Seq<char>,
    dest_root: Seq<char>,
    plan: PlanView,
) -> ExecutorView {
    ExecutorView { source_root, dest_root, plan, stage: Stage::Confirm, index: 0 }
}

/// The path in the destination of the file to delete at position `i`.
pub open spec fn delete_path(v: ExecutorView, i: int) -> Seq<char> {
    joined(v.dest_root, v.plan.delete_set[i].relative_path)
}

/// The path in the source of the file to copy at position `i`.
pub open spec fn copy_from(v: ExecutorView, i: int) -> Seq<char> {
    joined(v.source_root, v.plan.copy_set[i].relative_path)
}

/// The path in the destination of the file to copy at position `i`.
pub open spec fn copy_to(v: ExecutorView, i: int) -> Seq<char> {
    joined(v.dest_root, v.plan.copy_set[i].relative_path)
}

/// What the run `v` asks for.
pub open spec fn action_of(v: ExecutorView) -> ActionView {
    let i = v.index as int;
    match v.stage {
        Stage::Confirm => ActionView::Confirm {
            delete_count: v.plan.delete_set.len(),
            copy_count: v.plan.copy_set.len(),
        },
        Stage::Announce => ActionView::AnnounceDelete { path: delete_path(v, i) },
        Stage::Remove => ActionView::Remove { path: delete_path(v, i) },
        Stage::Prepare => ActionView::Prepare {
            from: copy_from(v, i),
            to: copy_to(v, i),
            dir: dir_prefix(copy_to(v, i)),
        },
        Stage::Copy => ActionView::Copy { from: copy_from(v, i), to: copy_to(v, i) },
    }
}

/// The run `v` at the copy with position `i`, or nothing where the copy
/// set has no such position: the run is complete then.
pub open spec fn at_copy(v: ExecutorView, i: nat) -> Option<ExecutorView> {
    if i < v.plan.copy_set.len() {
        Some(ExecutorView { stage: Stage::Prepare, index: i, ..v })
    } else {
        None
    }
}

/// The run `v` at the deletion with position `i`, or at the first copy
/// where the delete set has no such position.
pub open spec fn at_delete(v: ExecutorView, i: nat) -> Option<ExecutorView> {
    if i < v.plan.delete_set.len() {
        Some(ExecutorView { stage: Stage::Announce, index: i, ..v })
    } else {
        at_copy(v, 0)
    }
}

/// The run that follows `v` once its action has succeeded, or nothing
/// where that action was the last. Whatever the operator's line holds,
/// the run goes on: after the first line with the first deletion, after
/// the line before a deletion with that deletion.
pub open spec fn after_success(v: ExecutorView) -> Option<ExecutorView> {
    match v.stage {
        Stage::Confirm => at_delete(v, 0),
        Stage::Announce => Some(ExecutorView { stage: Stage::Remove, ..v }),
        Stage::Remove => at_delete(v, v.index + 1),
        Stage::Prepare => Some(ExecutorView { stage: Stage::Copy, ..v }),
        Stage::Copy => at_copy(v, v.index + 1),
    }
}

/// The error that ends the run `v` when its action fails with `cause`.
pub open spec fn failure_of(v: ExecutorView, cause: IoFailure) -> SyncError {
    match v.stage {
        Stage::Confirm | Stage::Announce => SyncError::Input(cause),
        Stage::Remove => SyncError::Delete(cause),
        Stage::Prepare | Stage::Copy => SyncError::Copy(cause),
    }
}

/// How a run stands after an action, as plain values.
pub enum RunView {
    /// There is another action to perform.
    Pending(ExecutorView),
    /// Every deletion and every copy has been performed.
    Complete,
}

/// How the run `v` stands once its action has been performed with
/// `outcome`. Any failure ends the run with an error.
pub open spec fn advanced(v: ExecutorView, outcome: Result<(), IoFailure>) -> Result<
    RunView,
    SyncError,
> {
    match outcome {
        Err(cause) => Err(failure_of(v, cause)),
        Ok(_) => match after_success(v) {
            Some(next) => Ok(RunView::Pending(next)),
            None => Ok(RunView::Complete),
        },
    }
}

/// The number of actions of a run in which every action succeeds: the
/// operator is asked once, each deletion is announced and performed, each
/// copy is prepared and performed.
pub open spec fn run_length(plan: PlanView) -> nat {
    1 + 2 * plan.delete_set.len() + 2 * plan.copy_set.len()
}

/// Where the run that began as `start` stands once `done` actions have
/// succeeded: first the operator is asked; then the files of the delete
/// set are announced and removed, one after the other in their order;
/// only then the files of the copy set are prepared and copied, one after
/// the other in their order.
pub open spec fn state_after(start: ExecutorView, done: nat) -> ExecutorView {
    let deletions = 2 * start.plan.delete_set.len();
    if done == 0 {
        start
    } else if done <= deletions {
        ExecutorView {
            stage: if (done - 1) % 2 == 0 {
                Stage::Announce
            } else {
                Stage::Remove
            },
            index: ((done - 1) / 2) as nat,
            ..start
        }
    } else {
        ExecutorView {
            stage: if (done - 1 - deletions) % 2 == 0 {
                Stage::Prepare
            } else {
                Stage::Copy
            },
            index: ((done - 1 - deletions) / 2) as nat,
            ..start
        }
    }
}

/// A run in which every action succeeds goes through the deletions, then
/// through the copies, and is complete after the last of them: each state
/// is followed by the next, and the last by none.
pub proof fn lemma_run_keeps_order(
    source_root: Seq<char>,
    dest_root: Seq<char>,
    plan: PlanView,
    done: nat,
)
    requires
        done < run_length(plan),
    ensures
        in_step(state_after(at_start(source_root, dest_root, plan), done)),
        after_success(state_after(at_start(source_root, dest_root, plan), done)) == (if done + 1
            < run_length(plan) {
            Some(state_after(at_start(source_root, dest_root, plan), done + 1))
        } else {
            None
        }),
{
}

/// A run under way: there is an action to perform.
pub struct Executor {
    source_root: String,
    dest_root: String,
    plan: SyncPlan,
    stage: Stage,
    index: usize,
}

impl View for Executor {
    type V = ExecutorView;

    closed spec fn view(&self) -> ExecutorView {
        ExecutorView {
            source_root: self.source_root@,
            dest_root: self.dest_root@,
            plan: self.plan@,
            stage: self.stage,
            index: self.index as nat,
        }
    }
}

/// How a run stands after an action.
pub enum Run {
    /// There is another action to perform.
    Pending(Executor),
    /// Every deletion and every copy has been performed.
    Complete,
}

impl View for Run {
    type V = RunView;

    open spec fn view(&self) -> RunView {
        match self {
            Run::Pending(executor) => RunView::Pending(executor@),
            Run::Complete => RunView::Complete,
        }
    }
}

impl Executor {
    /// The file at hand exists.
    #[verifier::type_invariant]
    pub open spec fn is_in_step(self) -> bool {
        in_step(self@)
    }

    /// The run that carries out `plan` from the tree at `source_root` on
    /// the tree at `dest_root`. It starts by asking the operator.
    pub fn new(source_root: String, dest_root: String, plan: SyncPlan) -> (e: Executor)
        ensures
            e@ == at_start(source_root@, dest_root@, plan@),
    {
        Executor { source_root, dest_root, plan, stage: Stage::Confirm, index: 0 }
    }

    /// The plan that is carried out.
    pub fn plan(&self) -> (plan: &SyncPlan)
        ensures
            plan@ == self@.plan,
    {
        &self.plan
    }

    /// The action to perform next.
    pub fn action(&self) -> (a: Action)
        ensures
            a@ == action_of(self@),
    {
        proof {
            use_type_invariant(self);
        }
        match self.stage {
            Stage::Confirm => Action::Confirm {
                delete_count: self.plan.delete_count(),
                copy_count: self.plan.copy_count(),
            },
            Stage::Announce => Action::AnnounceDelete { path: self.delete_target() },
            Stage::Remove => Action::Remove { path: self.delete_target() },
            Stage::Prepare => {
                let to = self.copy_target();
                let dir = dir_prefix_of(to.as_str());
                Action::Prepare { from: self.copy_origin(), to, dir }
            },
            Stage::Copy => Action::Copy { from: self.copy_origin(), to: self.copy_target() },
        }
    }

    /// The path in the destination of the file to delete.
    fn delete_target(&self) -> (path: String)
        requires
            self@.index < self@.plan.delete_set.len(),
        ensures
            path@ == delete_path(self@, self@.index as int),
    {
        let listing = self.plan.delete_set().get(self.index);
        join(self.dest_root.as_str(), listing.relative_path())
    }

    /// The path in the source of the file to copy.
    fn copy_origin(&self) -> (path: String)
        requires
            self@.index < self@.plan.copy_set.len(),
        ensures
            path@ == copy_from(self@, self@.index as int),
    {
        let listing = self.plan.copy_set().get(self.index);
        join(self.source_root.as_str(), listing.relative_path())
    }

    /// The path in the destination of the file to copy.
    fn copy_target(&self) -> (path: String)
        requires
            self@.index < self@.plan.copy_set.len(),
        ensures
            path@ == copy_to(self@, self@.index as int),
    {
        let listing = self.plan.copy_set().get(self.index);
        join(self.dest_root.as_str(), listing.relative_path())
    }

    /// The run at the copy with position `i`, or the end of the run.
    fn to_copy(self, i: usize) -> (r: Run)
        ensures
            r@ == (match at_copy(self@, i as nat) {
                Some(next) => RunView::Pending(next),
                None => RunView::Complete,
            }),
    {
        if i < self.plan.copy_count() {
            Run::Pending(
                Executor {
                    source_root: self.source_root,
                    dest_root: self.dest_root,
                    plan: self.plan,
                    stage: Stage::Prepare,
                    index: i,
                },
            )
        } else {
            Run::Complete
        }
    }

    /// The run at the deletion with position `i`, or at the first copy.
    fn to_delete(self, i: usize) -> (r: Run)
        ensures
            r@ == (match at_delete(self@, i as nat) {
                Some(next) => RunView::Pending(next),
                None => RunView::Complete,
            }),
    {
        if i < self.plan.delete_count() {
            Run::Pending(
                Executor {
                    source_root: self.source_root,
                    dest_root: self.dest_root,
                    plan: self.plan,
                    stage: Stage::Announce,
                    index: i,
                },
            )
        } else {
            self.to_copy(0)
        }
    }

    /// Takes in how the action asked for went, and turns to the next one.
    /// A failure ends the run; the error tells which kind of action failed.
    pub fn advance(self, outcome: Result<(), IoFailure>) -> (r: Result<Run, SyncError>)
        ensures
            (match r {
                Ok(run) => Ok(run@),
                Err(e) => Err(e),
            }) == advanced(self@, outcome),
    {
        proof {
            use_type_invariant(&self);
            self.plan.lemma_counts_fit();
        }
        match outcome {
            Err(cause) => {
                match self.stage {
                    Stage::Confirm | Stage::Announce => Err(SyncError::Input(cause)),
                    Stage::Remove => Err(SyncError::Delete(cause)),
                    Stage::Prepare | Stage::Copy => Err(SyncError::Copy(cause)),
                }
            },
            Ok(_) => {
                match self.stage {
                    Stage::Confirm => Ok(self.to_delete(0)),
                    Stage::Announce => Ok(
                        Run::Pending(
                            Executor {
                                source_root: self.source_root,
                                dest_root: self.dest_root,
                                plan: self.plan,
                                stage: Stage::Remove,
                                index: self.index,
                            },
                        ),
                    ),
                    Stage::Remove => {
                        let next = self.index + 1;
                        Ok(self.to_delete(next))
                    },
                    Stage::Prepare => Ok(
                        Run::Pending(
                            Executor {
                                source_root: self.source_root,
                                dest_root: self.dest_root,
                                plan: self.plan,
                                stage: Stage::Copy,
                                index: self.index,
                            },
                        ),
                    ),
                    Stage::Copy => {
                        let next = self.index + 1;
                        Ok(self.to_copy(next))
                    },
                }
            },
        }
    }
}

} // verus!
