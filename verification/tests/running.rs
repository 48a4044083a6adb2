use treesync::executor::{Action, Executor, Run, SyncError};
use treesync::failure::IoFailure;
use treesync::listing::FileListing;
use treesync::plan::SyncPlan;
use treesync::snapshot::Snapshot;

fn snapshot(files: &[(&str, u64)]) -> Snapshot {
    let listings = files.iter().map(|(p, s)| FileListing::new(p, *s).unwrap()).collect();
    Snapshot::from_listings(listings).unwrap()
}

fn executor(source: &[(&str, u64)], dest: &[(&str, u64)]) -> Executor {
    let plan = SyncPlan::new(&snapshot(source), &snapshot(dest));
    Executor::new("src".to_string(), "dst".to_string(), plan)
}

/// Runs to the end, every action succeeding but the one at position
/// `fails` (if any), which fails with `cause`.
fn run(mut executor: Executor, fails: Option<usize>, cause: IoFailure) -> (Vec<Action>, Result<(), SyncError>) {
    let mut actions = Vec::new();
    loop {
        actions.push(executor.action());
        let outcome = if fails == Some(actions.len() - 1) { Err(cause) } else { Ok(()) };
        match executor.advance(outcome) {
            Ok(Run::Pending(next)) => executor = next,
            Ok(Run::Complete) => return (actions, Ok(())),
            Err(e) => return (actions, Err(e)),
        }
    }
}

fn confirm(delete_count: usize, copy_count: usize) -> Action {
    Action::Confirm { delete_count, copy_count }
}

fn announce(path: &str) -> Action {
    Action::AnnounceDelete { path: path.to_string() }
}

fn remove(path: &str) -> Action {
    Action::Remove { path: path.to_string() }
}

fn prepare(from: &str, to: &str, dir: &str) -> Action {
    Action::Prepare { from: from.to_string(), to: to.to_string(), dir: dir.to_string() }
}

fn copy(from: &str, to: &str) -> Action {
    Action::Copy { from: from.to_string(), to: to.to_string() }
}

#[test]
fn deletes_then_copies() {
    let e = executor(
        &[("a/x.txt", 10), ("b/y.txt", 5), ("top", 1)],
        &[("a/x.txt", 10), ("c/z.txt", 3), ("old", 2)],
    );
    let (actions, result) = run(e, None, IoFailure::Other);
    assert_eq!(result, Ok(()));
    assert_eq!(
        actions,
        vec![
            confirm(2, 2),
            announce("dst/c/z.txt"),
            remove("dst/c/z.txt"),
            announce("dst/old"),
            remove("dst/old"),
            prepare("src/b/y.txt", "dst/b/y.txt", "dst/b/"),
            copy("src/b/y.txt", "dst/b/y.txt"),
            prepare("src/top", "dst/top", "dst/"),
            copy("src/top", "dst/top"),
        ]
    );
}

#[test]
fn a_removal_that_finds_no_file_ends_the_run_before_any_copy() {
    let e = executor(&[("a/x.txt", 10), ("b/y.txt", 5)], &[("a/x.txt", 10), ("c/z.txt", 3)]);
    let (actions, result) = run(e, Some(2), IoFailure::NotFound);
    assert_eq!(result, Err(SyncError::Delete(IoFailure::NotFound)));
    assert_eq!(actions, vec![confirm(1, 1), announce("dst/c/z.txt"), remove("dst/c/z.txt")]);
    assert!(!actions.iter().any(|a| matches!(a, Action::Prepare { .. } | Action::Copy { .. })));
}

#[test]
fn a_failed_removal_leaves_later_deletions_undone() {
    let e = executor(&[], &[("a", 1), ("b", 2), ("c", 3)]);
    let (actions, result) = run(e, Some(4), IoFailure::PermissionDenied);
    assert_eq!(result, Err(SyncError::Delete(IoFailure::PermissionDenied)));
    assert_eq!(
        actions,
        vec![confirm(3, 0), announce("dst/a"), remove("dst/a"), announce("dst/b"), remove("dst/b")]
    );
}

#[test]
fn a_failed_copy_ends_the_run() {
    let e = executor(&[("a", 1), ("b", 2)], &[]);
    let (actions, result) = run(e, Some(2), IoFailure::Other);
    assert_eq!(result, Err(SyncError::Copy(IoFailure::Other)));
    assert_eq!(actions, vec![confirm(0, 2), prepare("src/a", "dst/a", "dst/"), copy("src/a", "dst/a")]);
}

#[test]
fn a_directory_that_cannot_be_created_is_a_copy_failure() {
    let e = executor(&[("d/a", 1), ("b", 2)], &[]);
    let (actions, result) = run(e, Some(1), IoFailure::PermissionDenied);
    assert_eq!(result, Err(SyncError::Copy(IoFailure::PermissionDenied)));
    assert_eq!(actions, vec![confirm(0, 2), prepare("src/d/a", "dst/d/a", "dst/d/")]);
}

#[test]
fn an_unreadable_line_ends_the_run() {
    let e = executor(&[("a", 1)], &[("b", 2)]);
    let (actions, result) = run(e, Some(0), IoFailure::Other);
    assert_eq!(result, Err(SyncError::Input(IoFailure::Other)));
    assert_eq!(actions, vec![confirm(1, 1)]);
    let e = executor(&[("a", 1)], &[("b", 2)]);
    let (actions, result) = run(e, Some(1), IoFailure::Other);
    assert_eq!(result, Err(SyncError::Input(IoFailure::Other)));
    assert_eq!(actions, vec![confirm(1, 1), announce("dst/b")]);
}

#[test]
fn an_empty_plan_still_asks_the_operator() {
    let e = executor(&[("a", 1)], &[("a", 1)]);
    let (actions, result) = run(e, None, IoFailure::Other);
    assert_eq!(result, Ok(()));
    assert_eq!(actions, vec![confirm(0, 0)]);
}

#[test]
fn only_copies() {
    let e = executor(&[("a/b/c", 1)], &[]);
    let (actions, result) = run(e, None, IoFailure::Other);
    assert_eq!(result, Ok(()));
    assert_eq!(
        actions,
        vec![confirm(0, 1), prepare("src/a/b/c", "dst/a/b/c", "dst/a/b/"), copy("src/a/b/c", "dst/a/b/c")]
    );
}

#[test]
fn a_changed_file_is_removed_before_it_is_copied() {
    let e = executor(&[("a/x", 10)], &[("a/x", 11)]);
    let (actions, result) = run(e, None, IoFailure::Other);
    assert_eq!(result, Ok(()));
    assert_eq!(
        actions,
        vec![
            confirm(1, 1),
            announce("dst/a/x"),
            remove("dst/a/x"),
            prepare("src/a/x", "dst/a/x", "dst/a/"),
            copy("src/a/x", "dst/a/x"),
        ]
    );
}

#[test]
fn roots_that_end_with_a_separator_get_no_second_one() {
    let plan = SyncPlan::new(&snapshot(&[("a", 1)]), &snapshot(&[("b", 1)]));
    let e = Executor::new("/data/src/".to_string(), "/".to_string(), plan);
    assert_eq!(e.plan().copy_count(), 1);
    let (actions, _) = run(e, None, IoFailure::Other);
    assert_eq!(
        actions,
        vec![
            confirm(1, 1),
            announce("/b"),
            remove("/b"),
            prepare("/data/src/a", "/a", "/"),
            copy("/data/src/a", "/a"),
        ]
    );
}
