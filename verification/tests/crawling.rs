use std::collections::HashMap;
use treesync::crawl::{Crawl, CrawlError, Crawler, DirEntry, EntryKind, RootStatus};
use treesync::failure::IoFailure;
use treesync::listing::FileListing;
use treesync::snapshot::Snapshot;

fn file_entry(name: &str, size: u64) -> DirEntry {
    DirEntry { name: name.to_string(), kind: EntryKind::File { size } }
}

fn dir_entry(name: &str) -> DirEntry {
    DirEntry { name: name.to_string(), kind: EntryKind::Directory }
}

fn entries(listing: &[(&str, Option<u64>)]) -> Vec<DirEntry> {
    listing
        .iter()
        .map(|(name, size)| match size {
            Some(size) => file_entry(name, *size),
            None => dir_entry(name),
        })
        .collect()
}

/// Walks the tree given as a map from directory prefix to entries, and
/// tells which directories were read, in order.
fn walk(tree: &HashMap<&str, Vec<(&str, Option<u64>)>>) -> (Result<Snapshot, CrawlError>, Vec<String>) {
    let mut read = Vec::new();
    let mut crawler = match Crawler::begin(RootStatus::Directory) {
        Ok(crawler) => crawler,
        Err(e) => return (Err(e), read),
    };
    loop {
        let dir = crawler.directory().to_string();
        read.push(dir.clone());
        let outcome = match tree.get(dir.as_str()) {
            Some(listing) => Ok(entries(listing)),
            None => Err(IoFailure::NotFound),
        };
        match crawler.record(outcome) {
            Ok(Crawl::Pending(next)) => crawler = next,
            Ok(Crawl::Complete(snapshot)) => return (Ok(snapshot), read),
            Err(e) => return (Err(e), read),
        }
    }
}

fn files(s: &Snapshot) -> Vec<(String, String, u64)> {
    let mut all: Vec<(String, String, u64)> = (0..s.len())
        .map(|i| {
            let l = s.get(i);
            (l.relative_path().to_string(), l.name().to_string(), l.size())
        })
        .collect();
    all.sort();
    all
}

#[test]
fn empty_directory_gives_empty_snapshot() {
    let crawler = Crawler::begin(RootStatus::Directory).unwrap();
    assert_eq!(crawler.directory(), "");
    match crawler.record(Ok(Vec::new())) {
        Ok(Crawl::Complete(snapshot)) => {
            assert_eq!(snapshot.len(), 0);
            assert!(snapshot.is_empty());
        }
        _ => panic!("the crawl of an empty directory is complete after one read"),
    }
}

#[test]
fn missing_root_is_not_found() {
    assert!(matches!(Crawler::begin(RootStatus::Missing), Err(CrawlError::NotFound)));
}

#[test]
fn root_that_is_a_file_is_not_a_directory() {
    assert!(matches!(Crawler::begin(RootStatus::NotDirectory), Err(CrawlError::NotADirectory)));
}

#[test]
fn files_of_the_root_are_listed_by_name() {
    let mut tree = HashMap::new();
    tree.insert("", vec![("x.txt", Some(10)), ("y", Some(0))]);
    let (snapshot, read) = walk(&tree);
    let snapshot = snapshot.unwrap();
    assert_eq!(read, vec![""]);
    assert_eq!(snapshot.len(), 2);
    assert_eq!(snapshot.get(0).relative_path(), "x.txt");
    assert_eq!(snapshot.get(0).name(), "x.txt");
    assert_eq!(snapshot.get(0).size(), 10);
    assert_eq!(snapshot.get(1).relative_path(), "y");
    assert_eq!(snapshot.get(1).size(), 0);
}

#[test]
fn nested_directories_are_flattened() {
    let mut tree = HashMap::new();
    tree.insert("", vec![("a", None), ("top.txt", Some(1)), ("b", None), ("empty", None)]);
    tree.insert("a/", vec![("x.txt", Some(10)), ("deep", None)]);
    tree.insert("a/deep/", vec![("deeper", None)]);
    tree.insert("a/deep/deeper/", vec![("leaf", Some(7))]);
    tree.insert("b/", vec![("y.txt", Some(5))]);
    tree.insert("empty/", vec![]);
    let (snapshot, read) = walk(&tree);
    let snapshot = snapshot.unwrap();
    assert_eq!(
        files(&snapshot),
        vec![
            ("a/deep/deeper/leaf".to_string(), "leaf".to_string(), 7),
            ("a/x.txt".to_string(), "x.txt".to_string(), 10),
            ("b/y.txt".to_string(), "y.txt".to_string(), 5),
            ("top.txt".to_string(), "top.txt".to_string(), 1),
        ]
    );
    let mut read_sorted = read.clone();
    read_sorted.sort();
    assert_eq!(read_sorted, vec!["", "a/", "a/deep/", "a/deep/deeper/", "b/", "empty/"]);
    assert_eq!(read[0], "");
}

#[test]
fn the_directory_listed_last_is_read_next() {
    let mut tree = HashMap::new();
    tree.insert("", vec![("a", None), ("b", None)]);
    tree.insert("a/", vec![("x", Some(1))]);
    tree.insert("b/", vec![("c", None), ("y", Some(2))]);
    tree.insert("b/c/", vec![("z", Some(3))]);
    let (snapshot, read) = walk(&tree);
    assert_eq!(read, vec!["", "b/", "b/c/", "a/"]);
    let snapshot = snapshot.unwrap();
    assert_eq!(snapshot.get(0).relative_path(), "b/y");
    assert_eq!(snapshot.get(1).relative_path(), "b/c/z");
    assert_eq!(snapshot.get(2).relative_path(), "a/x");
}

#[test]
fn directories_without_files_leave_no_trace() {
    let mut tree = HashMap::new();
    tree.insert("", vec![("a", None), ("b", None)]);
    tree.insert("a/", vec![("c", None)]);
    tree.insert("a/c/", vec![]);
    tree.insert("b/", vec![]);
    let (snapshot, read) = walk(&tree);
    assert!(snapshot.unwrap().is_empty());
    assert_eq!(read.len(), 4);
}

#[test]
fn a_failed_read_ends_the_crawl() {
    let mut tree = HashMap::new();
    tree.insert("", vec![("a", None), ("x", Some(1))]);
    let (snapshot, read) = walk(&tree);
    assert!(matches!(snapshot, Err(CrawlError::ReadFailed(IoFailure::NotFound))));
    assert_eq!(read, vec!["", "a/"]);
    let crawler = Crawler::begin(RootStatus::Directory).unwrap();
    assert!(matches!(
        crawler.record(Err(IoFailure::PermissionDenied)),
        Err(CrawlError::ReadFailed(IoFailure::PermissionDenied))
    ));
    let crawler = Crawler::begin(RootStatus::Directory).unwrap();
    assert!(matches!(
        crawler.record(Err(IoFailure::Other)),
        Err(CrawlError::ReadFailed(IoFailure::Other))
    ));
}

#[test]
fn an_entry_without_a_name_is_broken() {
    let crawler = Crawler::begin(RootStatus::Directory).unwrap();
    let result = crawler.record(Ok(entries(&[("a", Some(1)), ("", Some(2))])));
    assert!(matches!(result, Err(CrawlError::BrokenEntry)));
}

#[test]
fn a_name_with_a_separator_is_broken() {
    let crawler = Crawler::begin(RootStatus::Directory).unwrap();
    let result = crawler.record(Ok(entries(&[("a/b", Some(1))])));
    assert!(matches!(result, Err(CrawlError::BrokenEntry)));
    let crawler = Crawler::begin(RootStatus::Directory).unwrap();
    let result = crawler.record(Ok(entries(&[("ok", None), ("sub/", None)])));
    assert!(matches!(result, Err(CrawlError::BrokenEntry)));
}

#[test]
fn a_name_twice_is_broken() {
    let crawler = Crawler::begin(RootStatus::Directory).unwrap();
    let result = crawler.record(Ok(entries(&[("a", Some(1)), ("b", None), ("a", Some(1))])));
    assert!(matches!(result, Err(CrawlError::BrokenEntry)));
    let crawler = Crawler::begin(RootStatus::Directory).unwrap();
    let result = crawler.record(Ok(entries(&[("a", Some(1)), ("a", None)])));
    assert!(matches!(result, Err(CrawlError::BrokenEntry)));
}

#[test]
fn relative_paths_are_unique() {
    let mut tree = HashMap::new();
    tree.insert("", vec![("a", None), ("ab", None), ("a b", Some(1)), ("b", Some(1))]);
    tree.insert("a/", vec![("b", Some(1)), ("a", None)]);
    tree.insert("a/a/", vec![("b", Some(1))]);
    tree.insert("ab/", vec![("b", Some(1)), ("a", Some(2))]);
    let (snapshot, _) = walk(&tree);
    let all = files(&snapshot.unwrap());
    assert_eq!(all.len(), 6);
    for i in 1..all.len() {
        assert_ne!(all[i - 1].0, all[i].0);
    }
}

#[test]
fn names_of_any_script_are_kept() {
    let mut tree = HashMap::new();
    tree.insert("", vec![("données", None), ("日本語.txt", Some(4))]);
    tree.insert("données/", vec![("été.txt", Some(9))]);
    let (snapshot, _) = walk(&tree);
    assert_eq!(
        files(&snapshot.unwrap()),
        vec![
            ("données/été.txt".to_string(), "été.txt".to_string(), 9),
            ("日本語.txt".to_string(), "日本語.txt".to_string(), 4),
        ]
    );
}

#[test]
fn a_crawled_file_is_the_file_of_its_path_and_size() {
    let mut tree = HashMap::new();
    tree.insert("", vec![("a", None)]);
    tree.insert("a/", vec![("x.txt", Some(10))]);
    let (snapshot, _) = walk(&tree);
    let snapshot = snapshot.unwrap();
    assert_eq!(snapshot.len(), 1);
    assert!(snapshot.get(0).equivalent_to(&FileListing::new("a/x.txt", 10).unwrap()));
    assert!(!snapshot.get(0).equivalent_to(&FileListing::new("a/x.txt", 11).unwrap()));
}
