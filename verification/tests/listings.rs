use treesync::listing::FileListing;
use treesync::snapshot::Snapshot;

fn file(path: &str, size: u64) -> FileListing {
    FileListing::new(path, size).unwrap()
}

#[test]
fn listing_takes_its_name_from_the_path() {
    let l = file("a/b/x.txt", 10);
    assert_eq!(l.name(), "x.txt");
    assert_eq!(l.relative_path(), "a/b/x.txt");
    assert_eq!(l.size(), 10);
    let top = file("y", 0);
    assert_eq!(top.name(), "y");
    assert_eq!(top.relative_path(), "y");
    assert_eq!(top.size(), 0);
}

#[test]
fn no_listing_without_a_file_name() {
    assert!(FileListing::new("", 1).is_none());
    assert!(FileListing::new("a/", 1).is_none());
    assert!(FileListing::new("/", 1).is_none());
    assert!(FileListing::new("a", 1).is_some());
}

#[test]
fn equivalent_when_path_and_size_agree() {
    let a = file("a/x.txt", 10);
    assert!(a.equivalent_to(&file("a/x.txt", 10)));
    assert!(a.equivalent_to(&a));
    assert!(!a.equivalent_to(&file("a/x.txt", 11)));
    assert!(!a.equivalent_to(&file("b/x.txt", 10)));
    assert!(!a.equivalent_to(&file("a/y.txt", 10)));
    assert!(!a.equivalent_to(&file("x.txt", 10)));
}

#[test]
fn equivalence_is_symmetric() {
    let a = file("a/x.txt", 10);
    let same = file("a/x.txt", 10);
    let other = file("a/x.txt", 3);
    assert_eq!(a.equivalent_to(&same), same.equivalent_to(&a));
    assert_eq!(a.equivalent_to(&other), other.equivalent_to(&a));
}

#[test]
fn clone_is_equivalent() {
    let a = file("a/x.txt", u64::MAX);
    let b = a.clone();
    assert!(a.equivalent_to(&b));
    assert_eq!(b.size(), u64::MAX);
    assert_eq!(b.name(), "x.txt");
    assert_eq!(b.relative_path(), "a/x.txt");
}

#[test]
fn snapshot_keeps_listings_in_order() {
    let s = Snapshot::from_listings(vec![file("b/y", 2), file("a/x", 1), file("c", 3)]).unwrap();
    assert_eq!(s.len(), 3);
    assert!(!s.is_empty());
    assert_eq!(s.get(0).relative_path(), "b/y");
    assert_eq!(s.get(1).relative_path(), "a/x");
    assert_eq!(s.get(2).relative_path(), "c");
    assert_eq!(s.get(2).size(), 3);
}

#[test]
fn snapshot_refuses_a_path_twice() {
    assert!(Snapshot::from_listings(vec![file("a/x", 1), file("b", 2), file("a/x", 3)]).is_none());
    assert!(Snapshot::from_listings(vec![file("a/x", 1), file("a/x", 1)]).is_none());
    assert!(Snapshot::from_listings(vec![file("a/x", 1), file("x", 1)]).is_some());
}

#[test]
fn empty_snapshot() {
    let s = Snapshot::new();
    assert_eq!(s.len(), 0);
    assert!(s.is_empty());
    let t = Snapshot::from_listings(Vec::new()).unwrap();
    assert_eq!(t.len(), 0);
}
