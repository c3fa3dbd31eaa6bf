use dupefinder::database::{Database, FileDigest};
use dupefinder::reconcile::{filter_out_files_already_in_database, is_listed_path, reconcile, remove_outdated_files};
use std::collections::HashSet;

fn paths(list: &[&str]) -> Vec<String> {
    list.iter().map(|p| p.to_string()).collect()
}

fn five() -> Database {
    let rows = vec![
        (FileDigest::new(1, "/tmp/a", vec![0xaa, 0xaa, 0xaa, 0xaa], 2), None),
        (FileDigest::new(2, "/tmp/b", vec![0xaa, 0xaa, 0xaa, 0xaa], 2), None),
        (FileDigest::new(3, "/tmp/c", vec![0xaa, 0xaa, 0xaa, 0xab], 1), None),
        (FileDigest::new(4, "/tmp/d", vec![0xaa, 0xaa, 0xaa, 0xab], 3), None),
        (FileDigest::new(5, "/tmp/e", vec![0xaa, 0xaa, 0xaa, 0xac], 1), None),
    ];
    Database::new(rows, false).unwrap()
}

#[test]
fn test_filter_out_files_already_in_database() {
    let mut testfiles = Vec::new();
    testfiles.push(FileDigest::new(1, "/tmp/a", vec![0, 1, 2, 3], 1));
    testfiles.push(FileDigest::new(2, "/tmp/b", vec![0, 1, 2, 3], 1));
    testfiles.push(FileDigest::new(3, "/tmp/c", vec![0, 1, 2, 4], 1));

    let mut db = Database::new(Vec::new(), true).unwrap();
    for f in testfiles.iter() {
        db.insert_filedigest(&f).unwrap();
    }

    testfiles.push(FileDigest::new(4, "/tmp/d", vec![0, 1, 2, 4], 1));
    testfiles.push(FileDigest::new(5, "/tmp/e", vec![0, 1, 2, 5], 1));

    let all_files: Vec<String> = testfiles.iter().map(|f| f.path.clone()).collect();
    let new_files: HashSet<String> = filter_out_files_already_in_database(&db, all_files).into_iter().collect();
    let target_files: HashSet<String> = testfiles[3..].iter().map(|f| f.path.clone()).collect();
    assert_eq!(new_files, target_files);
}

#[test]
fn test_remove_outdated_files() {
    let mut db = five();
    let mut testfiles = db.get_all_filedigests();

    testfiles.remove(3);
    let remaining_files: Vec<String> = testfiles.iter().map(|f| f.path.clone()).collect();

    remove_outdated_files(&mut db, &remaining_files);
    let new_files = db.get_all_filedigests();
    assert_eq!(new_files, testfiles);
}

#[test]
fn removal_counts_and_keeps_order() {
    let mut db = five();
    assert_eq!(remove_outdated_files(&mut db, &paths(&["/tmp/e", "/tmp/x", "/tmp/b"])), 3);
    let left: Vec<(i64, String)> = db.get_all_filedigests().into_iter().map(|f| (f.id, f.path)).collect();
    assert_eq!(left, vec![(2, "/tmp/b".to_string()), (5, "/tmp/e".to_string())]);
    assert_eq!(remove_outdated_files(&mut db, &paths(&["/tmp/e", "/tmp/x", "/tmp/b"])), 0);
    assert_eq!(remove_outdated_files(&mut db, &Vec::new()), 2);
    assert_eq!(db.len(), 0);
}

#[test]
fn unknown_paths_keep_the_order_of_the_listing() {
    let db = five();
    let listing = paths(&["/tmp/z", "/tmp/c", "/tmp/y", "/tmp/a", "/tmp/x"]);
    assert_eq!(filter_out_files_already_in_database(&db, listing), paths(&["/tmp/z", "/tmp/y", "/tmp/x"]));
    assert!(filter_out_files_already_in_database(&db, Vec::new()).is_empty());
}

#[test]
fn listing_is_searched_for_the_whole_path() {
    let listing = paths(&["/tmp/a", "/tmp/ab"]);
    assert!(is_listed_path(&listing, &"/tmp/ab".to_string()));
    assert!(!is_listed_path(&listing, &"/tmp/".to_string()));
    assert!(!is_listed_path(&Vec::new(), &"/tmp/a".to_string()));
}

#[test]
fn reconcile_with_and_without_cleaning() {
    let listing = paths(&["/tmp/a", "/tmp/new", "/tmp/e"]);
    let mut db = five();
    assert_eq!(reconcile(&mut db, listing.clone(), false), paths(&["/tmp/new"]));
    assert_eq!(db.len(), 5);
    assert_eq!(reconcile(&mut db, listing.clone(), true), paths(&["/tmp/new"]));
    let left: Vec<i64> = db.get_all_filedigests().into_iter().map(|f| f.id).collect();
    assert_eq!(left, vec![1, 5]);
}

#[test]
fn reconciling_twice_changes_nothing() {
    for clean in [true, false] {
        let listing = paths(&["/tmp/a", "/tmp/new", "/tmp/e", "/tmp/other"]);
        let mut db = five();
        let unknown = reconcile(&mut db, listing.clone(), clean);
        for path in &unknown {
            db.insert_filedigest(&FileDigest::new(-1, path, vec![1, 2, 3, 4], 7)).unwrap();
        }
        let after_first = db.get_all_filedigests();
        let unknown_again = reconcile(&mut db, listing.clone(), clean);
        assert!(unknown_again.is_empty());
        assert_eq!(db.get_all_filedigests(), after_first);
    }
}
