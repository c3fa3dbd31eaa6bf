use dupefinder::database::{is_video_file, Database, FileDigest, StoreError, VideoHash};

fn empty() -> Database {
    Database::new(Vec::new(), true).unwrap()
}

fn hash(id: i64, histogram: Vec<u8>) -> VideoHash {
    VideoHash { id, path: String::new(), histogram, size: 0 }
}

#[test]
fn test_insert_file() {
    let mut db = empty();
    let file = FileDigest::new(1, "/tmp/a", vec![0, 1, 2, 3], 1);
    db.insert_filedigest(&file).unwrap();
    let inserted_files = db.get_all_filedigests();
    let target = vec![file];
    assert_eq!(inserted_files, target);
}

#[test]
fn test_lookup_file_by_index() {
    let mut db = empty();
    let target_path = "/tmp/abcde";
    let file1 = FileDigest::new(1, "/tmp/abc", vec![0, 1, 2, 3], 1);
    let file2 = FileDigest::new(2, target_path, vec![0, 1, 2, 3], 1);
    let file3 = FileDigest::new(3, "/tmp/cde", vec![0, 1, 2, 3], 1);
    db.insert_filedigest(&file1).unwrap();
    db.insert_filedigest(&file2).unwrap();
    db.insert_filedigest(&file3).unwrap();

    let file = db.lookup_filedigest(2).unwrap();
    assert_eq!(file, file2);
}

#[test]
fn test_insert_file_twice() {
    let mut db = empty();
    let file1 = FileDigest::new(1, "/tmp/a", vec![0, 1, 2, 3], 1);
    let file2 = FileDigest::new(2, "/tmp/a", vec![0, 1, 2, 4], 1);
    db.insert_filedigest(&file1).unwrap();
    let throws_error = match db.insert_filedigest(&file2) {
        Ok(_) => false,
        Err(_) => true,
    };
    assert!(throws_error);
}

#[test]
fn duplicate_path_is_reported_and_first_digest_stays() {
    let mut db = empty();
    let first = FileDigest::new(0, "/tmp/a", vec![1, 1, 1, 1], 10);
    let second = FileDigest::new(0, "/tmp/a", vec![2, 2, 2, 2], 20);
    assert_eq!(db.insert_filedigest(&first), Ok(1));
    assert_eq!(db.insert_filedigest(&second), Err(StoreError::IgnoredInsert));
    let files = db.get_all_filedigests();
    assert_eq!(files.len(), 1);
    assert_eq!(files[0].digest, vec![1, 1, 1, 1]);
    assert_eq!(files[0].size, 10);
}

#[test]
fn ids_are_assigned_in_insertion_order_and_ignore_the_given_id() {
    let mut db = empty();
    assert_eq!(db.insert_filedigest(&FileDigest::new(77, "/x", vec![9], 1)), Ok(1));
    assert_eq!(db.insert_filedigest(&FileDigest::new(-5, "/y", vec![9], 2)), Ok(2));
    assert_eq!(db.insert_filedigest(&FileDigest::new(1, "/z", vec![9], 3)), Ok(3));
    let ids: Vec<i64> = db.get_all_filedigests().iter().map(|f| f.id).collect();
    assert_eq!(ids, vec![1, 2, 3]);
    assert_eq!(db.len(), 3);
}

#[test]
fn next_id_follows_the_greatest_id() {
    let rows = vec![
        (FileDigest::new(3, "/a", vec![0], 1), None),
        (FileDigest::new(10, "/b", vec![0], 1), None),
    ];
    let mut db = Database::new(rows, false).unwrap();
    assert_eq!(db.insert_filedigest(&FileDigest::new(0, "/c", vec![0], 1)), Ok(11));
}

#[test]
fn insert_is_refused_when_ids_run_out() {
    let rows = vec![(FileDigest::new(i64::MAX, "/a", vec![0], 1), None)];
    let mut db = Database::new(rows, false).unwrap();
    assert_eq!(db.insert_filedigest(&FileDigest::new(0, "/b", vec![0], 1)), Err(StoreError::Full));
    assert_eq!(db.len(), 1);
}

#[test]
fn new_with_reset_drops_the_rows() {
    let rows = vec![(FileDigest::new(1, "/a", vec![0], 1), Some(vec![1, 2]))];
    let db = Database::new(rows, true).unwrap();
    assert_eq!(db.len(), 0);
    assert!(db.get_all_files_with_videohash().is_empty());
}

#[test]
fn new_keeps_rows_and_histograms() {
    let rows = vec![
        (FileDigest::new(2, "/a.mp4", vec![7], 5), Some(vec![1, 2])),
        (FileDigest::new(4, "/b.mp4", vec![8], 6), None),
    ];
    let db = Database::new(rows, false).unwrap();
    assert_eq!(
        db.get_all_filedigests(),
        vec![FileDigest::new(2, "/a.mp4", vec![7], 5), FileDigest::new(4, "/b.mp4", vec![8], 6)]
    );
    assert_eq!(
        db.get_all_files_with_videohash(),
        vec![VideoHash { id: 2, path: "/a.mp4".to_string(), histogram: vec![1, 2], size: 5 }]
    );
    assert_eq!(db.get_files_without_videohash(), vec![(4, "/b.mp4".to_string(), 6)]);
}

#[test]
fn new_refuses_rows_that_break_the_invariant() {
    let same_path = vec![
        (FileDigest::new(1, "/a", vec![0], 1), None),
        (FileDigest::new(2, "/a", vec![0], 1), None),
    ];
    assert!(matches!(Database::new(same_path, false), Err(StoreError::Corrupt)));
    let ids_not_ascending = vec![
        (FileDigest::new(2, "/a", vec![0], 1), None),
        (FileDigest::new(2, "/b", vec![0], 1), None),
    ];
    assert!(matches!(Database::new(ids_not_ascending, false), Err(StoreError::Corrupt)));
    let id_not_positive = vec![(FileDigest::new(0, "/a", vec![0], 1), None)];
    assert!(matches!(Database::new(id_not_positive, false), Err(StoreError::Corrupt)));
}

#[test]
fn lookup_of_unknown_id_is_not_found() {
    let mut db = empty();
    db.insert_filedigest(&FileDigest::new(0, "/a", vec![0], 1)).unwrap();
    assert_eq!(db.lookup_filedigest(2), Err(StoreError::NotFound));
    assert_eq!(db.lookup_filedigest(0), Err(StoreError::NotFound));
}

#[test]
fn delete_returns_the_number_of_rows_removed() {
    let mut db = empty();
    db.insert_filedigest(&FileDigest::new(0, "/a", vec![0], 1)).unwrap();
    db.insert_filedigest(&FileDigest::new(0, "/b", vec![0], 1)).unwrap();
    assert_eq!(db.delete_filedigest(5), 0);
    assert_eq!(db.delete_filedigest(1), 1);
    assert_eq!(db.delete_filedigest(1), 0);
    let paths: Vec<String> = db.get_all_filedigests().into_iter().map(|f| f.path).collect();
    assert_eq!(paths, vec!["/b".to_string()]);
}

#[test]
fn delete_takes_the_histogram_along() {
    let mut db = empty();
    db.insert_filedigest(&FileDigest::new(0, "/a.mp4", vec![0], 1)).unwrap();
    db.insert_many_videohashes(&vec![hash(1, vec![5])]).unwrap();
    assert_eq!(db.get_all_files_with_videohash().len(), 1);
    assert_eq!(db.delete_filedigest(1), 1);
    assert!(db.get_all_files_with_videohash().is_empty());
}

#[test]
fn rename_keeps_digest_size_and_id() {
    let mut db = empty();
    db.insert_filedigest(&FileDigest::new(0, "/a", vec![1, 2], 9)).unwrap();
    db.insert_filedigest(&FileDigest::new(0, "/b", vec![3, 4], 8)).unwrap();
    assert_eq!(db.rename_file(2, "/c".to_string()), Ok(()));
    assert_eq!(db.lookup_filedigest(2), Ok(FileDigest::new(2, "/c", vec![3, 4], 8)));
    assert_eq!(db.lookup_filedigest(1), Ok(FileDigest::new(1, "/a", vec![1, 2], 9)));
}

#[test]
fn rename_errors() {
    let mut db = empty();
    db.insert_filedigest(&FileDigest::new(0, "/a", vec![1], 1)).unwrap();
    db.insert_filedigest(&FileDigest::new(0, "/b", vec![2], 1)).unwrap();
    assert_eq!(db.rename_file(3, "/c".to_string()), Err(StoreError::NotFound));
    assert_eq!(db.rename_file(2, "/a".to_string()), Err(StoreError::DuplicatePath));
    assert_eq!(db.rename_file(2, "/b".to_string()), Ok(()));
    let paths: Vec<String> = db.get_all_filedigests().into_iter().map(|f| f.path).collect();
    assert_eq!(paths, vec!["/a".to_string(), "/b".to_string()]);
}

#[test]
fn batch_insert_commits_all_and_counts() {
    let mut db = empty();
    let files = vec![
        FileDigest::new(0, "/a", vec![1], 1),
        FileDigest::new(0, "/b", vec![2], 2),
        FileDigest::new(0, "/c", vec![3], 3),
    ];
    assert_eq!(db.insert_many_filedigests(&files), Ok(3));
    let stored = db.get_all_filedigests();
    assert_eq!(stored.len(), 3);
    assert_eq!(stored[2], FileDigest::new(3, "/c", vec![3], 3));
    assert_eq!(db.insert_many_filedigests(&Vec::new()), Ok(0));
}

#[test]
fn batch_insert_is_all_or_nothing() {
    let mut db = empty();
    db.insert_filedigest(&FileDigest::new(0, "/b", vec![0], 1)).unwrap();
    let clashes_with_index = vec![
        FileDigest::new(0, "/a", vec![1], 1),
        FileDigest::new(0, "/b", vec![2], 2),
        FileDigest::new(0, "/c", vec![3], 3),
    ];
    assert_eq!(db.insert_many_filedigests(&clashes_with_index), Err(StoreError::IgnoredInsert));
    assert_eq!(db.get_all_filedigests(), vec![FileDigest::new(1, "/b", vec![0], 1)]);
    let clashes_within = vec![FileDigest::new(0, "/x", vec![1], 1), FileDigest::new(0, "/x", vec![2], 2)];
    assert_eq!(db.insert_many_filedigests(&clashes_within), Err(StoreError::IgnoredInsert));
    assert_eq!(db.len(), 1);
    assert!(!db.contains_path(&"/x".to_string()));
    assert!(db.contains_path(&"/b".to_string()));
}

#[test]
fn batch_insert_is_refused_when_ids_run_out() {
    let rows = vec![(FileDigest::new(i64::MAX - 1, "/a", vec![0], 1), None)];
    let mut db = Database::new(rows, false).unwrap();
    let files = vec![FileDigest::new(0, "/b", vec![1], 1), FileDigest::new(0, "/c", vec![2], 2)];
    assert_eq!(db.insert_many_filedigests(&files), Err(StoreError::Full));
    assert_eq!(db.len(), 1);
}

#[test]
fn histogram_batch_errors_roll_back() {
    let mut db = empty();
    db.insert_filedigest(&FileDigest::new(0, "/a.mp4", vec![0], 1)).unwrap();
    db.insert_filedigest(&FileDigest::new(0, "/b.mp4", vec![0], 1)).unwrap();
    let missing_file = vec![hash(1, vec![1]), hash(9, vec![2])];
    assert_eq!(db.insert_many_videohashes(&missing_file), Err(StoreError::MissingFile));
    assert!(db.get_all_files_with_videohash().is_empty());
    let twice_in_batch = vec![hash(2, vec![1]), hash(1, vec![2]), hash(2, vec![3])];
    assert_eq!(db.insert_many_videohashes(&twice_in_batch), Err(StoreError::DuplicateHistogram));
    assert!(db.get_all_files_with_videohash().is_empty());
    assert_eq!(db.insert_many_videohashes(&vec![hash(2, vec![7])]), Ok(()));
    assert_eq!(db.insert_many_videohashes(&vec![hash(1, vec![8]), hash(2, vec![9])]), Err(StoreError::DuplicateHistogram));
    assert_eq!(
        db.get_all_files_with_videohash(),
        vec![VideoHash { id: 2, path: "/b.mp4".to_string(), histogram: vec![7], size: 1 }]
    );
}

#[test]
fn extension_filter_lists_videos_without_histogram() {
    let mut db = empty();
    for path in ["a.mp4", "b.jpg", "c.wmv", "d.avi"] {
        db.insert_filedigest(&FileDigest::new(0, path, vec![0], 1)).unwrap();
    }
    let paths: Vec<String> = db.get_files_without_videohash().into_iter().map(|f| f.1).collect();
    assert_eq!(paths, vec!["a.mp4".to_string(), "c.wmv".to_string(), "d.avi".to_string()]);
}

#[test]
fn video_extensions_are_recognised_in_any_case() {
    for path in ["/v/a.mp4", "/v/a.AVI", "/v/a.mKv", "/v/a.WMV", "/v/a.flv", "x.Mp4"] {
        assert!(is_video_file(&path.to_string()), "{}", path);
    }
    for path in ["/v/a.jpg", "/v/amp4", "mp4", ".mp", "", "/v/a.mp4x", "/v/a.mp3", "/v/a.mov", "/v/\u{e9}.mp"] {
        assert!(!is_video_file(&path.to_string()), "{}", path);
    }
    assert!(is_video_file(&"/v/\u{e9}\u{4e2d}.mkv".to_string()));
}
