use dupefinder::database::{Database, FileDigest, StoreError, VideoHash};
use dupefinder::matrix::distance;
use dupefinder::videohash::{calculate_distances, find_similar_files, is_all_zero, l1_distance, update_hashes};
use std::collections::HashSet;

fn hash(id: i64, histogram: Vec<u8>) -> VideoHash {
    VideoHash { id, path: String::new(), histogram, size: 0 }
}

fn video(id: i64, path: &str, size: u64, histogram: Vec<u8>) -> VideoHash {
    VideoHash { id, path: path.to_string(), histogram, size }
}

fn file_row(id: i64, path: &str, size: u64, histogram: Option<Vec<u8>>) -> (FileDigest, Option<Vec<u8>>) {
    (FileDigest::new(id, path, Vec::new(), size), histogram)
}

fn ids(bags: &Vec<Vec<&VideoHash>>) -> Vec<Vec<i64>> {
    bags.iter().map(|b| b.iter().map(|x| x.id).collect()).collect()
}

#[test]
fn test_get_files_without_videohash() {
    let rows = vec![
        file_row(1, "/tmp/a.mp4", 1, None),
        file_row(2, "/tmp/b.jpg", 1, None),
        file_row(3, "/tmp/c.wmv", 1, None),
        file_row(4, "/tmp/d.avi", 1, None),
    ];
    let mut db = Database::new(rows, false).unwrap();
    db.insert_many_videohashes(&vec![hash(3, vec![0])]).unwrap();

    let files = db.get_files_without_videohash();
    let ids: Vec<i64> = files.into_iter().map(|x| x.0).collect();
    assert_eq!(ids, [1, 4]);
}

#[test]
fn test_get_files_without_histogram() {
    let rows = vec![
        file_row(1, "/tmp/a.mp4", 1, None),
        file_row(2, "/tmp/b.jpg", 1, None),
        file_row(3, "/tmp/c.wmv", 1, Some(vec![0])),
        file_row(4, "/tmp/d.avi", 1, None),
    ];
    let db = Database::new(rows, false).unwrap();

    let files = db.get_files_without_videohash();
    let ids: Vec<i64> = files.into_iter().map(|x| x.0).collect();
    assert_eq!(ids, [1, 4]);
}

#[test]
fn test_get_all_files_with_videohash() {
    let rows = vec![
        file_row(1, "/tmp/a.mp4", 10, None),
        file_row(2, "/tmp/b.jpg", 11, None),
        file_row(3, "/tmp/c.wmv", 12, None),
        file_row(4, "/tmp/d.avi", 13, None),
    ];
    let mut db = Database::new(rows, false).unwrap();
    db.insert_many_videohashes(&vec![hash(3, vec![0xaa, 0xaa, 0xaa, 0xaa]), hash(4, vec![0xaa, 0xaa, 0xaa, 0xab])])
        .unwrap();

    let files = db.get_all_files_with_videohash();

    let mut target_list = Vec::new();
    target_list.push(VideoHash { id: 3, path: "/tmp/c.wmv".to_string(), size: 12, histogram: vec![170, 170, 170, 170] });
    target_list.push(VideoHash { id: 4, path: "/tmp/d.avi".to_string(), size: 13, histogram: vec![170, 170, 170, 171] });
    assert_eq!(files, target_list);
}

fn five_videos() -> Database {
    let rows = vec![
        file_row(1, "/tmp/a.mp4", 10, None),
        file_row(2, "/tmp/b.mp4", 11, None),
        file_row(3, "/tmp/c.wmv", 12, None),
        file_row(4, "/tmp/d.avi", 13, None),
        file_row(5, "tmp/e.wmv", 15, None),
    ];
    let mut db = Database::new(rows, false).unwrap();
    db.insert_many_videohashes(&vec![
        hash(1, vec![0xff, 0x00, 0xff, 0x00]),
        hash(2, vec![0xff, 0x01, 0xff, 0x00]),
        hash(3, vec![0x00, 0x00, 0x00, 0xa0]),
        hash(4, vec![0x00, 0xff, 0x00, 0xff]),
        hash(5, vec![0x00, 0x00, 0x00, 0xa2]),
    ])
    .unwrap();
    db
}

#[test]
fn test_find_similar_files() {
    let db = five_videos();
    let files = db.get_all_files_with_videohash();
    let threshold = 128;
    let dist = calculate_distances(&files);
    let similar_files = find_similar_files(&files, &dist, threshold);
    let res: HashSet<Vec<i64>> = similar_files.iter().map(|b| b.iter().map(|x| x.id).collect()).collect();
    let expected = HashSet::from([vec![3, 5], vec![1, 2]]);
    assert_eq!(res, expected);
}

#[test]
fn groups_come_in_the_order_of_their_first_members() {
    let db = five_videos();
    let files = db.get_all_files_with_videohash();
    let dist = calculate_distances(&files);
    assert_eq!(ids(&find_similar_files(&files, &dist, 128)), vec![vec![1, 2], vec![3, 5]]);
    assert_eq!(ids(&find_similar_files(&files, &dist, 2)), vec![vec![1, 2]]);
    assert_eq!(ids(&find_similar_files(&files, &dist, 1)), Vec::<Vec<i64>>::new());
    assert_eq!(ids(&find_similar_files(&files, &dist, 0)), Vec::<Vec<i64>>::new());
    assert_eq!(ids(&find_similar_files(&files, &dist, u16::MAX)), vec![vec![1, 2, 3, 4, 5]]);
}

#[test]
fn l1_distance_sums_the_gaps() {
    assert_eq!(l1_distance(&vec![0xff, 0x00, 0xff, 0x00], &vec![0xff, 0x01, 0xff, 0x00]), 1);
    assert_eq!(l1_distance(&vec![0x00, 0x00, 0x00, 0xa0], &vec![0x00, 0x00, 0x00, 0xa2]), 2);
    assert_eq!(l1_distance(&vec![0xff, 0x00, 0xff, 0x00], &vec![0x00, 0xff, 0x00, 0xff]), 1020);
    assert_eq!(l1_distance(&vec![], &vec![]), 0);
    assert_eq!(l1_distance(&vec![255; 64], &vec![0; 64]), 16320);
    assert_eq!(l1_distance(&vec![0; 257], &vec![255; 257]), 65535);
}

#[test]
fn l1_distance_is_symmetric_and_zero_on_the_diagonal() {
    let a: Vec<u8> = (0..64).map(|i| (i * 37 % 256) as u8).collect();
    let b: Vec<u8> = (0..64).map(|i| (i * 91 % 256) as u8).collect();
    assert_eq!(l1_distance(&a, &b), l1_distance(&b, &a));
    assert_eq!(l1_distance(&a, &a), 0);
    assert_eq!(l1_distance(&b, &b), 0);
}

#[test]
fn distance_table_is_symmetric_with_zero_diagonal() {
    let files = vec![
        video(1, "a", 1, vec![10, 20, 30]),
        video(2, "b", 1, vec![13, 20, 25]),
        video(3, "c", 1, vec![0, 0, 0]),
    ];
    let dist = calculate_distances(&files);
    let expected = [[0u16, 8, 60], [8, 0, 58], [60, 58, 0]];
    for i in 0..3 {
        for j in 0..3 {
            assert_eq!(distance(&dist, i, j), expected[i][j]);
            assert_eq!(distance(&dist, i, j), distance(&dist, j, i));
        }
    }
    let none = calculate_distances(&Vec::new());
    assert!(find_similar_files(&Vec::new(), &none, 5).is_empty());
}

#[test]
fn all_zero_histogram_is_never_grouped() {
    let files = vec![
        video(1, "a", 1, vec![0, 0, 0, 0]),
        video(2, "b", 1, vec![0, 1, 0, 0]),
        video(3, "c", 1, vec![0, 0, 0, 0]),
        video(4, "d", 1, vec![1, 0, 0, 0]),
        video(5, "e", 1, vec![0, 0, 0, 0]),
    ];
    let dist = calculate_distances(&files);
    assert_eq!(ids(&find_similar_files(&files, &dist, 3)), vec![vec![2, 4]]);
    assert_eq!(ids(&find_similar_files(&files, &dist, 2)), Vec::<Vec<i64>>::new());
    assert_eq!(ids(&find_similar_files(&files, &dist, u16::MAX)), vec![vec![2, 4]]);
    assert!(is_all_zero(&vec![0, 0, 0]));
    assert!(is_all_zero(&Vec::new()));
    assert!(!is_all_zero(&vec![0, 0, 1]));
}

#[test]
fn grouping_follows_chains() {
    let files = vec![
        video(1, "a", 1, vec![10]),
        video(2, "b", 1, vec![50]),
        video(3, "c", 1, vec![14]),
        video(4, "d", 1, vec![54]),
        video(5, "e", 1, vec![18]),
        video(6, "f", 1, vec![200]),
        video(7, "g", 1, vec![22]),
    ];
    let dist = calculate_distances(&files);
    assert_eq!(ids(&find_similar_files(&files, &dist, 5)), vec![vec![1, 3, 5, 7], vec![2, 4]]);
    assert_eq!(ids(&find_similar_files(&files, &dist, 4)), Vec::<Vec<i64>>::new());
    assert_eq!(ids(&find_similar_files(&files, &dist, 29)), vec![vec![1, 2, 3, 4, 5, 7]]);
}

#[test]
fn grouping_is_an_equivalence() {
    let files: Vec<VideoHash> =
        (0..12u8).map(|i| video(i as i64, "v", 1, vec![1 + (i * 53 % 97), 1 + (i * 29 % 61)])).collect();
    let dist = calculate_distances(&files);
    for threshold in [0u16, 5, 15, 30, 60, 200] {
        let bags = find_similar_files(&files, &dist, threshold);
        let mut seen = HashSet::new();
        for bag in &bags {
            assert!(bag.len() >= 2);
            for v in bag {
                assert!(seen.insert(v.id));
            }
        }
        for i in 0..files.len() {
            for j in (i + 1)..files.len() {
                if distance(&dist, i, j) < threshold {
                    let together =
                        bags.iter().any(|b| b.iter().any(|v| v.id == i as i64) && b.iter().any(|v| v.id == j as i64));
                    assert!(together);
                }
            }
        }
    }
}

#[test]
fn histogram_consumer_commits_in_batches() {
    let rows: Vec<(FileDigest, Option<Vec<u8>>)> =
        (1..=5).map(|i| (FileDigest::new(i, &format!("/v{}.mp4", i), Vec::new(), 1), None)).collect();
    let mut db = Database::new(rows.clone(), false).unwrap();
    let delivered = vec![Some(hash(2, vec![2])), None, Some(hash(1, vec![1])), Some(hash(5, vec![5]))];
    assert_eq!(update_hashes(&mut db, &delivered, 2), Ok(3));
    let stored: Vec<(i64, Vec<u8>)> = db.get_all_files_with_videohash().into_iter().map(|v| (v.id, v.histogram)).collect();
    assert_eq!(stored, vec![(1, vec![1]), (2, vec![2]), (5, vec![5])]);

    let mut db = Database::new(rows.clone(), false).unwrap();
    let delivered =
        vec![Some(hash(2, vec![2])), Some(hash(1, vec![1])), Some(hash(9, vec![9])), Some(hash(3, vec![3])), Some(hash(4, vec![4]))];
    assert_eq!(update_hashes(&mut db, &delivered, 2), Err(StoreError::MissingFile));
    let stored: Vec<i64> = db.get_all_files_with_videohash().into_iter().map(|v| v.id).collect();
    assert_eq!(stored, vec![1, 2]);

    let mut db = Database::new(rows, false).unwrap();
    let delivered = vec![Some(hash(2, vec![2])), Some(hash(2, vec![1]))];
    assert_eq!(update_hashes(&mut db, &delivered, 0), Err(StoreError::DuplicateHistogram));
    assert_eq!(db.get_all_files_with_videohash().len(), 1);
    assert_eq!(update_hashes(&mut db, &Vec::new(), 8), Ok(0));
}
