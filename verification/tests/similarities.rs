use dupefinder::database::{Database, FileDigest, StoreError};
use dupefinder::similarities::{
    entries_for, entry_for, find_similarities, get_list_of_similar_files, has_digest_prefixes, into_resultbag,
    is_listed, same_bytes, spare_size_of_bag, total_saved_size, FileEntry,
};
use std::collections::HashSet;

fn entry(id: i64, path: &str, size: u64) -> FileEntry {
    FileEntry { id, path: path.to_string(), size }
}

fn seeded() -> Database {
    let rows = vec![
        (FileDigest::new(1, "/tmp/a", vec![0xaa, 0xaa, 0xaa, 0xaa], 2), None),
        (FileDigest::new(2, "/tmp/b", vec![0xaa, 0xaa, 0xaa, 0xaa], 2), None),
        (FileDigest::new(3, "/tmp/d", vec![0xaa, 0xaa, 0xaa, 0xab], 1), None),
        (FileDigest::new(4, "/tmp/e", vec![0xaa, 0xaa, 0xaa, 0xac], 3), None),
        (FileDigest::new(5, "/tmp/c", vec![0xaa, 0xaa, 0xaa, 0xab], 1), None),
        (FileDigest::new(6, "/tmp/f", vec![0xaa, 0xaa, 0xaa, 0xac], 3), None),
        (FileDigest::new(7, "/tmp/g", vec![0xaa, 0xaa, 0xaa, 0xad], 4), None),
    ];
    Database::new(rows, false).unwrap()
}

#[test]
fn test_resultbag() {
    let db = seeded();
    let testfiles = db.get_all_filedigests();
    let similar_files = find_similarities(testfiles);
    let results = into_resultbag(&db, &similar_files).unwrap();

    let target = vec![
        vec![entry(4, "/tmp/e", 3), entry(6, "/tmp/f", 3)],
        vec![entry(1, "/tmp/a", 2), entry(2, "/tmp/b", 2)],
        vec![entry(3, "/tmp/d", 1), entry(5, "/tmp/c", 1)],
    ];
    assert_eq!(results, target);
}

#[test]
fn test_find_similarities() {
    let mut testfiles = Vec::new();
    testfiles.push(FileDigest::new(1, "/tmp/a", vec![0, 1, 2, 3], 1));
    testfiles.push(FileDigest::new(2, "/tmp/b", vec![0, 1, 2, 3], 1));
    testfiles.push(FileDigest::new(3, "/tmp/c", vec![0, 1, 2, 4], 1));
    testfiles.push(FileDigest::new(4, "/tmp/d", vec![0, 1, 2, 4], 1));
    testfiles.push(FileDigest::new(5, "/tmp/e", vec![0, 1, 2, 5], 2));
    let list_of_similar_files: HashSet<Vec<i64>> = find_similarities(testfiles).into_iter().collect();

    let mut target_sim_list = HashSet::new();
    target_sim_list.insert(vec![1, 2]);
    target_sim_list.insert(vec![3, 4]);
    assert_eq!(list_of_similar_files, target_sim_list);
}

#[test]
fn exact_duplicates_by_digest() {
    let files = vec![
        FileDigest::new(1, "/tmp/a", vec![0xAA; 4], 1),
        FileDigest::new(2, "/tmp/b", vec![0xAA; 4], 1),
        FileDigest::new(3, "/tmp/c", vec![0xAB; 4], 1),
        FileDigest::new(4, "/tmp/d", vec![0xAB; 4], 1),
        FileDigest::new(5, "/tmp/e", vec![0xAC; 4], 1),
    ];
    assert_eq!(find_similarities(files), vec![vec![1, 2], vec![3, 4]]);
}

#[test]
fn groups_come_in_order_of_first_occurrence_with_ids_ascending() {
    let files = vec![
        FileDigest::new(9, "/a", vec![1, 1, 1, 1, 1], 1),
        FileDigest::new(4, "/b", vec![2, 2, 2, 2], 1),
        FileDigest::new(7, "/c", vec![1, 1, 1, 1, 1], 1),
        FileDigest::new(1, "/d", vec![2, 2, 2, 2], 1),
        FileDigest::new(3, "/e", vec![1, 1, 1, 1, 1], 1),
        FileDigest::new(8, "/f", vec![3, 3, 3, 3], 1),
    ];
    assert_eq!(find_similarities(files), vec![vec![3, 7, 9], vec![1, 4]]);
}

#[test]
fn digests_that_share_a_prefix_are_told_apart() {
    let files = vec![
        FileDigest::new(1, "/a", vec![5, 5, 5, 5, 0], 1),
        FileDigest::new(2, "/b", vec![5, 5, 5, 5, 1], 1),
        FileDigest::new(3, "/c", vec![5, 5, 5, 5], 1),
        FileDigest::new(4, "/d", vec![5, 5, 5, 5, 1], 1),
        FileDigest::new(5, "/e", vec![5, 5, 5, 5, 0], 1),
        FileDigest::new(6, "/f", vec![255, 255, 255, 255], 1),
        FileDigest::new(7, "/g", vec![255, 255, 255, 255], 1),
    ];
    assert_eq!(find_similarities(files), vec![vec![1, 5], vec![2, 4], vec![6, 7]]);
}

#[test]
fn no_duplicates_gives_no_groups() {
    assert_eq!(find_similarities(Vec::new()), Vec::<Vec<i64>>::new());
    let files = vec![FileDigest::new(1, "/a", vec![1, 2, 3, 4], 1), FileDigest::new(2, "/b", vec![1, 2, 3, 5], 1)];
    assert_eq!(find_similarities(files), Vec::<Vec<i64>>::new());
}

#[test]
fn two_files_share_a_group_exactly_when_digests_are_equal() {
    let digests: Vec<Vec<u8>> = vec![vec![1, 2, 3, 4], vec![1, 2, 3, 4, 5], vec![1, 2, 3, 4], vec![9, 9, 9, 9], vec![1, 2, 3, 4, 5]];
    let files: Vec<FileDigest> =
        digests.iter().enumerate().map(|(i, d)| FileDigest::new(i as i64 + 1, "/p", d.clone(), 1)).collect();
    let groups = find_similarities(files);
    for i in 0..digests.len() {
        for j in 0..digests.len() {
            if i == j {
                continue;
            }
            let together = groups.iter().any(|g| g.contains(&(i as i64 + 1)) && g.contains(&(j as i64 + 1)));
            assert_eq!(together, digests[i] == digests[j]);
        }
    }
}

#[test]
fn resultbag_reports_unknown_ids() {
    let db = seeded();
    assert_eq!(into_resultbag(&db, &vec![vec![1, 2], vec![3, 99]]), Err(StoreError::NotFound));
    assert_eq!(into_resultbag(&db, &vec![vec![99]]), Err(StoreError::NotFound));
    assert_eq!(into_resultbag(&db, &Vec::new()), Ok(Vec::new()));
}

#[test]
fn resultbag_orders_by_size_of_first_file() {
    let db = seeded();
    let bags = into_resultbag(&db, &vec![vec![3, 1], vec![7], vec![1, 7], vec![4]]).unwrap();
    let firsts: Vec<(i64, u64)> = bags.iter().map(|b| (b[0].id, b[0].size)).collect();
    assert_eq!(firsts, vec![(7, 4), (4, 3), (1, 2), (3, 1)]);
    assert_eq!(bags[2], vec![entry(1, "/tmp/a", 2), entry(7, "/tmp/g", 4)]);
}

#[test]
fn entries_are_looked_up_by_id() {
    let db = seeded();
    assert_eq!(entry_for(&db, 5), Ok(entry(5, "/tmp/c", 1)));
    assert_eq!(entry_for(&db, 8), Err(StoreError::NotFound));
    assert_eq!(entries_for(&db, &vec![7, 1]), Ok(vec![entry(7, "/tmp/g", 4), entry(1, "/tmp/a", 2)]));
    assert_eq!(entries_for(&db, &vec![7, 0]), Err(StoreError::NotFound));
}

#[test]
fn list_of_similar_files_from_the_index() {
    let db = seeded();
    let target = vec![
        vec![entry(4, "/tmp/e", 3), entry(6, "/tmp/f", 3)],
        vec![entry(1, "/tmp/a", 2), entry(2, "/tmp/b", 2)],
        vec![entry(3, "/tmp/d", 1), entry(5, "/tmp/c", 1)],
    ];
    assert_eq!(get_list_of_similar_files(&db), Ok(target));
}

#[test]
fn saved_size_leaves_out_the_first_of_each_bag() {
    let result = vec![
        vec![entry(1, "/a", 100), entry(2, "/b", 7), entry(3, "/c", 5)],
        vec![entry(4, "/d", 50)],
        vec![],
        vec![entry(5, "/e", 1), entry(6, "/f", 30)],
    ];
    assert_eq!(total_saved_size(&result), Some(42));
    assert_eq!(total_saved_size(&Vec::new()), Some(0));
    let too_much = vec![vec![entry(1, "/a", 0), entry(2, "/b", u64::MAX), entry(3, "/c", 1)]];
    assert_eq!(total_saved_size(&too_much), None);
    let just_fits = vec![vec![entry(1, "/a", 9), entry(2, "/b", u64::MAX)]];
    assert_eq!(total_saved_size(&just_fits), Some(u64::MAX));
}

#[test]
fn files_over_a_gibibyte_are_listed() {
    assert!(!is_listed(0));
    assert!(!is_listed(1024 * 1024 * 1024));
    assert!(is_listed(1024 * 1024 * 1024 + 1));
    assert!(is_listed(u64::MAX));
}

#[test]
fn bytes_are_compared_in_full() {
    assert!(same_bytes(&vec![], &vec![]));
    assert!(same_bytes(&vec![1, 2, 3], &vec![1, 2, 3]));
    assert!(!same_bytes(&vec![1, 2, 3], &vec![1, 2]));
    assert!(!same_bytes(&vec![1, 2, 3], &vec![1, 2, 4]));
}

#[test]
fn digests_are_checked_for_their_prefix() {
    assert!(has_digest_prefixes(&seeded()));
    assert!(has_digest_prefixes(&Database::new(Vec::new(), true).unwrap()));
    let short = vec![
        (FileDigest::new(1, "/a", vec![1, 2, 3, 4], 1), None),
        (FileDigest::new(2, "/b", vec![1, 2, 3], 1), None),
    ];
    assert!(!has_digest_prefixes(&Database::new(short, false).unwrap()));
}

#[test]
fn spare_of_one_bag() {
    assert_eq!(spare_size_of_bag(&Vec::new()), Some(0));
    assert_eq!(spare_size_of_bag(&vec![entry(1, "/a", 5)]), Some(0));
    assert_eq!(spare_size_of_bag(&vec![entry(1, "/a", 5), entry(2, "/b", 6), entry(3, "/c", 7)]), Some(13));
    assert_eq!(spare_size_of_bag(&vec![entry(1, "/a", 5), entry(2, "/b", u64::MAX), entry(3, "/c", 1)]), None);
}
