use dupefinder::database::{Database, FileDigest, StoreError, VideoHash};
use dupefinder::interface::{
    delete_file, histograms_comparable, max_saved_size, preview_is_exposed, rename_file, smallest_in_bag,
    spare_in_group, status_text, table_fits, FileStatus, VideoHashData,
};

fn video(id: i64, size: u64, histogram: Vec<u8>) -> VideoHash {
    VideoHash { id, path: String::new(), histogram, size }
}

#[test]
fn test_rename_file() {
    let mut db = Database::new(Vec::new(), true).unwrap();
    let file = FileDigest { id: 1, path: "/tmp/a".to_string(), digest: vec![0, 1, 2, 3], size: 1 };
    db.insert_filedigest(&file).unwrap();
    db.rename_file(1, "/tmp/b".to_string()).unwrap();
    let file = db.lookup_filedigest(1).unwrap();
    assert_eq!(file.path, "/tmp/b");
}

#[test]
fn rename_request_answers_by_what_was_on_disk() {
    let mut db = Database::new(Vec::new(), true).unwrap();
    db.insert_filedigest(&FileDigest::new(0, "/tmp/a", vec![0], 1)).unwrap();
    db.insert_filedigest(&FileDigest::new(0, "/tmp/b", vec![0], 1)).unwrap();
    assert_eq!(rename_file(&mut db, 1, "/tmp/c".to_string(), true), Ok(FileStatus::Success));
    assert_eq!(rename_file(&mut db, 1, "/tmp/d".to_string(), false), Ok(FileStatus::DoesNotExist));
    assert_eq!(db.lookup_filedigest(1).unwrap().path, "/tmp/d");
    assert_eq!(rename_file(&mut db, 7, "/tmp/e".to_string(), true), Err(StoreError::NotFound));
    assert_eq!(rename_file(&mut db, 1, "/tmp/b".to_string(), true), Err(StoreError::DuplicatePath));
    assert_eq!(db.lookup_filedigest(1).unwrap().path, "/tmp/d");
}

#[test]
fn remove_request_answers_by_what_was_on_disk() {
    let mut db = Database::new(Vec::new(), true).unwrap();
    db.insert_filedigest(&FileDigest::new(0, "/tmp/a", vec![0], 1)).unwrap();
    db.insert_filedigest(&FileDigest::new(0, "/tmp/b", vec![0], 1)).unwrap();
    assert_eq!(delete_file(&mut db, 1, false), Ok(FileStatus::DoesNotExist));
    assert_eq!(delete_file(&mut db, 1, true), Err(StoreError::NotFound));
    assert_eq!(delete_file(&mut db, 2, true), Ok(FileStatus::Success));
    assert_eq!(db.len(), 0);
}

#[test]
fn answers_are_spelled_out() {
    assert_eq!(status_text(FileStatus::Success), "success");
    assert_eq!(status_text(FileStatus::DoesNotExist), "does-not-exist");
}

#[test]
fn preview_on_a_public_address_is_flagged() {
    assert!(preview_is_exposed(true, "0.0.0.0"));
    assert!(preview_is_exposed(true, ""));
    assert!(!preview_is_exposed(true, "127.0.0.1"));
    assert!(!preview_is_exposed(false, "0.0.0.0"));
    assert!(!preview_is_exposed(false, "127.0.0.1"));
}

fn snapshot_db() -> Database {
    let rows = vec![
        (FileDigest::new(1, "/a.mp4", Vec::new(), 10), Some(vec![0xff, 0x00, 0xff, 0x00])),
        (FileDigest::new(2, "/b.mp4", Vec::new(), 11), Some(vec![0xff, 0x01, 0xff, 0x00])),
        (FileDigest::new(3, "/c.wmv", Vec::new(), 12), Some(vec![0x00, 0x00, 0x00, 0xa0])),
        (FileDigest::new(4, "/d.avi", Vec::new(), 13), Some(vec![0x00, 0xff, 0x00, 0xff])),
        (FileDigest::new(5, "/e.wmv", Vec::new(), 15), Some(vec![0x00, 0x00, 0x00, 0xa2])),
        (FileDigest::new(6, "/f.txt", Vec::new(), 99), None),
    ];
    Database::new(rows, false).unwrap()
}

fn ids(bags: &Vec<Vec<&VideoHash>>) -> Vec<Vec<i64>> {
    bags.iter().map(|b| b.iter().map(|x| x.id).collect()).collect()
}

#[test]
fn groups_are_shown_by_their_smallest_video() {
    let db = snapshot_db();
    let data = VideoHashData::new(&db).unwrap();
    assert_eq!(data.hashes().len(), 5);
    assert_eq!(ids(&data.handle_request(128)), vec![vec![3, 5], vec![1, 2]]);
    assert_eq!(ids(&data.handle_request(2)), vec![vec![1, 2]]);
    assert_eq!(ids(&data.handle_request(1)), Vec::<Vec<i64>>::new());
    let bags = data.handle_request(128);
    assert_eq!(max_saved_size(&bags), Some(12 + 10));
}

#[test]
fn snapshot_is_refreshed_from_the_index() {
    let mut db = snapshot_db();
    let mut data = VideoHashData::new(&db).unwrap();
    db.delete_filedigest(5);
    assert_eq!(ids(&data.handle_request(128)), vec![vec![3, 5], vec![1, 2]]);
    assert_eq!(data.refresh(&db), Ok(()));
    assert_eq!(ids(&data.handle_request(128)), vec![vec![1, 2]]);
    db.insert_many_videohashes(&vec![video(6, 0, vec![1, 2])]).unwrap();
    assert_eq!(data.refresh(&db), Err(StoreError::Corrupt));
    assert_eq!(ids(&data.handle_request(128)), vec![vec![1, 2]]);
    assert!(matches!(VideoHashData::new(&db), Err(StoreError::Corrupt)));
}

#[test]
fn histograms_must_have_one_admissible_length() {
    assert!(histograms_comparable(&Vec::new()));
    assert!(histograms_comparable(&vec![video(1, 0, vec![0; 64]), video(2, 0, vec![1; 64])]));
    assert!(histograms_comparable(&vec![video(1, 0, vec![0; 257])]));
    assert!(!histograms_comparable(&vec![video(1, 0, vec![0; 258])]));
    assert!(!histograms_comparable(&vec![video(1, 0, vec![0; 64]), video(2, 0, vec![1; 63])]));
}

#[test]
fn table_must_fit_in_memory() {
    assert!(table_fits(0));
    assert!(table_fits(4000));
    assert!(!table_fits(usize::MAX));
    assert!(!table_fits(1usize << (usize::BITS / 2)));
}

#[test]
fn smallest_and_spare_of_a_bag() {
    let a = video(1, 30, vec![]);
    let b = video(2, 10, vec![]);
    let c = video(3, 20, vec![]);
    let bag = vec![&a, &b, &c];
    assert_eq!(smallest_in_bag(&bag), 10);
    assert_eq!(spare_in_group(&bag), Some(30));
    assert_eq!(smallest_in_bag(&Vec::new()), 0);
    assert_eq!(spare_in_group(&Vec::new()), Some(0));
    assert_eq!(spare_in_group(&vec![&a]), Some(0));
    let big = video(4, u64::MAX, vec![]);
    assert_eq!(spare_in_group(&vec![&big, &big]), Some(u64::MAX));
    assert_eq!(spare_in_group(&vec![&big, &big, &b]), None);
    assert_eq!(max_saved_size(&vec![vec![&big, &big], vec![&a, &b]]), None);
    assert_eq!(max_saved_size(&vec![vec![&a, &b], vec![&c, &c, &c]]), Some(10 + 40));
    assert_eq!(max_saved_size(&Vec::new()), Some(0));
}
