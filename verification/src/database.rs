//! The index of files: one row per path, with its digest, its size and, for
//! videos that have been fingerprinted, its colour histogram.
//!
//! The index is a value held in memory. Every operation states its effect on
//! the view of the index, a sequence of rows in insertion order, and keeps the
//! invariant [`store_wf`]: ids are positive and strictly increasing, and no
//! path occurs twice. A histogram is stored inside the row of its file, so it
//! cannot outlive the file and a file cannot have two.
use vstd::prelude::*;
use crate::sequences::lemma_filter_step;

verus! {

/// What a [`FileDigest`] stands for in contracts.
pub struct FileRecord {
    pub id: int,
    pub path: Seq<char>,
    pub digest: Seq<u8>,
    pub size: nat,
}

/// One row of the index as contracts see it: the file and, if it has one,
/// the histogram.
pub struct StoredRow {
    pub file: FileRecord,
    pub histogram: Option<Seq<u8>>,
}

/// A file known to the index. `id` is assigned by the index; the value given
/// on insertion is ignored.
#[derive(Debug, PartialEq, Clone)]
pub struct FileDigest {
    pub id: i64,
    pub path: String,
    pub digest: Vec<u8>,
    pub size: u64,
}

impl View for FileDigest {
    type V = FileRecord;

    open spec fn view(&self) -> FileRecord {
        FileRecord { id: self.id as int, path: self.path@, digest: self.digest@, size: self.size as nat }
    }
}

/// A video together with its histogram.
#[derive(Debug, PartialEq, Clone)]
pub struct VideoHash {
    pub id: i64,
    pub path: String,
    pub histogram: Vec<u8>,
    pub size: u64,
}

/// What a [`VideoHash`] stands for in contracts.
pub struct VideoRecord {
    pub id: int,
    pub path: Seq<char>,
    pub histogram: Seq<u8>,
    pub size: nat,
}

impl View for VideoHash {
    type V = VideoRecord;

    open spec fn view(&self) -> VideoRecord {
        VideoRecord {
            id: self.id as int,
            path: self.path@,
            histogram: self.histogram@,
            size: self.size as nat,
        }
    }
}

/// Why an operation on the index was refused.
#[derive(Debug, PartialEq, Eq, Clone, Copy, Structural)]
pub enum StoreError {
    /// The path is already in the index; nothing was inserted.
    IgnoredInsert,
    /// No row has the given id.
    NotFound,
    /// Another row already has the path.
    DuplicatePath,
    /// A histogram names a file that is not in the index.
    MissingFile,
    /// The file already has a histogram.
    DuplicateHistogram,
    /// No id is left to assign.
    Full,
    /// What is stored breaks an invariant that the operation relies on.
    Corrupt,
}

/// The views of a vector of files, in order.
pub open spec fn file_views(v: Seq<FileDigest>) -> Seq<FileRecord> {
    Seq::new(v.len(), |i: int| v[i]@)
}

/// The views of a vector of videos, in order.
pub open spec fn video_views(v: Seq<VideoHash>) -> Seq<VideoRecord> {
    Seq::new(v.len(), |i: int| v[i]@)
}

/// What rows handed in from outside stand for, in order.
pub open spec fn row_views(rows: Seq<(FileDigest, Option<Vec<u8>>)>) -> Seq<StoredRow> {
    Seq::new(
        rows.len(),
        |i: int|
            StoredRow {
                file: rows[i].0@,
                histogram: match rows[i].1 {
                    Some(h) => Some(h@),
                    None => None,
                },
            },
    )
}

/// The files of the rows, in order.
pub open spec fn files_of(s: Seq<StoredRow>) -> Seq<FileRecord> {
    Seq::new(s.len(), |i: int| s[i].file)
}

/// Some row has the path.
pub open spec fn has_path(s: Seq<StoredRow>, path: Seq<char>) -> bool {
    exists|i: int| 0 <= i < s.len() && (#[trigger] s[i]).file.path == path
}

/// Some row has the id.
pub open spec fn has_id(s: Seq<StoredRow>, id: int) -> bool {
    exists|i: int| 0 <= i < s.len() && (#[trigger] s[i]).file.id == id
}

/// The position of the row with the id. Meaningful where [`has_id`] holds.
pub open spec fn position_of(s: Seq<StoredRow>, id: int) -> int {
    choose|i: int| 0 <= i < s.len() && (#[trigger] s[i]).file.id == id
}

/// The invariant of the index: ids are positive and strictly increasing
/// along the rows, and no two rows share a path.
pub open spec fn store_wf(s: Seq<StoredRow>) -> bool {
    &&& forall|i: int| 0 <= i < s.len() ==> (#[trigger] s[i]).file.id >= 1
    &&& forall|i: int, j: int|
        0 <= i < j < s.len() ==> (#[trigger] s[i]).file.id < (#[trigger] s[j]).file.id
    &&& forall|i: int, j: int|
        0 <= i < j < s.len() ==> (#[trigger] s[i]).file.path != (#[trigger] s[j]).file.path
}

/// The id that the next inserted file gets: one more than the greatest id
/// in the index, or 1 in an empty index.
pub open spec fn next_id(s: Seq<StoredRow>) -> int {
    if s.len() == 0 {
        1
    } else {
        s.last().file.id + 1
    }
}

/// The rows after `file` has been inserted: it comes last, under the next
/// id, without a histogram.
pub open spec fn with_file(s: Seq<StoredRow>, file: FileRecord) -> Seq<StoredRow> {
    s.push(
        StoredRow {
            file: FileRecord { id: next_id(s), path: file.path, digest: file.digest, size: file.size },
            histogram: None,
        },
    )
}

/// `file` can be inserted: its path is new and an id is left for it.
pub open spec fn can_insert(s: Seq<StoredRow>, file: FileRecord) -> bool {
    !has_path(s, file.path) && next_id(s) <= i64::MAX
}

/// The rows after the files have been inserted one after the other.
pub open spec fn with_files(s: Seq<StoredRow>, files: Seq<FileRecord>) -> Seq<StoredRow>
    decreases files.len(),
{
    if files.len() == 0 {
        s
    } else {
        with_file(with_files(s, files.drop_last()), files.last())
    }
}

/// Each of the files can be inserted in its turn: none has a path that is in
/// the index or that occurs earlier among them, and the ids suffice.
pub open spec fn can_insert_all(s: Seq<StoredRow>, files: Seq<FileRecord>) -> bool
    decreases files.len(),
{
    files.len() == 0 || (can_insert_all(s, files.drop_last()) && can_insert(
        with_files(s, files.drop_last()),
        files.last(),
    ))
}

/// The error that refuses `file`, where it cannot be inserted.
pub open spec fn insert_error(s: Seq<StoredRow>, file: FileRecord) -> StoreError {
    if has_path(s, file.path) {
        StoreError::IgnoredInsert
    } else {
        StoreError::Full
    }
}

/// The batch is refused with the error `e`: its first files can be inserted
/// up to one that cannot, and `e` is the error that refuses that one.
pub open spec fn refuses(s: Seq<StoredRow>, files: Seq<FileRecord>, e: StoreError) -> bool {
    exists|k: int|
        0 <= k < files.len() && can_insert_all(s, #[trigger] files.take(k)) && !can_insert(
            with_files(s, files.take(k)),
            files[k],
        ) && e == insert_error(with_files(s, files.take(k)), files[k])
}

/// The rows with the path of the row at `pos` replaced.
pub open spec fn with_path(s: Seq<StoredRow>, pos: int, path: Seq<char>) -> Seq<StoredRow> {
    s.update(
        pos,
        StoredRow {
            file: FileRecord {
                id: s[pos].file.id,
                path: path,
                digest: s[pos].file.digest,
                size: s[pos].file.size,
            },
            histogram: s[pos].histogram,
        },
    )
}

/// A row other than the one at `pos` has the path.
pub open spec fn path_taken_by_other(s: Seq<StoredRow>, pos: int, path: Seq<char>) -> bool {
    exists|i: int| 0 <= i < s.len() && i != pos && (#[trigger] s[i]).file.path == path
}

/// The row can take a histogram: some row has the id and has none yet.
pub open spec fn can_attach(s: Seq<StoredRow>, id: int) -> bool {
    has_id(s, id) && s[position_of(s, id)].histogram is None
}

/// The rows after the file with the id has been given the histogram.
pub open spec fn with_histogram(s: Seq<StoredRow>, id: int, histogram: Seq<u8>) -> Seq<StoredRow> {
    s.update(
        position_of(s, id),
        StoredRow { file: s[position_of(s, id)].file, histogram: Some(histogram) },
    )
}

/// The rows after the histograms have been attached one after the other.
pub open spec fn with_histograms(s: Seq<StoredRow>, hashes: Seq<VideoRecord>) -> Seq<StoredRow>
    decreases hashes.len(),
{
    if hashes.len() == 0 {
        s
    } else {
        with_histogram(
            with_histograms(s, hashes.drop_last()),
            hashes.last().id,
            hashes.last().histogram,
        )
    }
}

/// Each of the histograms can be attached in its turn: its file is in the
/// index and has no histogram, neither from before nor from earlier in the
/// batch.
pub open spec fn can_attach_all(s: Seq<StoredRow>, hashes: Seq<VideoRecord>) -> bool
    decreases hashes.len(),
{
    hashes.len() == 0 || (can_attach_all(s, hashes.drop_last()) && can_attach(
        with_histograms(s, hashes.drop_last()),
        hashes.last().id,
    ))
}

/// The error that refuses a histogram for the id, where it cannot be attached.
pub open spec fn attach_error(s: Seq<StoredRow>, id: int) -> StoreError {
    if has_id(s, id) {
        StoreError::DuplicateHistogram
    } else {
        StoreError::MissingFile
    }
}

/// The batch is refused with the error `e`: its first histograms can be
/// attached up to one that cannot, and `e` is the error that refuses that
/// one.
pub open spec fn refuses_histograms(s: Seq<StoredRow>, hashes: Seq<VideoRecord>, e: StoreError) -> bool {
    exists|k: int|
        0 <= k < hashes.len() && can_attach_all(s, #[trigger] hashes.take(k)) && !can_attach(
            with_histograms(s, hashes.take(k)),
            hashes[k].id,
        ) && e == attach_error(with_histograms(s, hashes.take(k)), hashes[k].id)
}

/// Lower case of an ASCII letter; any other byte is left as it is.
pub open spec fn ascii_lower(b: u8) -> u8 {
    if 65 <= b <= 90 {
        (b + 32) as u8
    } else {
        b
    }
}

/// The bytes end in a dot and the three given letters, in either case.
pub open spec fn ends_with_extension(bytes: Seq<u8>, a: u8, b: u8, c: u8) -> bool {
    &&& bytes.len() >= 4
    &&& bytes[bytes.len() - 4] == 46
    &&& ascii_lower(bytes[bytes.len() - 3]) == a
    &&& ascii_lower(bytes[bytes.len() - 2]) == b
    &&& ascii_lower(bytes[bytes.len() - 1]) == c
}

/// The bytes end in one of `.mp4`, `.avi`, `.mkv`, `.wmv`, `.flv`, in any mix
/// of upper and lower case.
pub open spec fn has_video_extension(bytes: Seq<u8>) -> bool {
    ||| ends_with_extension(bytes, 109, 112, 52)
    ||| ends_with_extension(bytes, 97, 118, 105)
    ||| ends_with_extension(bytes, 109, 107, 118)
    ||| ends_with_extension(bytes, 119, 109, 118)
    ||| ends_with_extension(bytes, 102, 108, 118)
}

/// The path, as UTF-8, has the extension of a video.
pub open spec fn is_video_path(path: Seq<char>) -> bool {
    has_video_extension(vstd::utf8::encode_utf8(path))
}

/// The row is a video that has not been fingerprinted.
pub open spec fn lacks_histogram(row: StoredRow) -> bool {
    row.histogram is None && is_video_path(row.file.path)
}

/// The video that a row with a histogram stands for.
pub open spec fn video_of(row: StoredRow) -> VideoRecord {
    VideoRecord {
        id: row.file.id,
        path: row.file.path,
        histogram: row.histogram->0,
        size: row.file.size,
    }
}

/// The videos that have a histogram, in the order of their rows.
pub open spec fn videos_of(s: Seq<StoredRow>) -> Seq<VideoRecord> {
    s.filter(|row: StoredRow| row.histogram is Some).map_values(|row: StoredRow| video_of(row))
}

/// The videos without a histogram, in the order of their rows.
pub open spec fn pending_videos(s: Seq<StoredRow>) -> Seq<StoredRow> {
    s.filter(|row: StoredRow| lacks_histogram(row))
}

/// Lower case of an ASCII letter; any other byte is left as it is.
pub fn to_ascii_lower(b: u8) -> (r: u8)
    ensures
        r == ascii_lower(b),
{
    if 65 <= b && b <= 90 {
        b + 32
    } else {
        b
    }
}

/// Whether the path has the extension of a video.
pub fn is_video_file(path: &String) -> (r: bool)
    ensures
        r == is_video_path(path@),
{
    let bytes = path.as_str().as_bytes();
    let n = bytes.len();
    if n < 4 {
        return false;
    }
    if bytes[n - 4] != 46 {
        return false;
    }
    let a = to_ascii_lower(bytes[n - 3]);
    let b = to_ascii_lower(bytes[n - 2]);
    let c = to_ascii_lower(bytes[n - 1]);
    (a == 109 && b == 112 && c == 52) || (a == 97 && b == 118 && c == 105) || (a == 109 && b == 107
        && c == 118) || (a == 119 && b == 109 && c == 118) || (a == 102 && b == 108 && c == 118)
}

/// A copy of the bytes.
pub fn copy_bytes(v: &Vec<u8>) -> (r: Vec<u8>)
    ensures
        r@ == v@,
{
    let mut r: Vec<u8> = Vec::new();
    let mut i: usize = 0;
    while i < v.len()
        invariant
            i <= v.len(),
            r@ == v@.subrange(0, i as int),
        decreases v.len() - i,
    {
        r.push(v[i]);
        i += 1;
        assert(r@ == v@.subrange(0, i as int));
    }
    assert(v@.subrange(0, v.len() as int) == v@);
    r
}

impl FileDigest {
    /// A file record from its parts.
    pub fn new(id: i64, path: &str, digest: Vec<u8>, size: u64) -> (r: FileDigest)
        ensures
            r.id == id,
            r.path@ == path@,
            r.digest == digest,
            r.size == size,
    {
        FileDigest { id: id, path: path.to_owned(), digest: digest, size: size }
    }

    /// A copy of the record.
    pub fn duplicate(&self) -> (r: FileDigest)
        ensures
            r@ == self@,
    {
        FileDigest {
            id: self.id,
            path: self.path.clone(),
            digest: copy_bytes(&self.digest),
            size: self.size,
        }
    }
}

struct Row {
    file: FileDigest,
    histogram: Option<Vec<u8>>,
}

impl View for Row {
    type V = StoredRow;

    closed spec fn view(&self) -> StoredRow {
        StoredRow {
            file: self.file@,
            histogram: match self.histogram {
                Some(h) => Some(h@),
                None => None,
            },
        }
    }
}

/// The index.
pub struct Database {
    rows: Vec<Row>,
}

impl View for Database {
    type V = Seq<StoredRow>;

    closed spec fn view(&self) -> Seq<StoredRow> {
        Seq::new(self.rows@.len(), |i: int| self.rows@[i]@)
    }
}

impl Database {
    /// The invariant holds of this index.
    pub open spec fn wf(&self) -> bool {
        store_wf(self@)
    }

    /// The position of the row that has the path, if there is one.
    fn find_path(&self, path: &String) -> (r: Option<usize>)
        ensures
            match r {
                Some(i) => i < self@.len() && self@[i as int].file.path == path@,
                None => !has_path(self@, path@),
            },
    {
        let mut i: usize = 0;
        while i < self.rows.len()
            invariant
                i <= self.rows.len(),
                forall|k: int| 0 <= k < i ==> (#[trigger] self@[k]).file.path != path@,
            decreases self.rows.len() - i,
        {
            if self.rows[i].file.path == *path {
                return Some(i);
            }
            i += 1;
        }
        None
    }

    /// The position of the row that has the id, if there is one.
    fn find_id(&self, id: i64) -> (r: Option<usize>)
        ensures
            match r {
                Some(i) => i < self@.len() && self@[i as int].file.id == id,
                None => !has_id(self@, id as int),
            },
    {
        let mut i: usize = 0;
        while i < self.rows.len()
            invariant
                i <= self.rows.len(),
                forall|k: int| 0 <= k < i ==> (#[trigger] self@[k]).file.id != id,
            decreases self.rows.len() - i,
        {
            if self.rows[i].file.id == id {
                return Some(i);
            }
            i += 1;
        }
        None
    }

    /// Makes the index from rows that were kept elsewhere, in the order in
    /// which they were inserted, each file with its histogram if it has one.
    /// With `reset` the rows are dropped and the index starts empty.
    /// Refused if the rows break the invariant of the index.
    pub fn new(rows: Vec<(FileDigest, Option<Vec<u8>>)>, reset: bool) -> (r: Result<
        Database,
        StoreError,
    >)
        ensures
            match r {
                Ok(db) => db.wf() && db@ == if reset {
                    Seq::<StoredRow>::empty()
                } else {
                    row_views(rows@)
                },
                Err(e) => e == StoreError::Corrupt && !reset && !store_wf(row_views(rows@)),
            },
    {
        let mut db = Database { rows: Vec::new() };
        assert(db@ =~= Seq::<StoredRow>::empty());
        if reset {
            return Ok(db);
        }
        let ghost given = row_views(rows@);
        let mut i: usize = 0;
        assert(given.take(0) =~= Seq::<StoredRow>::empty());
        while i < rows.len()
            invariant
                i <= rows.len(),
                !reset,
                given == row_views(rows@),
                db.wf(),
                db.rows.len() == i,
                db@ == given.take(i as int),
            decreases rows.len() - i,
        {
            let id = rows[i].0.id;
            let n = db.rows.len();
            assert(given[i as int].file == rows[i as int].0@);
            if id < 1 {
                assert(given[i as int].file.id < 1);
                return Err(StoreError::Corrupt);
            }
            if n > 0 {
                assert(db@[n - 1] == given[n - 1]);
                if db.rows[n - 1].file.id >= id {
                    assert(given[i - 1].file.id >= given[i as int].file.id);
                    return Err(StoreError::Corrupt);
                }
            }
            match db.find_path(&rows[i].0.path) {
                Some(k) => {
                    assert(given[k as int].file.path == given[i as int].file.path);
                    return Err(StoreError::Corrupt);
                },
                None => {},
            }
            let histogram = match &rows[i].1 {
                Some(h) => Some(copy_bytes(h)),
                None => None,
            };
            let ghost before = db@;
            db.rows.push(Row { file: rows[i].0.duplicate(), histogram: histogram });
            assert(db@ =~= given.take(i + 1)) by {
                assert(db@[i as int] == given[i as int]);
                assert forall|k: int| 0 <= k < i implies db@[k] == given[k] by {
                    assert(db@[k] == before[k]);
                }
            }
            assert(store_wf(db@)) by {
                assert forall|a: int, b: int| 0 <= a < b < db@.len() implies (#[trigger] db@[a]).file.id
                    < (#[trigger] db@[b]).file.id by {
                    if b == i {
                        assert(db@[a] == before[a]);
                        if a < i - 1 {
                            assert(before[a].file.id < before[i - 1].file.id);
                        }
                    } else {
                        assert(db@[a] == before[a] && db@[b] == before[b]);
                    }
                }
                assert forall|a: int, b: int| 0 <= a < b < db@.len() implies (
                #[trigger] db@[a]).file.path != (#[trigger] db@[b]).file.path by {
                    if b == i {
                        assert(db@[a] == before[a]);
                    } else {
                        assert(db@[a] == before[a] && db@[b] == before[b]);
                    }
                }
                assert forall|a: int| 0 <= a < db@.len() implies (#[trigger] db@[a]).file.id >= 1 by {
                    if a < i {
                        assert(db@[a] == before[a]);
                    }
                }
            }
            i += 1;
        }
        assert(given.take(rows.len() as int) =~= given);
        Ok(db)
    }

    /// How many files the index holds.
    pub fn len(&self) -> (r: usize)
        ensures
            r == self@.len(),
    {
        self.rows.len()
    }

    /// Whether some file has the path.
    pub fn contains_path(&self, path: &String) -> (r: bool)
        ensures
            r == has_path(self@, path@),
    {
        self.find_path(path).is_some()
    }

    /// All files, in insertion order.
    pub fn get_all_filedigests(&self) -> (r: Vec<FileDigest>)
        ensures
            file_views(r@) == files_of(self@),
    {
        let mut out: Vec<FileDigest> = Vec::new();
        let mut i: usize = 0;
        while i < self.rows.len()
            invariant
                i <= self.rows.len(),
                out@.len() == i,
                forall|k: int| 0 <= k < i ==> (#[trigger] out@[k])@ == self@[k].file,
            decreases self.rows.len() - i,
        {
            out.push(self.rows[i].file.duplicate());
            i += 1;
        }
        assert(file_views(out@) =~= files_of(self@));
        out
    }

    /// Inserts `file` under the next id, unless its path is already in the
    /// index; the id that `file` carries is ignored. Returns the id assigned.
    pub fn insert_filedigest(&mut self, file: &FileDigest) -> (r: Result<i64, StoreError>)
        requires
            old(self).wf(),
        ensures
            final(self).wf(),
            match r {
                Ok(id) => can_insert(old(self)@, file@) && id == next_id(old(self)@) && final(self)@
                    == with_file(old(self)@, file@),
                Err(e) => final(self)@ == old(self)@ && !can_insert(old(self)@, file@) && e == (
                if has_path(old(self)@, file@.path) {
                    StoreError::IgnoredInsert
                } else {
                    StoreError::Full
                }),
            },
    {
        if self.find_path(&file.path).is_some() {
            return Err(StoreError::IgnoredInsert);
        }
        let n = self.rows.len();
        let id: i64 = if n == 0 {
            1
        } else {
            let last = self.rows[n - 1].file.id;
            assert(last == self@.last().file.id);
            if last == i64::MAX {
                return Err(StoreError::Full);
            }
            last + 1
        };
        let row = Row {
            file: FileDigest {
                id: id,
                path: file.path.clone(),
                digest: copy_bytes(&file.digest),
                size: file.size,
            },
            histogram: None,
        };
        self.rows.push(row);
        assert(self@ =~= with_file(old(self)@, file@));
        Ok(id)
    }

    /// The file with the given id.
    pub fn lookup_filedigest(&self, file_id: i64) -> (r: Result<FileDigest, StoreError>)
        ensures
            match r {
                Ok(f) => has_id(self@, file_id as int) && exists|i: int|
                    0 <= i < self@.len() && (#[trigger] self@[i]).file == f@ && f.id == file_id,
                Err(e) => !has_id(self@, file_id as int) && e == StoreError::NotFound,
            },
    {
        match self.find_id(file_id) {
            Some(i) => {
                let f = self.rows[i].file.duplicate();
                assert(self@[i as int].file == f@);
                Ok(f)
            },
            None => Err(StoreError::NotFound),
        }
    }

    /// Removes the file with the given id, and its histogram with it.
    /// Returns how many files were removed: 1, or 0 if no row has the id.
    pub fn delete_filedigest(&mut self, file_id: i64) -> (r: usize)
        requires
            old(self).wf(),
        ensures
            final(self).wf(),
            has_id(old(self)@, file_id as int) ==> r == 1 && final(self)@ == old(self)@.remove(
                position_of(old(self)@, file_id as int),
            ),
            !has_id(old(self)@, file_id as int) ==> r == 0 && final(self)@ == old(self)@,
            final(self)@ == old(self)@.filter(|row: StoredRow| row.file.id != file_id),
    {
        match self.find_id(file_id) {
            Some(i) => {
                proof {
                    let p = position_of(self@, file_id as int);
                    assert(p == i);
                }
                let _ = self.rows.remove(i);
                assert(self@ =~= old(self)@.remove(i as int));
                proof {
                    lemma_filter_removes_id(old(self)@, file_id as int);
                }
                1
            },
            None => {
                proof {
                    lemma_filter_removes_id(self@, file_id as int);
                }
                0
            },
        }
    }

    /// Gives the file with the id a new path; digest, size and histogram
    /// stay. Refused if no row has the id, or if another row has the path.
    pub fn rename_file(&mut self, file_id: i64, new_path: String) -> (r: Result<(), StoreError>)
        requires
            old(self).wf(),
        ensures
            final(self).wf(),
            match r {
                Ok(_) => has_id(old(self)@, file_id as int) && !path_taken_by_other(
                    old(self)@,
                    position_of(old(self)@, file_id as int),
                    new_path@,
                ) && final(self)@ == with_path(
                    old(self)@,
                    position_of(old(self)@, file_id as int),
                    new_path@,
                ),
                Err(e) => final(self)@ == old(self)@ && if !has_id(old(self)@, file_id as int) {
                    e == StoreError::NotFound
                } else {
                    e == StoreError::DuplicatePath && path_taken_by_other(
                        old(self)@,
                        position_of(old(self)@, file_id as int),
                        new_path@,
                    )
                },
            },
    {
        let pos = match self.find_id(file_id) {
            Some(i) => i,
            None => {
                return Err(StoreError::NotFound);
            },
        };
        proof {
            lemma_position_unique(self@, pos as int);
        }
        match self.find_path(&new_path) {
            Some(j) => {
                if j != pos {
                    return Err(StoreError::DuplicatePath);
                }
                assert(!path_taken_by_other(self@, pos as int, new_path@)) by {
                    if path_taken_by_other(self@, pos as int, new_path@) {
                        let k = choose|k: int|
                            0 <= k < self@.len() && k != pos && (#[trigger] self@[k]).file.path
                                == new_path@;
                        assert(self@[k].file.path == self@[pos as int].file.path);
                    }
                }
            },
            None => {},
        }
        let ghost renamed = new_path@;
        self.rows[pos].file.path = new_path;
        assert(self@ =~= with_path(old(self)@, pos as int, renamed));
        Ok(())
    }

    /// Inserts the files one after the other, all of them or none: if one is
    /// refused, the index is left as it was. Returns how many were inserted.
    pub fn insert_many_filedigests(&mut self, files: &Vec<FileDigest>) -> (r: Result<
        usize,
        StoreError,
    >)
        requires
            old(self).wf(),
        ensures
            final(self).wf(),
            match r {
                Ok(n) => can_insert_all(old(self)@, file_views(files@)) && n == files.len()
                    && final(self)@ == with_files(old(self)@, file_views(files@)),
                Err(e) => final(self)@ == old(self)@ && !can_insert_all(
                    old(self)@,
                    file_views(files@),
                ) && refuses(old(self)@, file_views(files@), e),
            },
    {
        let before = self.rows.len();
        let ghost all = file_views(files@);
        let mut i: usize = 0;
        assert(all.take(0) =~= Seq::<FileRecord>::empty());
        while i < files.len()
            invariant
                i <= files.len(),
                all == file_views(files@),
                before == old(self)@.len(),
                self.wf(),
                can_insert_all(old(self)@, all.take(i as int)),
                self@ == with_files(old(self)@, all.take(i as int)),
                self@.len() == before + i,
                self@.take(before as int) == old(self)@,
            decreases files.len() - i,
        {
            let ghost mid = self@;
            assert(all.take(i + 1).drop_last() =~= all.take(i as int));
            assert(all.take(i + 1).last() == files[i as int]@);
            match self.insert_filedigest(&files[i]) {
                Ok(_) => {
                    assert(self@.take(before as int) =~= mid.take(before as int));
                },
                Err(e) => {
                    self.rows.truncate(before);
                    assert(self@ =~= old(self)@);
                    proof {
                        lemma_can_insert_all_prefix(old(self)@, all, i + 1);
                        assert(all[i as int] == files[i as int]@);
                        assert(can_insert_all(old(self)@, all.take(i as int)));
                    }
                    return Err(e);
                },
            }
            i += 1;
        }
        assert(all.take(files.len() as int) =~= all);
        Ok(files.len())
    }

    /// Replaces the histogram of the row at `pos`.
    fn set_histogram(&mut self, pos: usize, histogram: Option<Vec<u8>>)
        requires
            pos < old(self)@.len(),
        ensures
            final(self)@ == old(self)@.update(
                pos as int,
                StoredRow {
                    file: old(self)@[pos as int].file,
                    histogram: match histogram {
                        Some(h) => Some(h@),
                        None => None,
                    },
                },
            ),
    {
        self.rows[pos].histogram = histogram;
        assert(self@ =~= old(self)@.update(
            pos as int,
            StoredRow {
                file: old(self)@[pos as int].file,
                histogram: match histogram {
                    Some(h) => Some(h@),
                    None => None,
                },
            },
        ));
    }

    /// Attaches each histogram to the file that its id names, all of them or
    /// none: if one is refused, the index is left as it was. Only `id` and
    /// `histogram` of each entry are read.
    pub fn insert_many_videohashes(&mut self, hashes: &Vec<VideoHash>) -> (r: Result<
        (),
        StoreError,
    >)
        requires
            old(self).wf(),
        ensures
            final(self).wf(),
            match r {
                Ok(_) => can_attach_all(old(self)@, video_views(hashes@)) && final(self)@
                    == with_histograms(old(self)@, video_views(hashes@)),
                Err(e) => final(self)@ == old(self)@ && !can_attach_all(
                    old(self)@,
                    video_views(hashes@),
                ) && refuses_histograms(old(self)@, video_views(hashes@), e),
            },
    {
        let ghost all = video_views(hashes@);
        let mut i: usize = 0;
        let mut failure: Option<StoreError> = None;
        assert(all.take(0) =~= Seq::<VideoRecord>::empty());
        while i < hashes.len() && failure.is_none()
            invariant
                i <= hashes.len(),
                all == video_views(hashes@),
                old(self).wf(),
                can_attach_all(old(self)@, all.take(i as int)),
                self@ == with_histograms(old(self)@, all.take(i as int)),
                match failure {
                    Some(e) => i < hashes.len() && !can_attach(self@, hashes[i as int].id as int)
                        && e == attach_error(self@, hashes[i as int].id as int),
                    None => true,
                },
            decreases hashes.len() - i + (if failure.is_none() { 1int } else { 0int }),
        {
            proof {
                lemma_with_histograms_wf(old(self)@, all.take(i as int));
            }
            assert(all.take(i + 1).drop_last() =~= all.take(i as int));
            assert(all.take(i + 1).last() == hashes[i as int]@);
            match self.find_id(hashes[i].id) {
                None => {
                    failure = Some(StoreError::MissingFile);
                },
                Some(pos) => {
                    proof {
                        lemma_position_unique(self@, pos as int);
                    }
                    if self.rows[pos].histogram.is_some() {
                        assert(self@[pos as int].histogram is Some);
                        failure = Some(StoreError::DuplicateHistogram);
                    } else {
                        assert(self@[pos as int].histogram is None);
                        self.set_histogram(pos, Some(copy_bytes(&hashes[i].histogram)));
                        i += 1;
                    }
                },
            }
        }
        match failure {
            None => {
                assert(all.take(hashes.len() as int) =~= all);
                proof {
                    lemma_with_histograms_wf(old(self)@, all);
                }
                Ok(())
            },
            Some(e) => {
                let ghost failed = i as int;
                let ghost reached = self@;
                proof {
                    assert(all.take(failed + 1).drop_last() =~= all.take(failed));
                    assert(all.take(failed + 1).last() == hashes[failed]@);
                    assert(!can_attach_all(old(self)@, all.take(failed + 1)));
                    lemma_can_attach_all_prefix(old(self)@, all, failed + 1);
                }
                while i > 0
                    invariant
                        i <= hashes.len(),
                        all == video_views(hashes@),
                        old(self).wf(),
                        can_attach_all(old(self)@, all.take(i as int)),
                        self@ == with_histograms(old(self)@, all.take(i as int)),
                    decreases i,
                {
                    i -= 1;
                    assert(all.take(i + 1).drop_last() =~= all.take(i as int));
                    assert(all.take(i + 1).last() == hashes[i as int]@);
                    let ghost prior = with_histograms(old(self)@, all.take(i as int));
                    proof {
                        lemma_with_histograms_wf(old(self)@, all.take(i as int));
                    }
                    let ghost p = position_of(prior, hashes[i as int].id as int);
                    assert(self@ == with_histogram(
                        prior,
                        hashes[i as int].id as int,
                        hashes[i as int].histogram@,
                    ));
                    assert(self@[p].file.id == hashes[i as int].id);
                    match self.find_id(hashes[i].id) {
                        Some(pos) => {
                            assert(prior[pos as int].file.id == hashes[i as int].id);
                            proof {
                                lemma_position_unique(prior, pos as int);
                            }
                            self.set_histogram(pos, None);
                            assert(self@ =~= prior);
                        },
                        None => {
                            assert(false);
                        },
                    }
                }
                assert(all.take(0) =~= Seq::<VideoRecord>::empty());
                assert(all[failed] == hashes[failed]@);
                assert(can_attach_all(old(self)@, all.take(failed)));
                assert(reached == with_histograms(old(self)@, all.take(failed)));
                Err(e)
            },
        }
    }

    /// The videos that have no histogram yet, each as id, path and size, in
    /// the order of their rows.
    pub fn get_files_without_videohash(&self) -> (r: Vec<(i64, String, u64)>)
        ensures
            r@.len() == pending_videos(self@).len(),
            forall|k: int|
                0 <= k < r@.len() ==> {
                    &&& (#[trigger] r@[k]).0 == pending_videos(self@)[k].file.id
                    &&& r@[k].1@ == pending_videos(self@)[k].file.path
                    &&& r@[k].2 == pending_videos(self@)[k].file.size
                },
    {
        let mut out: Vec<(i64, String, u64)> = Vec::new();
        let mut i: usize = 0;
        let ghost keep = |row: StoredRow| lacks_histogram(row);
        assert(self@.take(0) =~= Seq::<StoredRow>::empty());
        while i < self.rows.len()
            invariant
                i <= self.rows.len(),
                keep == (|row: StoredRow| lacks_histogram(row)),
                out@.len() == self@.take(i as int).filter(keep).len(),
                forall|k: int|
                    0 <= k < out@.len() ==> {
                        &&& (#[trigger] out@[k]).0 == self@.take(i as int).filter(keep)[k].file.id
                        &&& out@[k].1@ == self@.take(i as int).filter(keep)[k].file.path
                        &&& out@[k].2 == self@.take(i as int).filter(keep)[k].file.size
                    },
            decreases self.rows.len() - i,
        {
            proof {
                lemma_filter_step(self@, keep, i as int);
            }
            let row = &self.rows[i];
            assert(row@ == self@[i as int]);
            if row.histogram.is_none() && is_video_file(&row.file.path) {
                out.push((row.file.id, row.file.path.clone(), row.file.size));
            }
            i += 1;
        }
        assert(self@.take(self@.len() as int) =~= self@);
        out
    }

    /// The videos that have a histogram, in the order of their rows.
    pub fn get_all_files_with_videohash(&self) -> (r: Vec<VideoHash>)
        ensures
            video_views(r@) == videos_of(self@),
    {
        let mut out: Vec<VideoHash> = Vec::new();
        let mut i: usize = 0;
        let ghost keep = |row: StoredRow| row.histogram is Some;
        assert(self@.take(0) =~= Seq::<StoredRow>::empty());
        while i < self.rows.len()
            invariant
                i <= self.rows.len(),
                keep == (|row: StoredRow| row.histogram is Some),
                out@.len() == self@.take(i as int).filter(keep).len(),
                forall|k: int|
                    0 <= k < out@.len() ==> (#[trigger] out@[k])@ == video_of(
                        self@.take(i as int).filter(keep)[k],
                    ),
            decreases self.rows.len() - i,
        {
            proof {
                lemma_filter_step(self@, keep, i as int);
            }
            let row = &self.rows[i];
            assert(row@ == self@[i as int]);
            match &row.histogram {
                Some(h) => {
                    out.push(
                        VideoHash {
                            id: row.file.id,
                            path: row.file.path.clone(),
                            histogram: copy_bytes(h),
                            size: row.file.size,
                        },
                    );
                },
                None => {},
            }
            i += 1;
        }
        assert(self@.take(self@.len() as int) =~= self@);
        assert(video_views(out@) =~= videos_of(self@));
        out
    }
}

/// In a well-formed index an id is found at one position only.
pub proof fn lemma_position_unique(s: Seq<StoredRow>, pos: int)
    requires
        store_wf(s),
        0 <= pos < s.len(),
    ensures
        has_id(s, s[pos].file.id),
        position_of(s, s[pos].file.id) == pos,
{
    let id = s[pos].file.id;
    let p = position_of(s, id);
    if p < pos {
        assert(s[p].file.id < s[pos].file.id);
    } else if pos < p {
        assert(s[pos].file.id < s[p].file.id);
    }
}

/// If the first `k` files of a batch cannot all be inserted, neither can the
/// whole batch.
pub proof fn lemma_can_insert_all_prefix(s: Seq<StoredRow>, files: Seq<FileRecord>, k: int)
    requires
        0 <= k <= files.len(),
        !can_insert_all(s, files.take(k)),
    ensures
        !can_insert_all(s, files),
    decreases files.len() - k,
{
    if k == files.len() {
        assert(files.take(k) =~= files);
    } else {
        assert(files.take(k + 1).drop_last() =~= files.take(k));
        lemma_can_insert_all_prefix(s, files, k + 1);
    }
}

/// Attaching histograms changes no file, so it keeps the invariant.
pub proof fn lemma_with_histograms_wf(s: Seq<StoredRow>, hashes: Seq<VideoRecord>)
    requires
        store_wf(s),
        can_attach_all(s, hashes),
    ensures
        store_wf(with_histograms(s, hashes)),
        files_of(with_histograms(s, hashes)) == files_of(s),
    decreases hashes.len(),
{
    if hashes.len() > 0 {
        lemma_with_histograms_wf(s, hashes.drop_last());
        let prior = with_histograms(s, hashes.drop_last());
        let next = with_histograms(s, hashes);
        assert(files_of(prior).len() == prior.len());
        assert(files_of(next) =~= files_of(prior));
        assert forall|i: int| 0 <= i < next.len() implies (#[trigger] next[i]).file
            == prior[i].file by {
            assert(files_of(next)[i] == files_of(prior)[i]);
        }
    }
}

/// If the first `k` histograms of a batch cannot all be attached, neither can
/// the whole batch.
pub proof fn lemma_can_attach_all_prefix(s: Seq<StoredRow>, hashes: Seq<VideoRecord>, k: int)
    requires
        0 <= k <= hashes.len(),
        !can_attach_all(s, hashes.take(k)),
    ensures
        !can_attach_all(s, hashes),
    decreases hashes.len() - k,
{
    if k == hashes.len() {
        assert(hashes.take(k) =~= hashes);
    } else {
        assert(hashes.take(k + 1).drop_last() =~= hashes.take(k));
        lemma_can_attach_all_prefix(s, hashes, k + 1);
    }
}

/// Inserting one batch after another is inserting the two as one.
pub proof fn lemma_with_files_append(s: Seq<StoredRow>, a: Seq<FileRecord>, b: Seq<FileRecord>)
    ensures
        with_files(s, a + b) == with_files(with_files(s, a), b),
        can_insert_all(s, a + b) <==> can_insert_all(s, a) && can_insert_all(with_files(s, a), b),
    decreases b.len(),
{
    if b.len() == 0 {
        assert(a + b =~= a);
    } else {
        assert((a + b).drop_last() =~= a + b.drop_last());
        assert((a + b).last() == b.last());
        lemma_with_files_append(s, a, b.drop_last());
    }
}

/// Inserting files that can be inserted keeps the invariant, keeps the rows
/// that were there, and adds one row for each file.
pub proof fn lemma_with_files_wf(s: Seq<StoredRow>, files: Seq<FileRecord>)
    requires
        store_wf(s),
        can_insert_all(s, files),
    ensures
        store_wf(with_files(s, files)),
        with_files(s, files).len() == s.len() + files.len(),
        with_files(s, files).take(s.len() as int) == s,
        forall|k: int|
            0 <= k < files.len() ==> {
                &&& (#[trigger] with_files(s, files)[s.len() + k]).file.path == files[k].path
                &&& with_files(s, files)[s.len() + k].file.digest == files[k].digest
                &&& with_files(s, files)[s.len() + k].file.size == files[k].size
                &&& with_files(s, files)[s.len() + k].histogram is None
            },
    decreases files.len(),
{
    if files.len() == 0 {
        assert(s.take(s.len() as int) =~= s);
    } else {
        let front = files.drop_last();
        lemma_with_files_wf(s, front);
        let mid = with_files(s, front);
        let all = with_files(s, files);
        assert(all == with_file(mid, files.last()));
        assert(all.take(s.len() as int) =~= mid.take(s.len() as int));
        assert forall|i: int, j: int| 0 <= i < j < all.len() implies (#[trigger] all[i]).file.path != (
        #[trigger] all[j]).file.path by {
            if j == all.len() - 1 {
                assert(all[i] == mid[i]);
                assert(!has_path(mid, files.last().path));
            } else {
                assert(all[i] == mid[i] && all[j] == mid[j]);
            }
        }
        assert forall|i: int, j: int| 0 <= i < j < all.len() implies (#[trigger] all[i]).file.id < (
        #[trigger] all[j]).file.id by {
            if j == all.len() - 1 {
                assert(all[i] == mid[i]);
                if i < mid.len() - 1 {
                    assert(mid[i].file.id < mid[mid.len() - 1].file.id);
                }
            } else {
                assert(all[i] == mid[i] && all[j] == mid[j]);
            }
        }
        assert forall|i: int| 0 <= i < all.len() implies (#[trigger] all[i]).file.id >= 1 by {
            if i < all.len() - 1 {
                assert(all[i] == mid[i]);
            } else if mid.len() > 0 {
                assert(mid[mid.len() - 1].file.id >= 1);
            }
        }
        assert forall|k: int| 0 <= k < files.len() implies {
            &&& (#[trigger] all[s.len() + k]).file.path == files[k].path
            &&& all[s.len() + k].file.digest == files[k].digest
            &&& all[s.len() + k].file.size == files[k].size
            &&& all[s.len() + k].histogram is None
        } by {
            if k < files.len() - 1 {
                assert(all[s.len() + k] == mid[s.len() + k]);
                assert(front[k] == files[k]);
            }
        }
    }
}

/// Attaching one batch after another is attaching the two as one.
pub proof fn lemma_with_histograms_append(
    s: Seq<StoredRow>,
    a: Seq<VideoRecord>,
    b: Seq<VideoRecord>,
)
    ensures
        with_histograms(s, a + b) == with_histograms(with_histograms(s, a), b),
        can_attach_all(s, a + b) <==> can_attach_all(s, a) && can_attach_all(
            with_histograms(s, a),
            b,
        ),
    decreases b.len(),
{
    if b.len() == 0 {
        assert(a + b =~= a);
    } else {
        assert((a + b).drop_last() =~= a + b.drop_last());
        assert((a + b).last() == b.last());
        lemma_with_histograms_append(s, a, b.drop_last());
    }
}

/// Every row holds a digest of the full length of `len` bytes.
pub open spec fn digests_full(s: Seq<StoredRow>, len: nat) -> bool {
    forall|i: int| 0 <= i < s.len() ==> (#[trigger] s[i]).file.digest.len() == len
}

/// No two rows share a path.
pub open spec fn paths_unique(s: Seq<StoredRow>) -> bool {
    forall|i: int, j: int|
        0 <= i < s.len() && 0 <= j < s.len() && i != j ==> (#[trigger] s[i]).file.path != (
        #[trigger] s[j]).file.path
}

/// Whatever is inserted, paths stay unique; and where every digest that was
/// there and every digest that goes in has the full length, every digest in
/// the index has it afterwards.
pub proof fn lemma_inserts_keep_rows_sound(s: Seq<StoredRow>, files: Seq<FileRecord>, len: nat)
    requires
        store_wf(s),
        can_insert_all(s, files),
    ensures
        store_wf(with_files(s, files)),
        paths_unique(with_files(s, files)),
        digests_full(s, len) && (forall|k: int|
            0 <= k < files.len() ==> (#[trigger] files[k]).digest.len() == len) ==> digests_full(
            with_files(s, files),
            len,
        ),
{
    lemma_with_files_wf(s, files);
    let after = with_files(s, files);
    assert forall|i: int, j: int| 0 <= i < after.len() && 0 <= j < after.len() && i != j implies (
    #[trigger] after[i]).file.path != (#[trigger] after[j]).file.path by {
        if i < j {
        } else {
            assert(after[j].file.path != after[i].file.path);
        }
    }
    if digests_full(s, len) && (forall|k: int|
        0 <= k < files.len() ==> (#[trigger] files[k]).digest.len() == len) {
        assert forall|i: int| 0 <= i < after.len() implies (#[trigger] after[i]).file.digest.len()
            == len by {
            if i < s.len() {
                assert(after.take(s.len() as int)[i] == after[i]);
                assert(s[i].file.digest.len() == len);
            } else {
                let k = i - s.len();
                assert(after[s.len() + k].file.digest == files[k].digest);
            }
        }
    }
}

/// The paths of the files are new to the index and differ from each other.
pub open spec fn paths_new(s: Seq<StoredRow>, files: Seq<FileRecord>) -> bool {
    &&& forall|k: int| 0 <= k < files.len() ==> !has_path(s, (#[trigger] files[k]).path)
    &&& forall|j: int, k: int|
        0 <= j < k < files.len() ==> (#[trigger] files[j]).path != (#[trigger] files[k]).path
}

/// A batch of new, distinct paths goes in whole or not at all. It goes in
/// if and only if the ids suffice; then every one of its paths is in the
/// index, and otherwise, the index being left as it was, none is.
pub proof fn lemma_batch_all_or_nothing(s: Seq<StoredRow>, files: Seq<FileRecord>)
    requires
        store_wf(s),
        paths_new(s, files),
    ensures
        can_insert_all(s, files) <==> files.len() == 0 || next_id(s) + files.len() - 1 <= i64::MAX,
        can_insert_all(s, files) ==> forall|k: int|
            0 <= k < files.len() ==> has_path(with_files(s, files), (#[trigger] files[k]).path),
        forall|k: int| 0 <= k < files.len() ==> !has_path(s, (#[trigger] files[k]).path),
    decreases files.len(),
{
    if files.len() > 0 {
        let front = files.drop_last();
        assert(paths_new(s, front)) by {
            assert forall|k: int| 0 <= k < front.len() implies !has_path(
                s,
                (#[trigger] front[k]).path,
            ) by {
                assert(front[k] == files[k]);
            }
            assert forall|j: int, k: int| 0 <= j < k < front.len() implies (
            #[trigger] front[j]).path != (#[trigger] front[k]).path by {
                assert(front[j] == files[j] && front[k] == files[k]);
            }
        }
        lemma_batch_all_or_nothing(s, front);
        if can_insert_all(s, front) {
            lemma_with_files_wf(s, front);
            let mid = with_files(s, front);
            assert(next_id(mid) == next_id(s) + front.len()) by {
                lemma_next_id_after(s, front);
            }
            assert(!has_path(mid, files.last().path)) by {
                if has_path(mid, files.last().path) {
                    let i = choose|i: int|
                        0 <= i < mid.len() && (#[trigger] mid[i]).file.path == files.last().path;
                    if i < s.len() {
                        assert(mid.take(s.len() as int)[i] == mid[i]);
                        assert(s[i].file.path == files[files.len() - 1].path);
                    } else {
                        let k = i - s.len();
                        assert(mid[s.len() + k].file.path == front[k].path);
                        assert(front[k] == files[k]);
                        assert(files[k].path != files[files.len() - 1].path);
                    }
                }
            }
            if can_insert_all(s, files) {
                lemma_with_files_wf(s, files);
                let after = with_files(s, files);
                assert forall|k: int| 0 <= k < files.len() implies has_path(
                    after,
                    (#[trigger] files[k]).path,
                ) by {
                    assert(after[s.len() + k].file.path == files[k].path);
                }
            }
        }
    }
}

/// After a batch has gone in, the next id is further on by the size of the
/// batch.
pub proof fn lemma_next_id_after(s: Seq<StoredRow>, files: Seq<FileRecord>)
    requires
        store_wf(s),
        can_insert_all(s, files),
    ensures
        next_id(with_files(s, files)) == next_id(s) + files.len(),
    decreases files.len(),
{
    if files.len() > 0 {
        lemma_next_id_after(s, files.drop_last());
        lemma_with_files_wf(s, files.drop_last());
    }
}

/// In a well-formed index, dropping the rows with a given id drops the one
/// row that has it, or nothing.
pub proof fn lemma_filter_removes_id(s: Seq<StoredRow>, id: int)
    requires
        store_wf(s),
    ensures
        has_id(s, id) ==> s.filter(|row: StoredRow| row.file.id != id) == s.remove(
            position_of(s, id),
        ),
        !has_id(s, id) ==> s.filter(|row: StoredRow| row.file.id != id) == s,
    decreases s.len(),
{
    let keep = |row: StoredRow| row.file.id != id;
    reveal(Seq::filter);
    if s.len() == 0 {
        assert(s.filter(keep) =~= s);
    } else {
        let front = s.drop_last();
        assert(store_wf(front));
        lemma_filter_removes_id(front, id);
        if s.last().file.id == id {
            assert(!has_id(front, id)) by {
                if has_id(front, id) {
                    let k = position_of(front, id);
                    assert(s[k].file.id == front[k].file.id);
                    assert(s[k].file.id < s[s.len() - 1].file.id);
                }
            }
            let p = position_of(s, id);
            assert(s[s.len() - 1].file.id == id);
            assert(p == s.len() - 1) by {
                if p < s.len() - 1 {
                    assert(s[p].file.id < s[s.len() - 1].file.id);
                }
            }
            assert(s.filter(keep) == front.filter(keep));
            assert(s.remove(p) =~= front);
        } else {
            assert(s.filter(keep) == front.filter(keep).push(s.last()));
            if has_id(front, id) {
                let k = position_of(front, id);
                assert(s[k].file.id == id);
                let p = position_of(s, id);
                assert(p == k) by {
                    if p < k {
                        assert(s[p].file.id < s[k].file.id);
                    } else if k < p {
                        assert(s[k].file.id < s[p].file.id);
                    }
                }
                assert(s.remove(p) =~= front.remove(k).push(s.last()));
            } else {
                assert(!has_id(s, id)) by {
                    if has_id(s, id) {
                        let p = position_of(s, id);
                        assert(p < s.len() - 1);
                        assert(front[p].file.id == id);
                    }
                }
                assert(front.push(s.last()) =~= s);
            }
        }
    }
}

} // verus!
