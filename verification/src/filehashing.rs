//! Digests of file contents, and the consumer that commits finished records
//! to the index in batches.
use vstd::prelude::*;
use vstd::slice::slice_subrange;
use blake2::Digest;
use crate::database::{
    Database, FileDigest, FileRecord, StoreError, StoredRow, can_insert_all, file_views,
    lemma_can_insert_all_prefix, lemma_with_files_append, lemma_with_files_wf, refuses, with_files,
};

verus! {

/// The length of a digest in bytes.
pub const DIGEST_LEN: usize = 64;

/// The most bytes that are handed to the hasher at once.
pub const CHUNK_SIZE: usize = 4096;

/// The id that a record carries before the index has assigned one.
pub const UNASSIGNED_ID: i64 = -1;

/// `blake2::Blake2b`, the hasher with the fixed output of 64 bytes. Verus
/// sees nothing inside it; contracts speak of it through [`absorbed`].
#[verifier::external_type_specification]
#[verifier::external_body]
pub struct ExBlake2b(blake2::Blake2b);

/// The BLAKE2b digest of a message, 64 bytes long, unkeyed.
pub uninterp spec fn blake2b(message: Seq<u8>) -> Seq<u8>;

/// The bytes that a hasher has been given so far, in order.
pub uninterp spec fn absorbed(hasher: blake2::Blake2b) -> Seq<u8>;

/// `Blake2b::default`: a hasher that has been given nothing yet.
#[verifier::external_body]
fn hasher_new() -> (hasher: blake2::Blake2b)
    ensures
        absorbed(hasher) == Seq::<u8>::empty(),
{
    blake2::Blake2b::default()
}

/// `Digest::update` on a `Blake2b`: the hasher has been given `data` after
/// what it had been given before.
#[verifier::external_body]
fn hasher_update(hasher: &mut blake2::Blake2b, data: &[u8])
    ensures
        absorbed(*final(hasher)) == absorbed(*old(hasher)) + data@,
{
    hasher.update(data);
}

/// `Digest::finalize` on a `Blake2b`: the digest of all that the hasher has
/// been given, which has 64 bytes.
#[verifier::external_body]
fn hasher_finalize(hasher: blake2::Blake2b) -> (digest: Vec<u8>)
    ensures
        digest@ == blake2b(absorbed(hasher)),
        digest.len() == DIGEST_LEN,
{
    hasher.finalize().to_vec()
}

/// A digest in the making: bytes go in piece by piece, the digest of all of
/// them comes out at the end.
pub struct DigestBuilder {
    hasher: blake2::Blake2b,
}

impl DigestBuilder {
    /// The bytes taken in so far.
    pub closed spec fn message(&self) -> Seq<u8> {
        absorbed(self.hasher)
    }

    /// A builder that has taken in nothing.
    pub fn new() -> (r: DigestBuilder)
        ensures
            r.message() == Seq::<u8>::empty(),
    {
        DigestBuilder { hasher: hasher_new() }
    }

    /// Takes in `data`, at most [`CHUNK_SIZE`] bytes at a time.
    pub fn update(&mut self, data: &[u8])
        ensures
            final(self).message() == old(self).message() + data@,
    {
        let n = data.len();
        let mut done: usize = 0;
        assert(data@.take(0) =~= Seq::<u8>::empty());
        assert(self.message() + Seq::<u8>::empty() =~= self.message());
        while done < n
            invariant
                done <= n,
                n == data.len(),
                self.message() == old(self).message() + data@.take(done as int),
            decreases n - done,
        {
            let end = if n - done > CHUNK_SIZE {
                done + CHUNK_SIZE
            } else {
                n
            };
            let piece = slice_subrange(data, done, end);
            hasher_update(&mut self.hasher, piece);
            assert(data@.take(done as int) + data@.subrange(done as int, end as int) =~= data@.take(
                end as int,
            ));
            assert((old(self).message() + data@.take(done as int)) + data@.subrange(
                done as int,
                end as int,
            ) =~= old(self).message() + data@.take(end as int));
            done = end;
        }
        assert(data@.take(n as int) =~= data@);
    }

    /// The digest of all the bytes taken in.
    pub fn finalize(self) -> (digest: Vec<u8>)
        ensures
            digest@ == blake2b(self.message()),
            digest.len() == DIGEST_LEN,
    {
        hasher_finalize(self.hasher)
    }
}

/// The digest of the bytes.
pub fn get_hash(data: &Vec<u8>) -> (digest: Vec<u8>)
    ensures
        digest@ == blake2b(data@),
        digest.len() == DIGEST_LEN,
{
    let mut builder = DigestBuilder::new();
    builder.update(data.as_slice());
    assert(Seq::<u8>::empty() + data@ =~= data@);
    builder.finalize()
}

/// The record of a file that is not in the index yet, from its path, its
/// content and its size.
pub fn _create_filedigest(path: &str, content: &Vec<u8>, size: u64) -> (r: FileDigest)
    ensures
        r.id == UNASSIGNED_ID,
        r.path@ == path@,
        r.digest@ == blake2b(content@),
        r.digest.len() == DIGEST_LEN,
        r.size == size,
{
    FileDigest::new(UNASSIGNED_ID, path, get_hash(content), size)
}

/// The records that were delivered, in order, without the places where a
/// file could not be read.
pub open spec fn delivered<T: View>(items: Seq<Option<T>>) -> Seq<T::V>
    decreases items.len(),
{
    if items.len() == 0 {
        Seq::empty()
    } else {
        match items.last() {
            Some(f) => delivered(items.drop_last()).push(f@),
            None => delivered(items.drop_last()),
        }
    }
}

/// The number of records in a batch: the batch size asked for, or one where
/// none was asked for.
pub open spec fn batch_len(commit_batchsize: usize) -> int {
    if commit_batchsize == 0 {
        1
    } else {
        commit_batchsize as int
    }
}

/// Whether the records that wait are a batch to commit.
pub fn should_commit(waiting: usize, commit_batchsize: usize) -> (r: bool)
    ensures
        r == (waiting >= batch_len(commit_batchsize)),
{
    if commit_batchsize == 0 {
        waiting >= 1
    } else {
        waiting >= commit_batchsize
    }
}

/// The end of the batch that starts at `start`.
pub open spec fn batch_end(start: int, batch: int, total: int) -> int {
    if start + batch <= total {
        start + batch
    } else {
        total
    }
}

/// The first `committed` records went into the index in whole batches, and
/// the batch after them was refused with the error `e`.
pub open spec fn stopped_at(
    before: Seq<StoredRow>,
    records: Seq<FileRecord>,
    batch: int,
    committed: int,
    after: Seq<StoredRow>,
    e: StoreError,
) -> bool {
    &&& 0 <= committed < records.len()
    &&& committed % batch == 0
    &&& can_insert_all(before, records.take(committed))
    &&& after == with_files(before, records.take(committed))
    &&& refuses(after, records.subrange(committed, batch_end(committed, batch, records.len() as int)), e)
}

/// No more records are delivered than there are items.
pub proof fn lemma_delivered_len<T: View>(items: Seq<Option<T>>)
    ensures
        delivered(items).len() <= items.len(),
    decreases items.len(),
{
    if items.len() > 0 {
        lemma_delivered_len(items.drop_last());
    }
}

/// More items deliver the records of fewer items and then some.
pub proof fn lemma_delivered_grows<T: View>(items: Seq<Option<T>>, i: int)
    requires
        0 <= i <= items.len(),
    ensures
        delivered(items.take(i)).len() <= delivered(items).len(),
        delivered(items.take(i)).len() <= i,
        delivered(items.take(i)) == delivered(items).take(delivered(items.take(i)).len() as int),
    decreases items.len() - i,
{
    lemma_delivered_len(items.take(i));
    if i == items.len() {
        assert(items.take(i) =~= items);
        assert(delivered(items).take(delivered(items).len() as int) =~= delivered(items));
    } else {
        lemma_delivered_grows(items, i + 1);
        assert(items.take(i + 1).drop_last() =~= items.take(i));
        let longer = delivered(items.take(i + 1));
        let shorter = delivered(items.take(i));
        assert(shorter =~= longer.take(shorter.len() as int));
        assert(longer.take(shorter.len() as int) =~= delivered(items).take(shorter.len() as int));
    }
}

/// Takes the records in the order in which they were delivered and commits
/// them to the index in batches of `commit_batchsize`; what is left at the
/// end is committed as a last, shorter batch. A `None` stands for a file
/// that could not be read and is passed over. A batch that the index
/// refuses ends the work: the batches before it stay, the refused batch and
/// what follows do not go in. Returns how many records went in.
pub fn process_filelist(
    db: &mut Database,
    filelist: &Vec<Option<FileDigest>>,
    commit_batchsize: usize,
) -> (r: Result<usize, StoreError>)
    requires
        old(db).wf(),
    ensures
        final(db).wf(),
        match r {
            Ok(n) => can_insert_all(old(db)@, delivered(filelist@)) && final(db)@ == with_files(
                old(db)@,
                delivered(filelist@),
            ) && n == delivered(filelist@).len(),
            Err(e) => !can_insert_all(old(db)@, delivered(filelist@)) && exists|committed: int|
                #[trigger] stopped_at(
                    old(db)@,
                    delivered(filelist@),
                    batch_len(commit_batchsize),
                    committed,
                    final(db)@,
                    e,
                ),
        },
{
    let batch: usize = if commit_batchsize == 0 {
        1
    } else {
        commit_batchsize
    };
    let ghost all = delivered(filelist@);
    let mut buffer: Vec<FileDigest> = Vec::new();
    let mut committed: usize = 0;
    let mut i: usize = 0;
    proof {
        assert(filelist@.take(0) =~= Seq::<Option<FileDigest>>::empty());
        assert(delivered(filelist@.take(0)) =~= Seq::<FileRecord>::empty());
        assert(all.take(0) =~= Seq::<FileRecord>::empty());
        assert(file_views(buffer@) =~= Seq::<FileRecord>::empty());
    }
    while i < filelist.len()
        invariant
            i <= filelist.len(),
            batch == batch_len(commit_batchsize),
            batch >= 1,
            all == delivered(filelist@),
            db.wf(),
            (committed as int) % (batch as int) == 0,
            buffer.len() < batch,
            committed + buffer.len() == delivered(filelist@.take(i as int)).len(),
            committed + buffer.len() <= all.len(),
            committed + buffer.len() <= i,
            file_views(buffer@) == all.subrange(committed as int, committed + buffer.len()),
            can_insert_all(old(db)@, all.take(committed as int)),
            db@ == with_files(old(db)@, all.take(committed as int)),
        decreases filelist.len() - i,
    {
        proof {
            lemma_delivered_grows(filelist@, i + 1);
            assert(filelist@.take(i + 1).drop_last() =~= filelist@.take(i as int));
            assert(filelist@.take(i + 1).last() == filelist[i as int]);
        }
        match &filelist[i] {
            Some(f) => {
                let ghost shorter = delivered(filelist@.take(i as int));
                let ghost longer = delivered(filelist@.take(i + 1));
                assert(longer == shorter.push(f@));
                assert(all[committed + buffer.len()] == f@) by {
                    assert(longer == all.take(longer.len() as int));
                    assert(longer[shorter.len() as int] == f@);
                }
                let ghost before = file_views(buffer@);
                buffer.push(f.duplicate());
                assert(file_views(buffer@) =~= all.subrange(
                    committed as int,
                    committed + buffer.len(),
                )) by {
                    assert forall|k: int| 0 <= k < buffer.len() implies file_views(buffer@)[k]
                        == all[committed + k] by {
                        if k < buffer.len() - 1 {
                            assert(before[k] == all.subrange(
                                committed as int,
                                committed + buffer.len() - 1,
                            )[k]);
                        }
                    }
                }
            },
            None => {},
        }
        i += 1;
        if buffer.len() >= batch {
            let ghost start = committed as int;
            let ghost end = start + batch;
            proof {
                assert(all.take(start) + all.subrange(start, end) =~= all.take(end));
                lemma_with_files_append(old(db)@, all.take(start), all.subrange(start, end));
            }
            match db.insert_many_filedigests(&buffer) {
                Ok(_) => {
                    assert((committed + batch) % (batch as int) == 0) by (nonlinear_arith)
                        requires
                            (committed as int) % (batch as int) == 0,
                            batch >= 1,
                    ;
                    committed = committed + batch;
                    buffer = Vec::new();
                    assert(file_views(buffer@) =~= all.subrange(committed as int, committed as int));
                },
                Err(e) => {
                    proof {
                        assert(batch_end(start, batch as int, all.len() as int) == end);
                        assert(stopped_at(old(db)@, all, batch as int, start, db@, e));
                        if can_insert_all(old(db)@, all) {
                            lemma_can_insert_all_whole(old(db)@, all, end);
                        }
                    }
                    return Err(e);
                },
            }
        }
    }
    assert(filelist@.take(filelist.len() as int) =~= filelist@);
    let ghost start = committed as int;
    proof {
        assert(all.take(start) + all.subrange(start, all.len() as int) =~= all);
        lemma_with_files_append(old(db)@, all.take(start), all.subrange(start, all.len() as int));
    }
    if buffer.len() > 0 {
        match db.insert_many_filedigests(&buffer) {
            Ok(_) => {},
            Err(e) => {
                proof {
                    assert(batch_end(start, batch as int, all.len() as int) == all.len());
                    assert(stopped_at(old(db)@, all, batch as int, start, db@, e));
                }
                return Err(e);
            },
        }
    } else {
        assert(all.take(start) =~= all);
    }
    Ok(committed + buffer.len())
}

/// If all the files of a batch can be inserted, so can its first `k`.
pub proof fn lemma_can_insert_all_whole(s: Seq<StoredRow>, files: Seq<FileRecord>, k: int)
    requires
        0 <= k <= files.len(),
        can_insert_all(s, files),
    ensures
        can_insert_all(s, files.take(k)),
{
    if !can_insert_all(s, files.take(k)) {
        lemma_can_insert_all_prefix(s, files, k);
    }
}

} // verus!
