//! Reconciling the index with a listing of the files on disk: rows whose
//! file is gone can be dropped, and paths that the index does not know are
//! handed on to be digested.
use vstd::prelude::*;
use crate::database::{
    Database, FileRecord, StoredRow, can_insert_all, file_views, files_of, has_path,
    lemma_position_unique, lemma_with_files_wf, store_wf, with_files,
};
use crate::sequences::{lemma_filter_all, lemma_filter_none, lemma_filter_step, lemma_filtered_from};

verus! {

/// The paths as sequences of characters, in order.
pub open spec fn path_views(paths: Seq<String>) -> Seq<Seq<char>> {
    Seq::new(paths.len(), |i: int| paths[i]@)
}

/// The rows whose path is in the listing, in order.
pub open spec fn kept(s: Seq<StoredRow>, disk: Seq<Seq<char>>) -> Seq<StoredRow> {
    s.filter(|row: StoredRow| disk.contains(row.file.path))
}

/// The paths of the listing that no row has, in order.
pub open spec fn unknown(s: Seq<StoredRow>, disk: Seq<Seq<char>>) -> Seq<Seq<char>> {
    disk.filter(|path: Seq<char>| !has_path(s, path))
}

/// The index after reconciling: without the rows whose file is gone, if
/// they are to be dropped.
pub open spec fn cleaned(s: Seq<StoredRow>, disk: Seq<Seq<char>>, clean_unfound: bool) -> Seq<
    StoredRow,
> {
    if clean_unfound {
        kept(s, disk)
    } else {
        s
    }
}

/// Whether the path is in the listing.
pub fn is_listed_path(paths: &Vec<String>, path: &String) -> (r: bool)
    ensures
        r == path_views(paths@).contains(path@),
{
    let mut i: usize = 0;
    while i < paths.len()
        invariant
            i <= paths.len(),
            forall|k: int| 0 <= k < i ==> #[trigger] path_views(paths@)[k] != path@,
        decreases paths.len() - i,
    {
        if paths[i] == *path {
            assert(path_views(paths@)[i as int] == path@);
            return true;
        }
        i += 1;
    }
    false
}

/// Drops every row whose path is not in the listing, by its id. Returns how
/// many rows were dropped.
pub fn remove_outdated_files(db: &mut Database, current_filelist: &Vec<String>) -> (removed: usize)
    requires
        old(db).wf(),
    ensures
        final(db).wf(),
        final(db)@ == kept(old(db)@, path_views(current_filelist@)),
        removed == old(db)@.len() - final(db)@.len(),
{
    let files_in_db = db.get_all_filedigests();
    let ghost before = db@;
    let ghost disk = path_views(current_filelist@);
    let ghost listed = |row: StoredRow| disk.contains(row.file.path);
    let mut removed: usize = 0;
    let mut i: usize = 0;
    proof {
        reveal(Seq::filter);
        assert(file_views(files_in_db@).len() == files_of(before).len());
        assert(before.take(0) =~= Seq::<StoredRow>::empty());
        assert(before.take(0).filter(listed) + before.skip(0) =~= before);
    }
    while i < files_in_db.len()
        invariant
            i <= files_in_db.len(),
            files_in_db.len() == before.len(),
            file_views(files_in_db@) == files_of(before),
            disk == path_views(current_filelist@),
            listed == (|row: StoredRow| disk.contains(row.file.path)),
            store_wf(before),
            db.wf(),
            db@ == before.take(i as int).filter(listed) + before.skip(i as int),
            removed + db@.len() == before.len(),
        decreases files_in_db.len() - i,
    {
        let ghost done = before.take(i as int).filter(listed);
        let ghost current = db@;
        proof {
            lemma_filter_step(before, listed, i as int);
            assert(file_views(files_in_db@)[i as int] == files_in_db[i as int]@);
            assert(files_of(before)[i as int] == before[i as int].file);
            assert(current[done.len() as int] == before[i as int]);
        }
        if !is_listed_path(current_filelist, &files_in_db[i].path) {
            proof {
                lemma_position_unique(current, done.len() as int);
            }
            let count = db.delete_filedigest(files_in_db[i].id);
            assert(db@ =~= done + before.skip(i + 1));
            removed += count;
        } else {
            assert(current =~= done.push(before[i as int]) + before.skip(i + 1));
        }
        i += 1;
    }
    proof {
        assert(before.take(before.len() as int) =~= before);
        assert(before.skip(before.len() as int) =~= Seq::<StoredRow>::empty());
        assert(before.filter(listed) + Seq::<StoredRow>::empty() =~= before.filter(listed));
    }
    removed
}

/// The paths of the listing that the index does not know, in the order of
/// the listing.
pub fn filter_out_files_already_in_database(db: &Database, current_filelist: Vec<String>) -> (r:
    Vec<String>)
    ensures
        path_views(r@) == unknown(db@, path_views(current_filelist@)),
{
    let ghost disk = path_views(current_filelist@);
    let ghost is_new = |path: Seq<char>| !has_path(db@, path);
    let mut result: Vec<String> = Vec::new();
    let mut i: usize = 0;
    proof {
        reveal(Seq::filter);
        assert(disk.take(0) =~= Seq::<Seq<char>>::empty());
        assert(path_views(result@) =~= disk.take(0).filter(is_new));
    }
    while i < current_filelist.len()
        invariant
            i <= current_filelist.len(),
            disk == path_views(current_filelist@),
            is_new == (|path: Seq<char>| !has_path(db@, path)),
            path_views(result@) == disk.take(i as int).filter(is_new),
        decreases current_filelist.len() - i,
    {
        proof {
            lemma_filter_step(disk, is_new, i as int);
            assert(disk[i as int] == current_filelist[i as int]@);
        }
        if !db.contains_path(&current_filelist[i]) {
            let ghost earlier = path_views(result@);
            result.push(current_filelist[i].clone());
            assert(path_views(result@) =~= earlier.push(disk[i as int]));
        }
        i += 1;
    }
    assert(disk.take(current_filelist.len() as int) =~= disk);
    result
}

/// Brings the index in line with the listing of the files on disk: with
/// `clean_unfound`, rows whose file is gone are dropped. Returns the paths
/// that are on disk and not in the index, which are the files to digest.
pub fn reconcile(db: &mut Database, complete_filelist: Vec<String>, clean_unfound: bool) -> (r: Vec<
    String,
>)
    requires
        old(db).wf(),
    ensures
        final(db).wf(),
        final(db)@ == cleaned(old(db)@, path_views(complete_filelist@), clean_unfound),
        path_views(r@) == unknown(final(db)@, path_views(complete_filelist@)),
{
    if clean_unfound {
        let _ = remove_outdated_files(db, &complete_filelist);
    }
    filter_out_files_already_in_database(db, complete_filelist)
}

/// Dropping rows keeps the invariant of the index.
pub proof fn lemma_filter_keeps_wf(s: Seq<StoredRow>, keep: spec_fn(StoredRow) -> bool)
    requires
        store_wf(s),
    ensures
        store_wf(s.filter(keep)),
    decreases s.len(),
{
    reveal(Seq::filter);
    if s.len() > 0 {
        let front = s.drop_last();
        lemma_filter_keeps_wf(front, keep);
        let rest = front.filter(keep);
        if keep(s.last()) {
            let all = rest.push(s.last());
            assert forall|i: int| 0 <= i < rest.len() implies (#[trigger] rest[i]).file.id
                < s.last().file.id && rest[i].file.path != s.last().file.path by {
                lemma_filtered_from(front, keep, i);
                let k = choose|k: int| 0 <= k < front.len() && #[trigger] front[k] == rest[i];
                assert(s[k] == rest[i]);
                assert(s[k].file.id < s[s.len() - 1].file.id);
            }
            assert(s[s.len() - 1].file.id >= 1);
            assert forall|i: int, j: int| 0 <= i < j < all.len() implies (#[trigger] all[i]).file.id < (
            #[trigger] all[j]).file.id by {
                if j < rest.len() {
                    assert(all[i] == rest[i] && all[j] == rest[j]);
                } else {
                    assert(all[i] == rest[i]);
                }
            }
            assert forall|i: int, j: int| 0 <= i < j < all.len() implies (
            #[trigger] all[i]).file.path != (#[trigger] all[j]).file.path by {
                if j < rest.len() {
                    assert(all[i] == rest[i] && all[j] == rest[j]);
                } else {
                    assert(all[i] == rest[i]);
                }
            }
            assert forall|i: int| 0 <= i < all.len() implies (#[trigger] all[i]).file.id >= 1 by {
                if i < rest.len() {
                    assert(all[i] == rest[i]);
                }
            }
        }
    }
}

/// Reconciling a second time against the same listing changes nothing.
/// After the index has been reconciled with a listing and a record has gone
/// in for every path that was unknown, reconciling with the same listing
/// again drops no row and finds no unknown path.
pub proof fn lemma_reconcile_idempotent(
    s: Seq<StoredRow>,
    disk: Seq<Seq<char>>,
    clean_unfound: bool,
    records: Seq<FileRecord>,
)
    requires
        store_wf(s),
        can_insert_all(cleaned(s, disk, clean_unfound), records),
        forall|k: int| 0 <= k < records.len() ==> disk.contains((#[trigger] records[k]).path),
        forall|i: int|
            0 <= i < disk.len() && !has_path(cleaned(s, disk, clean_unfound), #[trigger] disk[i])
                ==> exists|k: int| 0 <= k < records.len() && (#[trigger] records[k]).path == disk[i],
    ensures
        cleaned(with_files(cleaned(s, disk, clean_unfound), records), disk, clean_unfound)
            == with_files(cleaned(s, disk, clean_unfound), records),
        unknown(with_files(cleaned(s, disk, clean_unfound), records), disk) == Seq::<
            Seq<char>,
        >::empty(),
{
    let base = cleaned(s, disk, clean_unfound);
    let after = with_files(base, records);
    let listed = |row: StoredRow| disk.contains(row.file.path);
    let is_new = |path: Seq<char>| !has_path(after, path);
    lemma_filter_keeps_wf(s, listed);
    lemma_with_files_wf(base, records);
    assert forall|i: int| 0 <= i < base.len() implies after[i] == #[trigger] base[i] by {
        assert(after.take(base.len() as int)[i] == after[i]);
    }
    if clean_unfound {
        assert forall|i: int| 0 <= i < after.len() implies listed(#[trigger] after[i]) by {
            if i < base.len() {
                assert(after[i] == base[i]);
                lemma_filtered_from(s, listed, i);
            } else {
                let k = i - base.len();
                assert(after[base.len() + k].file.path == records[k].path);
                assert(disk.contains(records[k].path));
            }
        }
        lemma_filter_all(after, listed);
    }
    assert forall|i: int| 0 <= i < disk.len() implies !is_new(#[trigger] disk[i]) by {
        if has_path(base, disk[i]) {
            let j = choose|j: int| 0 <= j < base.len() && (#[trigger] base[j]).file.path == disk[i];
            assert(after[j] == base[j]);
            assert(after[j].file.path == disk[i]);
        } else {
            let k = choose|k: int| 0 <= k < records.len() && (#[trigger] records[k]).path == disk[i];
            assert(after[base.len() + k].file.path == records[k].path);
        }
    }
    lemma_filter_none(disk, is_new);
}

} // verus!
