//! What the query interface decides: the state that a request leaves the
//! index in, the answer it gets, and the order in which groups are shown.
use vstd::prelude::*;
use crate::database::{
    Database, StoreError, VideoHash, VideoRecord, has_id, path_taken_by_other, position_of,
    video_views, videos_of, with_path,
};
use crate::matrix::{DistanceMatrix, matrix_rows};
use crate::ranking::{descending_order, ranks_descending};
use crate::videohash::{
    MAX_HISTOGRAM_LEN, calculate_distances, comparable, find_similar_files, holds_distances, near,
    picks, similar_groups,
};

verus! {

/// Whether the file that a request named was found on disk.
#[derive(Debug, PartialEq, Eq, Clone, Copy, Structural)]
pub enum FileStatus {
    /// The file was there, and was renamed or removed.
    Success,
    /// The file was not there; only the index was changed.
    DoesNotExist,
}

/// The status of a request, given whether its file was on disk.
pub open spec fn status_of(exists_on_disk: bool) -> FileStatus {
    if exists_on_disk {
        FileStatus::Success
    } else {
        FileStatus::DoesNotExist
    }
}

/// The word that answers a request.
pub fn status_text(status: FileStatus) -> (r: &'static str)
    ensures
        r@ == match status {
            FileStatus::Success => "success"@,
            FileStatus::DoesNotExist => "does-not-exist"@,
        },
{
    match status {
        FileStatus::Success => "success",
        FileStatus::DoesNotExist => "does-not-exist",
    }
}

/// Whether file previews would be served on an address other than the
/// local one, which deserves a warning.
pub fn preview_is_exposed(allow_preview: bool, bind_address: &str) -> (r: bool)
    ensures
        r == (allow_preview && bind_address@ != "127.0.0.1"@),
{
    let given = bind_address.to_owned();
    let local = "127.0.0.1".to_owned();
    allow_preview && !(given == local)
}

/// Gives the file a new path in the index, after it has been renamed on
/// disk if it was there. Refused if no row has the id or another row has
/// the path; the index is then left as it was.
pub fn rename_file(db: &mut Database, id: i64, new_name: String, exists_on_disk: bool) -> (r: Result<
    FileStatus,
    StoreError,
>)
    requires
        old(db).wf(),
    ensures
        final(db).wf(),
        match r {
            Ok(status) => status == status_of(exists_on_disk) && has_id(old(db)@, id as int)
                && !path_taken_by_other(old(db)@, position_of(old(db)@, id as int), new_name@)
                && final(db)@ == with_path(old(db)@, position_of(old(db)@, id as int), new_name@),
            Err(e) => final(db)@ == old(db)@ && if !has_id(old(db)@, id as int) {
                e == StoreError::NotFound
            } else {
                e == StoreError::DuplicatePath && path_taken_by_other(
                    old(db)@,
                    position_of(old(db)@, id as int),
                    new_name@,
                )
            },
        },
{
    match db.rename_file(id, new_name) {
        Ok(_) => Ok(
            if exists_on_disk {
                FileStatus::Success
            } else {
                FileStatus::DoesNotExist
            },
        ),
        Err(e) => Err(e),
    }
}

/// Removes the file from the index, after it has been removed from disk if
/// it was there. Refused if no row has the id.
pub fn delete_file(db: &mut Database, id: i64, exists_on_disk: bool) -> (r: Result<
    FileStatus,
    StoreError,
>)
    requires
        old(db).wf(),
    ensures
        final(db).wf(),
        match r {
            Ok(status) => status == status_of(exists_on_disk) && has_id(old(db)@, id as int)
                && final(db)@ == old(db)@.remove(position_of(old(db)@, id as int)),
            Err(e) => final(db)@ == old(db)@ && !has_id(old(db)@, id as int) && e
                == StoreError::NotFound,
        },
{
    if db.delete_filedigest(id) == 0 {
        return Err(StoreError::NotFound);
    }
    Ok(
        if exists_on_disk {
            FileStatus::Success
        } else {
            FileStatus::DoesNotExist
        },
    )
}

/// The least size among the videos at the places that `group` lists, or 0
/// for an empty group.
pub open spec fn least_size(videos: Seq<VideoRecord>, group: Seq<int>) -> nat
    decreases group.len(),
{
    if group.len() == 0 {
        0
    } else if group.len() == 1 {
        videos[group[0]].size
    } else {
        let rest = least_size(videos, group.drop_last());
        if videos[group.last()].size < rest {
            videos[group.last()].size
        } else {
            rest
        }
    }
}

/// For each group, the least size among its videos.
pub open spec fn least_sizes(videos: Seq<VideoRecord>, groups: Seq<Seq<int>>) -> Seq<u64> {
    Seq::new(groups.len(), |k: int| least_size(videos, groups[k]) as u64)
}

/// The least size among the videos of a bag, or 0 for an empty bag.
pub open spec fn least_in_bag(bag: Seq<&VideoHash>) -> nat
    decreases bag.len(),
{
    if bag.len() == 0 {
        0
    } else if bag.len() == 1 {
        bag[0].size as nat
    } else {
        let rest = least_in_bag(bag.drop_last());
        if bag.last().size < rest {
            bag.last().size as nat
        } else {
            rest
        }
    }
}

/// The least size in a bag is the least size among the videos that the bag
/// picks.
pub proof fn lemma_least_in_picked(files: Seq<VideoHash>, bag: Seq<&VideoHash>, group: Seq<int>)
    requires
        picks(files, bag, group),
    ensures
        least_in_bag(bag) == least_size(video_views(files), group),
    decreases bag.len(),
{
    if bag.len() > 0 {
        let n = bag.len() - 1;
        assert(0 <= group[n] < files.len() && *bag[n] == files[group[n]]);
        assert(video_views(files)[group[n]] == files[group[n]]@);
        if bag.len() == 1 {
            assert(0 <= group[0] < files.len() && *bag[0] == files[group[0]]);
        } else {
            assert(picks(files, bag.drop_last(), group.drop_last())) by {
                assert forall|m: int| 0 <= m < group.drop_last().len() implies 0
                    <= #[trigger] group.drop_last()[m] < files.len() && *bag.drop_last()[m]
                    == files[group.drop_last()[m]] by {
                    assert(0 <= group[m] < files.len() && *bag[m] == files[group[m]]);
                }
            }
            lemma_least_in_picked(files, bag.drop_last(), group.drop_last());
        }
    }
}

/// The least size among the videos of a bag, or 0 for an empty bag.
pub fn smallest_in_bag(bag: &Vec<&VideoHash>) -> (r: u64)
    ensures
        r == least_in_bag(bag@),
{
    if bag.len() == 0 {
        return 0;
    }
    let mut least: u64 = bag[0].size;
    let mut m: usize = 1;
    assert(bag@.take(1)[0] == bag@[0]);
    while m < bag.len()
        invariant
            1 <= m <= bag.len(),
            least == least_in_bag(bag@.take(m as int)),
        decreases bag.len() - m,
    {
        assert(bag@.take(m + 1).drop_last() =~= bag@.take(m as int));
        assert(bag@.take(m + 1).last() == bag@[m as int]);
        let size = bag[m].size;
        if size < least {
            least = size;
        }
        m += 1;
    }
    assert(bag@.take(bag.len() as int) =~= bag@);
    least
}

/// The videos with their histograms as the index held them at one moment,
/// and the distance between every two of them.
pub struct VideoHashData {
    hashes: Vec<VideoHash>,
    distances: DistanceMatrix,
}

/// The histograms can be compared, and their number is small enough for the
/// table of distances.
pub open spec fn can_tabulate(videos: Seq<VideoRecord>) -> bool {
    comparable(videos) && 2 * videos.len() * videos.len() <= isize::MAX
}

/// Whether the histograms have one length that is short enough.
pub fn histograms_comparable(hashes: &Vec<VideoHash>) -> (r: bool)
    ensures
        r == comparable(video_views(hashes@)),
{
    if hashes.len() == 0 {
        return true;
    }
    let first = hashes[0].histogram.len();
    assert(video_views(hashes@)[0] == hashes[0]@);
    if first > MAX_HISTOGRAM_LEN {
        return false;
    }
    let mut i: usize = 1;
    while i < hashes.len()
        invariant
            1 <= i <= hashes.len(),
            first == hashes[0].histogram.len(),
            first <= MAX_HISTOGRAM_LEN,
            forall|k: int| 0 <= k < i ==> (#[trigger] video_views(hashes@)[k]).histogram.len() == first,
        decreases hashes.len() - i,
    {
        assert(video_views(hashes@)[i as int] == hashes[i as int]@);
        if hashes[i].histogram.len() != first {
            assert(video_views(hashes@)[0] == hashes[0]@);
            return false;
        }
        i += 1;
    }
    true
}

/// Whether a table of distances for `n` videos can be made.
pub fn table_fits(n: usize) -> (r: bool)
    ensures
        r == (2 * n * n <= isize::MAX),
{
    let limit: usize = (isize::MAX as usize) / 2;
    assert(2 * n * n == 2 * (n * n)) by (nonlinear_arith);
    match n.checked_mul(n) {
        Some(cells) => {
            assert(cells == n * n);
            cells <= limit
        },
        None => {
            assert(n * n > usize::MAX);
            false
        },
    }
}

impl VideoHashData {
    /// The videos of the snapshot, in the order of the index.
    pub closed spec fn videos(&self) -> Seq<VideoHash> {
        self.hashes@
    }

    /// The table of the snapshot, row by row.
    pub closed spec fn table(&self) -> Seq<Seq<u16>> {
        matrix_rows(self.distances)
    }

    /// The table holds the distances of the videos.
    pub open spec fn wf(&self) -> bool {
        holds_distances(self.table(), video_views(self.videos()))
    }

    /// The videos of the snapshot.
    pub fn hashes(&self) -> (r: &Vec<VideoHash>)
        ensures
            r@ == self.videos(),
    {
        &self.hashes
    }

    /// A snapshot of the videos that have a histogram, with the distances
    /// between them. Refused if the histograms cannot be compared or are
    /// too many.
    pub fn new(db: &Database) -> (r: Result<VideoHashData, StoreError>)
        ensures
            match r {
                Ok(data) => can_tabulate(videos_of(db@)) && data.wf() && video_views(data.videos())
                    == videos_of(db@),
                Err(e) => !can_tabulate(videos_of(db@)) && e == StoreError::Corrupt,
            },
    {
        let hashes = db.get_all_files_with_videohash();
        if !histograms_comparable(&hashes) || !table_fits(hashes.len()) {
            return Err(StoreError::Corrupt);
        }
        let distances = calculate_distances(&hashes);
        Ok(VideoHashData { hashes: hashes, distances: distances })
    }

    /// Takes the snapshot anew. If that is refused, the old snapshot stays.
    pub fn refresh(&mut self, db: &Database) -> (r: Result<(), StoreError>)
        requires
            old(self).wf(),
        ensures
            final(self).wf(),
            match r {
                Ok(_) => can_tabulate(videos_of(db@)) && video_views(final(self).videos())
                    == videos_of(db@),
                Err(e) => !can_tabulate(videos_of(db@)) && e == StoreError::Corrupt && *final(self)
                    == *old(self),
            },
    {
        match VideoHashData::new(db) {
            Ok(data) => {
                *self = data;
                Ok(())
            },
            Err(e) => Err(e),
        }
    }

    /// The groups of similar videos at the threshold, the group whose
    /// smallest video is largest first.
    pub fn handle_request<'a>(&'a self, threshold: u16) -> (bags: Vec<Vec<&'a VideoHash>>)
        requires
            self.wf(),
        ensures
            shows_groups(self.videos(), self.table(), threshold, bags@),
    {
        let found = find_similar_files(&self.hashes, &self.distances, threshold);
        let ghost videos = video_views(self.hashes@);
        let ghost groups = similar_groups(
            near(videos, matrix_rows(self.distances), threshold),
            self.hashes.len() as nat,
        );
        let mut keys: Vec<u64> = Vec::new();
        let mut k: usize = 0;
        while k < found.len()
            invariant
                k <= found.len(),
                found@.len() == groups.len(),
                videos == video_views(self.hashes@),
                forall|j: int|
                    0 <= j < found@.len() ==> picks(self.hashes@, (#[trigger] found@[j])@, groups[j]),
                keys.len() == k,
                forall|j: int| 0 <= j < k ==> #[trigger] keys[j] == least_sizes(videos, groups)[j],
            decreases found.len() - k,
        {
            proof {
                lemma_least_in_picked(self.hashes@, found@[k as int]@, groups[k as int]);
            }
            let least = smallest_in_bag(&found[k]);
            keys.push(least);
            k += 1;
        }
        assert(keys@ =~= least_sizes(videos, groups));
        let order = descending_order(&keys);
        let mut bags: Vec<Vec<&'a VideoHash>> = Vec::new();
        let ghost places = order@.map_values(|p: usize| p as int);
        k = 0;
        while k < found.len()
            invariant
                k <= found.len(),
                found@.len() == groups.len(),
                order.len() == found.len(),
                places == order@.map_values(|p: usize| p as int),
                ranks_descending(keys@, order@),
                keys.len() == found.len(),
                forall|j: int|
                    0 <= j < found@.len() ==> picks(self.hashes@, (#[trigger] found@[j])@, groups[j]),
                bags.len() == k,
                forall|j: int|
                    0 <= j < k ==> picks(
                        self.hashes@,
                        (#[trigger] bags@[j])@,
                        groups[order[j] as int],
                    ),
            decreases found.len() - k,
        {
            assert(places[k as int] == order[k as int]);
            let from = order[k];
            assert(picks(self.hashes@, found@[from as int]@, groups[from as int]));
            let mut bag: Vec<&'a VideoHash> = Vec::new();
            let mut m: usize = 0;
            while m < found[from].len()
                invariant
                    from < found.len(),
                    m <= found[from as int].len(),
                    bag@ == found[from as int]@.take(m as int),
                decreases found[from as int].len() - m,
            {
                bag.push(found[from][m]);
                m += 1;
                assert(bag@ =~= found[from as int]@.take(m as int));
            }
            assert(found[from as int]@.take(m as int) =~= found[from as int]@);
            bags.push(bag);
            k += 1;
        }
        assert(shows_groups(self.hashes@, matrix_rows(self.distances), threshold, bags@)) by {
            assert(ranks_descending(least_sizes(videos, groups), order@));
        }
        bags
    }
}

/// `bags` show the groups of similar videos at the threshold, the group
/// whose smallest video is largest first; of two groups whose smallest
/// videos have one size, the later group comes first.
pub open spec fn shows_groups(
    files: Seq<VideoHash>,
    table: Seq<Seq<u16>>,
    threshold: u16,
    bags: Seq<Vec<&VideoHash>>,
) -> bool {
    let videos = video_views(files);
    let groups = similar_groups(near(videos, table, threshold), files.len());
    exists|order: Seq<usize>|
        {
            &&& #[trigger] ranks_descending(least_sizes(videos, groups), order)
            &&& bags.len() == groups.len()
            &&& forall|k: int|
                0 <= k < bags.len() ==> picks(files, (#[trigger] bags[k])@, groups[order[k] as int])
        }
}

/// The sizes of all videos of a bag but the largest, added up.
pub open spec fn spare_after_largest(bag: Seq<&VideoHash>) -> int {
    sizes_sum(bag) - largest_size(bag)
}

/// The sizes of the videos of a bag, added up.
pub open spec fn sizes_sum(bag: Seq<&VideoHash>) -> int
    decreases bag.len(),
{
    if bag.len() == 0 {
        0
    } else {
        sizes_sum(bag.drop_last()) + bag.last().size
    }
}

/// The size of the largest video of a bag, or 0 for an empty bag.
pub open spec fn largest_size(bag: Seq<&VideoHash>) -> int
    decreases bag.len(),
{
    if bag.len() == 0 {
        0
    } else {
        let rest = largest_size(bag.drop_last());
        if bag.last().size > rest {
            bag.last().size as int
        } else {
            rest
        }
    }
}

/// What would be saved if only the largest video of each bag were kept.
pub open spec fn saved_by_grouping(bags: Seq<Vec<&VideoHash>>) -> int
    decreases bags.len(),
{
    if bags.len() == 0 {
        0
    } else {
        saved_by_grouping(bags.drop_last()) + spare_after_largest(bags.last()@)
    }
}

/// The largest size in a bag is one of the sizes that were added up.
pub proof fn lemma_largest_within_sum(bag: Seq<&VideoHash>)
    ensures
        0 <= largest_size(bag) <= sizes_sum(bag),
    decreases bag.len(),
{
    if bag.len() > 0 {
        lemma_largest_within_sum(bag.drop_last());
    }
}

/// What is saved grows with every bag.
pub proof fn lemma_saved_grows(bags: Seq<Vec<&VideoHash>>, k: int)
    requires
        0 <= k <= bags.len(),
    ensures
        0 <= saved_by_grouping(bags.take(k)) <= saved_by_grouping(bags),
    decreases bags.len() - k,
{
    if k == bags.len() {
        assert(bags.take(k) =~= bags);
        lemma_saved_nonnegative(bags);
    } else {
        assert(bags.take(k + 1).drop_last() =~= bags.take(k));
        lemma_largest_within_sum(bags.take(k + 1).last()@);
        lemma_saved_grows(bags, k + 1);
        lemma_saved_nonnegative(bags.take(k));
    }
}

/// What is saved is never negative.
pub proof fn lemma_saved_nonnegative(bags: Seq<Vec<&VideoHash>>)
    ensures
        0 <= saved_by_grouping(bags),
    decreases bags.len(),
{
    if bags.len() > 0 {
        lemma_saved_nonnegative(bags.drop_last());
        lemma_largest_within_sum(bags.last()@);
    }
}

/// The sizes of all videos of the bag but the largest, added up, or `None`
/// if the sum does not fit.
pub fn spare_in_group(bag: &Vec<&VideoHash>) -> (r: Option<u64>)
    ensures
        match r {
            Some(spare) => spare == spare_after_largest(bag@),
            None => spare_after_largest(bag@) > u64::MAX,
        },
{
    let mut sum: u128 = 0;
    let mut largest: u64 = 0;
    let mut m: usize = 0;
    assert(bag@.take(0) =~= Seq::<&VideoHash>::empty());
    while m < bag.len()
        invariant
            m <= bag.len(),
            sum == sizes_sum(bag@.take(m as int)),
            largest == largest_size(bag@.take(m as int)),
            sum <= m * u64::MAX,
        decreases bag.len() - m,
    {
        assert(bag@.take(m + 1).drop_last() =~= bag@.take(m as int));
        assert(bag@.take(m + 1).last() == bag@[m as int]);
        let size = bag[m].size;
        assert((m + 1) * u64::MAX == m * u64::MAX + u64::MAX) by (nonlinear_arith);
        assert(m * u64::MAX <= usize::MAX * u64::MAX) by (nonlinear_arith)
            requires
                m <= usize::MAX,
        ;
        assert(usize::MAX * u64::MAX + u64::MAX <= u128::MAX) by (nonlinear_arith)
            requires
                usize::MAX <= u64::MAX,
        ;
        sum = sum + size as u128;
        if size > largest {
            largest = size;
        }
        m += 1;
    }
    assert(bag@.take(bag.len() as int) =~= bag@);
    proof {
        lemma_largest_within_sum(bag@);
    }
    let spare: u128 = sum - largest as u128;
    if spare > u64::MAX as u128 {
        None
    } else {
        Some(spare as u64)
    }
}

/// What would be saved if only the largest video of each bag were kept, or
/// `None` if the sum does not fit.
pub fn max_saved_size(bags: &Vec<Vec<&VideoHash>>) -> (r: Option<u64>)
    ensures
        match r {
            Some(total) => total == saved_by_grouping(bags@),
            None => saved_by_grouping(bags@) > u64::MAX,
        },
{
    let mut total: u64 = 0;
    let mut k: usize = 0;
    assert(bags@.take(0) =~= Seq::<Vec<&VideoHash>>::empty());
    while k < bags.len()
        invariant
            k <= bags.len(),
            total == saved_by_grouping(bags@.take(k as int)),
        decreases bags.len() - k,
    {
        assert(bags@.take(k + 1).drop_last() =~= bags@.take(k as int));
        assert(bags@.take(k + 1).last() == bags@[k as int]);
        proof {
            lemma_saved_grows(bags@, k + 1);
            lemma_largest_within_sum(bags@[k as int]@);
        }
        let spare = match spare_in_group(&bags[k]) {
            Some(spare) => spare,
            None => {
                return None;
            },
        };
        total = match total.checked_add(spare) {
            Some(sum) => sum,
            None => {
                return None;
            },
        };
        k += 1;
    }
    assert(bags@.take(bags.len() as int) =~= bags@);
    Some(total)
}

} // verus!
