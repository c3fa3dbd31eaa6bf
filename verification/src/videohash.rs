//! Distances between the colour histograms of videos, and the grouping of
//! videos whose histograms are close.
use vstd::prelude::*;
pub use crate::database::VideoHash;
use crate::database::{
    Database, StoreError, StoredRow, VideoRecord, can_attach_all, lemma_can_attach_all_prefix,
    lemma_with_histograms_append, refuses_histograms, video_views, with_histograms,
};
use crate::sequences::{indices, lemma_filter_step};
use crate::filehashing::{batch_end, batch_len, delivered, lemma_delivered_grows};
use crate::matrix::{DistanceMatrix, is_square, matrix_get, matrix_rows, matrix_set, matrix_zeros};

verus! {

/// The greatest length of a histogram whose distances fit in sixteen bits.
pub const MAX_HISTOGRAM_LEN: usize = 257;

/// The distance between two bytes.
pub open spec fn byte_gap(x: u8, y: u8) -> int {
    if x <= y {
        y - x
    } else {
        x - y
    }
}

/// The L1 distance of two byte sequences of one length: the sum of the
/// distances between the bytes at each position.
pub open spec fn l1(a: Seq<u8>, b: Seq<u8>) -> int
    decreases a.len(),
{
    if a.len() == 0 || b.len() == 0 {
        0
    } else {
        l1(a.drop_last(), b.drop_last()) + byte_gap(a.last(), b.last())
    }
}

/// Every byte of the histogram is zero.
pub open spec fn all_zero(h: Seq<u8>) -> bool {
    forall|i: int| 0 <= i < h.len() ==> h[i] == 0
}

/// The histograms have one length, and it is short enough for their
/// distances to fit in sixteen bits.
pub open spec fn comparable(videos: Seq<VideoRecord>) -> bool {
    forall|i: int, j: int|
        0 <= i < videos.len() && 0 <= j < videos.len() ==> (#[trigger] videos[i]).histogram.len()
            == (#[trigger] videos[j]).histogram.len() && videos[i].histogram.len()
            <= MAX_HISTOGRAM_LEN
}

/// The L1 distance is bounded by 255 for each position.
pub proof fn lemma_l1_bound(a: Seq<u8>, b: Seq<u8>)
    requires
        a.len() == b.len(),
    ensures
        0 <= l1(a, b) <= 255 * a.len(),
    decreases a.len(),
{
    if a.len() > 0 {
        lemma_l1_bound(a.drop_last(), b.drop_last());
    }
}

/// The L1 distance does not depend on the order of its arguments.
pub proof fn lemma_l1_symmetric(a: Seq<u8>, b: Seq<u8>)
    ensures
        l1(a, b) == l1(b, a),
    decreases a.len(),
{
    if a.len() > 0 && b.len() > 0 {
        lemma_l1_symmetric(a.drop_last(), b.drop_last());
    }
}

/// The L1 distance of a sequence to itself is zero.
pub proof fn lemma_l1_zero_on_diagonal(a: Seq<u8>)
    ensures
        l1(a, a) == 0,
    decreases a.len(),
{
    if a.len() > 0 {
        lemma_l1_zero_on_diagonal(a.drop_last());
    }
}

/// The L1 distance of two histograms of one length.
pub fn l1_distance(a: &Vec<u8>, b: &Vec<u8>) -> (r: u16)
    requires
        a.len() == b.len(),
        a.len() <= MAX_HISTOGRAM_LEN,
    ensures
        r == l1(a@, b@),
{
    let mut dist: u16 = 0;
    let mut i: usize = 0;
    assert(a@.take(0) =~= Seq::<u8>::empty());
    while i < a.len()
        invariant
            i <= a.len(),
            a.len() == b.len(),
            a.len() <= MAX_HISTOGRAM_LEN,
            dist == l1(a@.take(i as int), b@.take(i as int)),
            dist <= 255 * i,
        decreases a.len() - i,
    {
        let x = a[i];
        let y = b[i];
        let gap: u8 = if x <= y {
            y - x
        } else {
            x - y
        };
        assert(a@.take(i + 1).drop_last() =~= a@.take(i as int));
        assert(b@.take(i + 1).drop_last() =~= b@.take(i as int));
        assert(a@.take(i + 1).last() == x);
        assert(b@.take(i + 1).last() == y);
        dist = dist + gap as u16;
        i += 1;
    }
    assert(a@.take(a.len() as int) =~= a@);
    assert(b@.take(b.len() as int) =~= b@);
    dist
}

/// The table holds, for every two videos, the L1 distance of their
/// histograms.
pub open spec fn holds_distances(rows: Seq<Seq<u16>>, videos: Seq<VideoRecord>) -> bool {
    &&& is_square(rows, videos.len())
    &&& forall|i: int, j: int|
        0 <= i < videos.len() && 0 <= j < videos.len() ==> #[trigger] rows[i][j] == l1(
            videos[i].histogram,
            videos[j].histogram,
        )
}

/// The table of the distances between every two of the videos. It is
/// symmetric and zero on its diagonal.
pub fn calculate_distances(files: &Vec<VideoHash>) -> (dist: DistanceMatrix)
    requires
        comparable(video_views(files@)),
        2 * files.len() * files.len() <= isize::MAX,
    ensures
        holds_distances(matrix_rows(dist), video_views(files@)),
{
    let n = files.len();
    let ghost videos = video_views(files@);
    let mut dist = matrix_zeros(n);
    let mut i: usize = 0;
    while i < n
        invariant
            i <= n,
            n == files.len(),
            videos == video_views(files@),
            comparable(videos),
            is_square(matrix_rows(dist), n as nat),
            forall|a: int, b: int|
                0 <= a < i && 0 <= b < n ==> #[trigger] matrix_rows(dist)[a][b] == l1(
                    videos[a].histogram,
                    videos[b].histogram,
                ),
            forall|a: int, b: int|
                0 <= a < i && 0 <= b < n ==> #[trigger] matrix_rows(dist)[b][a] == l1(
                    videos[b].histogram,
                    videos[a].histogram,
                ),
        decreases n - i,
    {
        let mut j: usize = i;
        while j < n
            invariant
                i < n,
                i <= j <= n,
                n == files.len(),
                videos == video_views(files@),
                comparable(videos),
                is_square(matrix_rows(dist), n as nat),
                forall|a: int, b: int|
                    0 <= a < i && 0 <= b < n ==> #[trigger] matrix_rows(dist)[a][b] == l1(
                        videos[a].histogram,
                        videos[b].histogram,
                    ),
                forall|a: int, b: int|
                    0 <= a < i && 0 <= b < n ==> #[trigger] matrix_rows(dist)[b][a] == l1(
                        videos[b].histogram,
                        videos[a].histogram,
                    ),
                forall|b: int|
                    i <= b < j ==> #[trigger] matrix_rows(dist)[i as int][b] == l1(
                        videos[i as int].histogram,
                        videos[b].histogram,
                    ),
                forall|b: int|
                    i <= b < j ==> #[trigger] matrix_rows(dist)[b][i as int] == l1(
                        videos[b].histogram,
                        videos[i as int].histogram,
                    ),
            decreases n - j,
        {
            assert(videos[i as int] == files[i as int]@);
            assert(videos[j as int] == files[j as int]@);
            let d: u16 = if i != j {
                l1_distance(&files[i].histogram, &files[j].histogram)
            } else {
                0
            };
            proof {
                lemma_l1_zero_on_diagonal(videos[i as int].histogram);
                lemma_l1_symmetric(videos[i as int].histogram, videos[j as int].histogram);
            }
            let ghost before = matrix_rows(dist);
            matrix_set(&mut dist, i, j, d);
            let ghost between = matrix_rows(dist);
            matrix_set(&mut dist, j, i, d);
            let ghost after = matrix_rows(dist);
            assert forall|a: int, b: int| 0 <= a < n && 0 <= b < n implies #[trigger] after[a][b]
                == if (a == i && b == j) || (a == j && b == i) {
                d
            } else {
                before[a][b]
            } by {
                assert(between[a].len() == n);
                assert(before[a].len() == n);
            }
            assert(is_square(after, n as nat)) by {
                assert forall|a: int| 0 <= a < n implies (#[trigger] after[a]).len() == n by {
                    assert(before[a].len() == n);
                    assert(between[a].len() == n);
                }
            }
            j += 1;
        }
        i += 1;
    }
    dist
}

/// The relation `e` holds of `i` and `j`.
pub open spec fn holds(e: spec_fn(int, int) -> bool, i: int, j: int) -> bool {
    e(i, j)
}

/// `e` is an equivalence relation on the numbers below `n`.
pub open spec fn is_equivalence(e: spec_fn(int, int) -> bool, n: int) -> bool {
    &&& forall|i: int| 0 <= i < n ==> #[trigger] holds(e, i, i)
    &&& forall|i: int, j: int| 0 <= i < n && 0 <= j < n && #[trigger] holds(e, i, j) ==> holds(e, j, i)
    &&& forall|i: int, j: int, k: int|
        0 <= i < n && 0 <= j < n && 0 <= k < n && #[trigger] holds(e, i, j) && #[trigger] holds(
            e,
            j,
            k,
        ) ==> holds(e, i, k)
}

/// Below `n`, whatever `rel` relates, `e` relates too.
pub open spec fn includes(e: spec_fn(int, int) -> bool, rel: spec_fn(int, int) -> bool, n: int) -> bool {
    forall|i: int, j: int| 0 <= i < n && 0 <= j < n && #[trigger] holds(rel, i, j) ==> holds(e, i, j)
}

/// `i` and `j` are related by the least equivalence relation on the numbers
/// below `n` that includes `rel`: its reflexive, symmetric and transitive
/// closure.
pub open spec fn related(rel: spec_fn(int, int) -> bool, n: int, i: int, j: int) -> bool {
    forall|e: spec_fn(int, int) -> bool|
        is_equivalence(e, n) && includes(e, rel, n) ==> #[trigger] holds(e, i, j)
}

/// Two videos are near each other: neither histogram is all zero, and the
/// table gives them a distance below the threshold. Only the entries on and
/// above the diagonal of the table are read.
pub open spec fn near(videos: Seq<VideoRecord>, rows: Seq<Seq<u16>>, threshold: u16) -> spec_fn(
    int,
    int,
) -> bool {
    |i: int, j: int|
        i <= j && !all_zero(videos[i].histogram) && !all_zero(videos[j].histogram) && rows[i][j]
            < threshold
}

/// The numbers below `n` that are related to `r`, ascending.
pub open spec fn group_of(rel: spec_fn(int, int) -> bool, n: nat, r: int) -> Seq<int> {
    indices(n).filter(|i: int| related(rel, n as int, i, r))
}

/// `r` is the least member of a group of two or more.
pub open spec fn leads_group(rel: spec_fn(int, int) -> bool, n: nat, r: int) -> bool {
    &&& forall|i: int| 0 <= i < r ==> !related(rel, n as int, i, r)
    &&& group_of(rel, n, r).len() >= 2
}

/// The groups of two or more, each ascending, in the order of their least
/// members.
pub open spec fn similar_groups(rel: spec_fn(int, int) -> bool, n: nat) -> Seq<Seq<int>> {
    indices(n).filter(|r: int| leads_group(rel, n, r)).map_values(|r: int| group_of(rel, n, r))
}

/// The closure relates every number below `n` to itself.
pub proof fn lemma_related_reflexive(rel: spec_fn(int, int) -> bool, n: int, i: int)
    requires
        0 <= i < n,
    ensures
        related(rel, n, i, i),
{
}

/// The closure is symmetric.
pub proof fn lemma_related_symmetric(rel: spec_fn(int, int) -> bool, n: int, i: int, j: int)
    requires
        0 <= i < n,
        0 <= j < n,
        related(rel, n, i, j),
    ensures
        related(rel, n, j, i),
{
    assert forall|e: spec_fn(int, int) -> bool|
        is_equivalence(e, n) && includes(e, rel, n) implies #[trigger] holds(e, j, i) by {
        assert(holds(e, i, j));
    }
}

/// The closure is transitive.
pub proof fn lemma_related_transitive(
    rel: spec_fn(int, int) -> bool,
    n: int,
    i: int,
    j: int,
    k: int,
)
    requires
        0 <= i < n,
        0 <= j < n,
        0 <= k < n,
        related(rel, n, i, j),
        related(rel, n, j, k),
    ensures
        related(rel, n, i, k),
{
    assert forall|e: spec_fn(int, int) -> bool|
        is_equivalence(e, n) && includes(e, rel, n) implies #[trigger] holds(e, i, k) by {
        assert(holds(e, i, j));
        assert(holds(e, j, k));
    }
}

/// The closure includes the relation it is the closure of.
pub proof fn lemma_related_includes(rel: spec_fn(int, int) -> bool, n: int, i: int, j: int)
    requires
        0 <= i < n,
        0 <= j < n,
        holds(rel, i, j),
    ensures
        related(rel, n, i, j),
{
}

/// The closure is the least of its kind: whatever equivalence relation
/// includes the relation, it includes the closure too.
pub proof fn lemma_related_is_least(
    rel: spec_fn(int, int) -> bool,
    n: int,
    e: spec_fn(int, int) -> bool,
    i: int,
    j: int,
)
    requires
        is_equivalence(e, n),
        includes(e, rel, n),
        related(rel, n, i, j),
    ensures
        holds(e, i, j),
{
}

/// A group holds exactly the videos that are related to the one it is the
/// group of.
pub proof fn lemma_group_members_are_related(rel: spec_fn(int, int) -> bool, n: nat, r: int, i: int)
    requires
        0 <= i < n,
    ensures
        group_of(rel, n, r).contains(i) <==> related(rel, n as int, i, r),
{
    let member = |k: int| related(rel, n as int, k, r);
    let all = indices(n);
    assert(all[i] == i);
    if related(rel, n as int, i, r) {
        all.lemma_filter_contains(member, i);
    }
    if group_of(rel, n, r).contains(i) {
        let m = choose|m: int| 0 <= m < all.filter(member).len() && all.filter(member)[m] == i;
        all.lemma_filter_pred(member, m);
    }
}

/// A video whose histogram is all zero is grouped with no other video,
/// whatever the distances and the threshold.
pub proof fn lemma_all_zero_stays_alone(
    videos: Seq<VideoRecord>,
    rows: Seq<Seq<u16>>,
    threshold: u16,
    i: int,
    j: int,
)
    requires
        0 <= i < videos.len(),
        0 <= j < videos.len(),
        all_zero(videos[i].histogram) || all_zero(videos[j].histogram),
        related(near(videos, rows, threshold), videos.len() as int, i, j),
    ensures
        i == j,
{
    let n = videos.len() as int;
    let rel = near(videos, rows, threshold);
    let e = |x: int, y: int|
        x == y || (!all_zero(videos[x].histogram) && !all_zero(videos[y].histogram));
    assert(is_equivalence(e, n));
    assert(includes(e, rel, n));
    assert(holds(e, i, j));
}

/// Every entry of the parent table points at its own place or to the left.
spec fn forest(parent: Seq<usize>) -> bool {
    forall|x: int| 0 <= x < parent.len() ==> #[trigger] parent[x] <= x
}

/// The root that `x` leads to.
spec fn root_of(parent: Seq<usize>, x: int) -> int
    decreases x,
{
    if 0 <= x < parent.len() && parent[x] < x {
        root_of(parent, parent[x] as int)
    } else {
        x
    }
}

/// The root of a place lies at or to the left of it and is its own root.
proof fn lemma_root(parent: Seq<usize>, x: int)
    requires
        forest(parent),
        0 <= x < parent.len(),
    ensures
        0 <= root_of(parent, x) <= x,
        parent[root_of(parent, x)] == root_of(parent, x),
        root_of(parent, root_of(parent, x)) == root_of(parent, x),
    decreases x,
{
    if parent[x] < x {
        lemma_root(parent, parent[x] as int);
    }
}

/// Pointing `t` at a place further left with the same root changes no root.
proof fn lemma_shortcut(parent: Seq<usize>, t: int, g: usize, y: int)
    requires
        forest(parent),
        0 <= t < parent.len(),
        g < t,
        root_of(parent, g as int) == root_of(parent, t),
        0 <= y < parent.len(),
    ensures
        root_of(parent.update(t, g), y) == root_of(parent, y),
    decreases y,
{
    if y == t {
        lemma_shortcut(parent, t, g, g as int);
    } else if parent[y] < y {
        lemma_shortcut(parent, t, g, parent[y] as int);
    }
}

/// Pointing the root `high` at the root `low` moves what led to `high` to
/// `low` and changes no other root.
proof fn lemma_link(parent: Seq<usize>, low: usize, high: int, y: int)
    requires
        forest(parent),
        0 <= low < high < parent.len(),
        parent[low as int] == low,
        parent[high] == high,
        0 <= y < parent.len(),
    ensures
        root_of(parent.update(high, low), y) == if root_of(parent, y) == high {
            low as int
        } else {
            root_of(parent, y)
        },
    decreases y,
{
    if y == high {
        assert(root_of(parent.update(high, low), low as int) == low);
    } else if parent[y] < y {
        lemma_link(parent, low, high, parent[y] as int);
    }
}

/// The root of `x`. On the way, each place visited is pointed at its
/// grandparent, which changes no root.
fn find(parent: &mut Vec<usize>, x: usize) -> (r: usize)
    requires
        forest(old(parent)@),
        x < old(parent).len(),
    ensures
        forest(final(parent)@),
        final(parent).len() == old(parent).len(),
        forall|y: int|
            0 <= y < old(parent).len() ==> #[trigger] root_of(final(parent)@, y) == root_of(
                old(parent)@,
                y,
            ),
        r == root_of(old(parent)@, x as int),
{
    let mut cur: usize = x;
    while parent[cur] != cur
        invariant
            forest(parent@),
            parent.len() == old(parent).len(),
            cur < parent.len(),
            forall|y: int|
                0 <= y < parent.len() ==> #[trigger] root_of(parent@, y) == root_of(old(parent)@, y),
            root_of(parent@, cur as int) == root_of(old(parent)@, x as int),
        decreases cur,
    {
        let up = parent[cur];
        let further = parent[up];
        let ghost before = parent@;
        proof {
            assert(before[cur as int] <= cur);
            assert(before[up as int] <= up);
            assert(root_of(before, cur as int) == root_of(before, up as int));
            assert(root_of(before, up as int) == root_of(before, further as int));
            assert forall|y: int| 0 <= y < before.len() implies #[trigger] root_of(
                before.update(cur as int, further),
                y,
            ) == root_of(before, y) by {
                lemma_shortcut(before, cur as int, further, y);
            }
        }
        parent.set(cur, further);
        cur = further;
    }
    cur
}

/// Joins the group of `x` with the group of `y`: the greater of the two
/// roots is pointed at the lesser.
fn union(parent: &mut Vec<usize>, x: usize, y: usize)
    requires
        forest(old(parent)@),
        x < old(parent).len(),
        y < old(parent).len(),
    ensures
        forest(final(parent)@),
        final(parent).len() == old(parent).len(),
        forall|z: int, w: int|
            0 <= z < old(parent).len() && 0 <= w < old(parent).len() ==> ((#[trigger] root_of(
                final(parent)@,
                z,
            ) == #[trigger] root_of(final(parent)@, w)) <==> (root_of(old(parent)@, z) == root_of(
                old(parent)@,
                w,
            ) || (root_of(old(parent)@, z) == root_of(old(parent)@, x as int) && root_of(
                old(parent)@,
                w,
            ) == root_of(old(parent)@, y as int)) || (root_of(old(parent)@, z) == root_of(
                old(parent)@,
                y as int,
            ) && root_of(old(parent)@, w) == root_of(old(parent)@, x as int)))),
{
    let x_root = find(parent, x);
    let y_root = find(parent, y);
    proof {
        lemma_root(old(parent)@, x as int);
        lemma_root(old(parent)@, y as int);
        lemma_root(parent@, x as int);
        lemma_root(parent@, y as int);
    }
    if x_root == y_root {
        return ;
    }
    let low = if x_root < y_root {
        x_root
    } else {
        y_root
    };
    let high = if x_root < y_root {
        y_root
    } else {
        x_root
    };
    let ghost before = parent@;
    proof {
        assert forall|z: int| 0 <= z < before.len() implies #[trigger] root_of(
            before.update(high as int, low),
            z,
        ) == if root_of(before, z) == high {
            low as int
        } else {
            root_of(before, z)
        } by {
            lemma_link(before, low, high as int, z);
        }
    }
    parent.set(high, low);
}

/// Whether every byte of the histogram is zero.
pub fn is_all_zero(h: &Vec<u8>) -> (r: bool)
    ensures
        r == all_zero(h@),
{
    let mut i: usize = 0;
    while i < h.len()
        invariant
            i <= h.len(),
            forall|k: int| 0 <= k < i ==> h@[k] == 0,
        decreases h.len() - i,
    {
        if h[i] != 0 {
            return false;
        }
        i += 1;
    }
    true
}

/// `bag` holds the files at the places that `group` lists, in that order.
pub open spec fn picks(files: Seq<VideoHash>, bag: Seq<&VideoHash>, group: Seq<int>) -> bool {
    &&& bag.len() == group.len()
    &&& forall|m: int|
        0 <= m < group.len() ==> 0 <= #[trigger] group[m] < files.len() && *bag[m] == files[group[m]]
}

/// The root of every place, after all joins.
fn all_roots(parent: &mut Vec<usize>) -> (roots: Vec<usize>)
    requires
        forest(old(parent)@),
    ensures
        roots.len() == old(parent).len(),
        forall|x: int|
            0 <= x < roots.len() ==> #[trigger] roots[x] == root_of(old(parent)@, x) && roots[x] <= x
                && roots[roots[x] as int] == roots[x],
{
    let n = parent.len();
    let mut roots: Vec<usize> = Vec::new();
    let mut i: usize = 0;
    while i < n
        invariant
            i <= n,
            n == parent.len(),
            n == old(parent).len(),
            forest(parent@),
            roots.len() == i,
            forall|y: int|
                0 <= y < n ==> #[trigger] root_of(parent@, y) == root_of(old(parent)@, y),
            forall|x: int| 0 <= x < i ==> #[trigger] roots[x] == root_of(old(parent)@, x),
        decreases n - i,
    {
        let r = find(parent, i);
        roots.push(r);
        i += 1;
    }
    proof {
        assert forall|x: int| 0 <= x < roots.len() implies #[trigger] roots[x] == root_of(
            old(parent)@,
            x,
        ) && roots[x] <= x && roots[roots[x] as int] == roots[x] by {
            lemma_root(old(parent)@, x);
        }
    }
    roots
}

/// Groups the videos that are near each other, directly or through a chain
/// of videos: the groups of two or more under the closure of [`near`], each
/// in the order of `files`, the groups in the order of their first members.
/// A video whose histogram is all zero is in no group.
pub fn find_similar_files<'a>(
    files: &'a Vec<VideoHash>,
    dist: &DistanceMatrix,
    threshold: u16,
) -> (bags: Vec<Vec<&'a VideoHash>>)
    requires
        is_square(matrix_rows(*dist), files.len() as nat),
    ensures
        bags@.len() == similar_groups(
            near(video_views(files@), matrix_rows(*dist), threshold),
            files.len() as nat,
        ).len(),
        forall|k: int|
            0 <= k < bags@.len() ==> picks(
                files@,
                (#[trigger] bags@[k])@,
                similar_groups(
                    near(video_views(files@), matrix_rows(*dist), threshold),
                    files.len() as nat,
                )[k],
            ),
{
    let n = files.len();
    let ghost videos = video_views(files@);
    let ghost rows = matrix_rows(*dist);
    let ghost rel = near(videos, rows, threshold);
    let mut zero: Vec<bool> = Vec::new();
    let mut parent: Vec<usize> = Vec::new();
    let mut i: usize = 0;
    while i < n
        invariant
            i <= n,
            n == files.len(),
            videos == video_views(files@),
            zero.len() == i,
            parent.len() == i,
            forall|k: int| 0 <= k < i ==> #[trigger] zero[k] == all_zero(videos[k].histogram),
            forall|k: int| 0 <= k < i ==> #[trigger] parent[k] == k,
        decreases n - i,
    {
        assert(videos[i as int] == files[i as int]@);
        zero.push(is_all_zero(&files[i].histogram));
        parent.push(i);
        i += 1;
    }
    assert forall|x: int| 0 <= x < n implies #[trigger] root_of(parent@, x) == x by {}
    assert forall|x: int, y: int|
        0 <= x < n && 0 <= y < n && #[trigger] root_of(parent@, x) == #[trigger] root_of(
            parent@,
            y,
        ) implies related(rel, n as int, x, y) by {
        lemma_related_reflexive(rel, n as int, x);
    }
    i = 0;
    while i < n
        invariant
            i <= n,
            n == files.len(),
            videos == video_views(files@),
            rows == matrix_rows(*dist),
            rel == near(videos, rows, threshold),
            is_square(rows, n as nat),
            zero.len() == n,
            parent.len() == n,
            forall|k: int| 0 <= k < n ==> #[trigger] zero[k] == all_zero(videos[k].histogram),
            forest(parent@),
            forall|x: int, y: int|
                0 <= x < n && 0 <= y < n && #[trigger] root_of(parent@, x) == #[trigger] root_of(
                    parent@,
                    y,
                ) ==> related(rel, n as int, x, y),
            forall|x: int, y: int|
                0 <= x < i && 0 <= y < n && #[trigger] holds(rel, x, y) ==> root_of(parent@, x)
                    == root_of(parent@, y),
        decreases n - i,
    {
        let mut j: usize = i;
        while j < n
            invariant
                i < n,
                i <= j <= n,
                n == files.len(),
                videos == video_views(files@),
                rows == matrix_rows(*dist),
                rel == near(videos, rows, threshold),
                is_square(rows, n as nat),
                zero.len() == n,
                parent.len() == n,
                forall|k: int| 0 <= k < n ==> #[trigger] zero[k] == all_zero(videos[k].histogram),
                forest(parent@),
                forall|x: int, y: int|
                    0 <= x < n && 0 <= y < n && #[trigger] root_of(parent@, x)
                        == #[trigger] root_of(parent@, y) ==> related(rel, n as int, x, y),
                forall|x: int, y: int|
                    0 <= x < i && 0 <= y < n && #[trigger] holds(rel, x, y) ==> root_of(parent@, x)
                        == root_of(parent@, y),
                forall|y: int|
                    0 <= y < j && #[trigger] holds(rel, i as int, y) ==> root_of(parent@, i as int)
                        == root_of(parent@, y),
            decreases n - j,
        {
            assert(rows[i as int].len() == n);
            let close = !zero[i] && !zero[j] && matrix_get(dist, i, j) < threshold;
            assert(close == holds(rel, i as int, j as int));
            if close {
                let ghost before = parent@;
                union(&mut parent, i, j);
                proof {
                    lemma_related_includes(rel, n as int, i as int, j as int);
                    lemma_related_symmetric(rel, n as int, i as int, j as int);
                    assert forall|x: int, y: int|
                        0 <= x < n && 0 <= y < n && #[trigger] root_of(parent@, x)
                            == #[trigger] root_of(parent@, y) implies related(
                        rel,
                        n as int,
                        x,
                        y,
                    ) by {
                        if root_of(before, x) == root_of(before, y) {
                        } else if root_of(before, x) == root_of(before, i as int) {
                            assert(root_of(before, y) == root_of(before, j as int));
                            lemma_related_transitive(rel, n as int, x, i as int, j as int);
                            lemma_related_transitive(rel, n as int, x, j as int, y);
                        } else {
                            assert(root_of(before, x) == root_of(before, j as int));
                            assert(root_of(before, y) == root_of(before, i as int));
                            lemma_related_transitive(rel, n as int, x, j as int, i as int);
                            lemma_related_transitive(rel, n as int, x, i as int, y);
                        }
                    }
                    assert forall|x: int, y: int|
                        0 <= x < i && 0 <= y < n && #[trigger] holds(rel, x, y) implies root_of(
                        parent@,
                        x,
                    ) == root_of(parent@, y) by {
                        assert(root_of(before, x) == root_of(before, y));
                    }
                    assert forall|y: int| 0 <= y < j + 1 && #[trigger] holds(
                        rel,
                        i as int,
                        y,
                    ) implies root_of(parent@, i as int) == root_of(parent@, y) by {
                        if y < j {
                            assert(root_of(before, i as int) == root_of(before, y));
                        }
                    }
                }
            }
            j += 1;
        }
        i += 1;
    }
    let ghost joined = parent@;
    let roots = all_roots(&mut parent);
    proof {
        let e = |x: int, y: int| root_of(joined, x) == root_of(joined, y);
        assert(is_equivalence(e, n as int));
        assert(includes(e, rel, n as int)) by {
            assert forall|x: int, y: int|
                0 <= x < n && 0 <= y < n && #[trigger] holds(rel, x, y) implies holds(e, x, y) by {
                assert(root_of(joined, x) == root_of(joined, y));
            }
        }
        assert forall|x: int, y: int| 0 <= x < n && 0 <= y < n implies ((#[trigger] roots[x]
            == #[trigger] roots[y]) <==> related(rel, n as int, x, y)) by {
            if related(rel, n as int, x, y) {
                assert(holds(e, x, y));
            }
            if roots[x] == roots[y] {
                assert(root_of(joined, x) == root_of(joined, y));
            }
        }
    }
    let mut bags: Vec<Vec<&'a VideoHash>> = Vec::new();
    let ghost leads = |r: int| leads_group(rel, n as nat, r);
    let ghost whole = |r: int| group_of(rel, n as nat, r);
    let ghost all = indices(n as nat);
    let mut r: usize = 0;
    assert(all.take(0) =~= Seq::<int>::empty());
    while r < n
        invariant
            r <= n,
            n == files.len(),
            roots.len() == n,
            all == indices(n as nat),
            leads == (|r: int| leads_group(rel, n as nat, r)),
            whole == (|r: int| group_of(rel, n as nat, r)),
            forall|x: int|
                0 <= x < n ==> (#[trigger] roots[x]) <= x && roots[roots[x] as int] == roots[x],
            forall|x: int, y: int|
                0 <= x < n && 0 <= y < n ==> ((#[trigger] roots[x] == #[trigger] roots[y])
                    <==> related(rel, n as int, x, y)),
            bags@.len() == all.take(r as int).filter(leads).len(),
            forall|k: int|
                0 <= k < bags@.len() ==> picks(
                    files@,
                    (#[trigger] bags@[k])@,
                    whole(all.take(r as int).filter(leads)[k]),
                ),
        decreases n - r,
    {
        let ghost member = |i: int| related(rel, n as int, i, r as int);
        let mut bag: Vec<&'a VideoHash> = Vec::new();
        let ghost mut group: Seq<int> = Seq::empty();
        if roots[r] == r {
            let mut i: usize = 0;
            assert(all.take(0) =~= Seq::<int>::empty());
            while i < n
                invariant
                    i <= n,
                    r < n,
                    n == files.len(),
                    roots.len() == n,
                    all == indices(n as nat),
                    member == (|i: int| related(rel, n as int, i, r as int)),
                    forall|x: int, y: int|
                        0 <= x < n && 0 <= y < n ==> ((#[trigger] roots[x] == #[trigger] roots[y])
                            <==> related(rel, n as int, x, y)),
                    group == all.take(i as int).filter(member),
                    picks(files@, bag@, group),
                decreases n - i,
            {
                proof {
                    lemma_filter_step(all, member, i as int);
                    assert(all[i as int] == i);
                    assert(member(i as int) == (roots[i as int] == roots[r as int]));
                }
                if roots[i] == roots[r] {
                    bag.push(&files[i]);
                    proof {
                        group = group.push(i as int);
                    }
                }
                i += 1;
            }
            assert(all.take(n as int) =~= all);
            assert(group == group_of(rel, n as nat, r as int));
        }
        proof {
            lemma_filter_step(all, leads, r as int);
            assert(all[r as int] == r);
            if roots[r as int] == r {
                assert forall|i: int| 0 <= i < r implies !related(rel, n as int, i, r as int) by {
                    if related(rel, n as int, i, r as int) {
                        assert(roots[i] == roots[r as int]);
                    }
                }
            } else {
                let q = roots[r as int] as int;
                assert(roots[q] == roots[r as int]);
                assert(related(rel, n as int, q, r as int));
                assert(!leads(r as int));
            }
        }
        if bag.len() >= 2 {
            assert(leads(r as int));
            let ghost done = all.take(r as int).filter(leads);
            bags.push(bag);
            assert forall|k: int| 0 <= k < bags@.len() implies picks(
                files@,
                (#[trigger] bags@[k])@,
                whole(done.push(r as int)[k]),
            ) by {
                if k < done.len() {
                    assert(done.push(r as int)[k] == done[k]);
                }
            }
        } else {
            assert(!leads(r as int));
        }
        r += 1;
    }
    proof {
        assert(all.take(n as int) =~= all);
        let chosen = all.filter(leads);
        assert(similar_groups(rel, n as nat) =~= chosen.map_values(whole));
    }
    bags
}

/// The first `committed` histograms went into the index in whole batches,
/// and the batch after them was refused with the error `e`.
pub open spec fn hashes_stopped_at(
    before: Seq<StoredRow>,
    records: Seq<VideoRecord>,
    batch: int,
    committed: int,
    after: Seq<StoredRow>,
    e: StoreError,
) -> bool {
    &&& 0 <= committed < records.len()
    &&& committed % batch == 0
    &&& can_attach_all(before, records.take(committed))
    &&& after == with_histograms(before, records.take(committed))
    &&& refuses_histograms(
        after,
        records.subrange(committed, batch_end(committed, batch, records.len() as int)),
        e,
    )
}

/// If all the histograms of a batch can be attached, so can its first `k`.
pub proof fn lemma_can_attach_all_whole(s: Seq<StoredRow>, hashes: Seq<VideoRecord>, k: int)
    requires
        0 <= k <= hashes.len(),
        can_attach_all(s, hashes),
    ensures
        can_attach_all(s, hashes.take(k)),
{
    if !can_attach_all(s, hashes.take(k)) {
        lemma_can_attach_all_prefix(s, hashes, k);
    }
}

/// A copy of the record.
pub fn duplicate_hash(h: &VideoHash) -> (r: VideoHash)
    ensures
        r@ == h@,
{
    VideoHash {
        id: h.id,
        path: h.path.clone(),
        histogram: crate::database::copy_bytes(&h.histogram),
        size: h.size,
    }
}

/// Takes the histograms in the order in which they were delivered and
/// commits them to the index in batches of `commit_batchsize`; what is left
/// at the end is committed as a last, shorter batch. A `None` stands for a
/// video that could not be decoded and is passed over. A batch that the
/// index refuses ends the work: the batches before it stay, the refused
/// batch and what follows do not go in. Returns how many histograms went in.
pub fn update_hashes(
    db: &mut Database,
    hashes: &Vec<Option<VideoHash>>,
    commit_batchsize: usize,
) -> (r: Result<usize, StoreError>)
    requires
        old(db).wf(),
    ensures
        final(db).wf(),
        match r {
            Ok(n) => can_attach_all(old(db)@, delivered(hashes@)) && final(db)@ == with_histograms(
                old(db)@,
                delivered(hashes@),
            ) && n == delivered(hashes@).len(),
            Err(e) => !can_attach_all(old(db)@, delivered(hashes@)) && exists|committed: int|
                #[trigger] hashes_stopped_at(
                    old(db)@,
                    delivered(hashes@),
                    batch_len(commit_batchsize),
                    committed,
                    final(db)@,
                    e,
                ),
        },
{
    let batch: usize = if commit_batchsize == 0 {
        1
    } else {
        commit_batchsize
    };
    let ghost all = delivered(hashes@);
    let mut buffer: Vec<VideoHash> = Vec::new();
    let mut committed: usize = 0;
    let mut i: usize = 0;
    proof {
        assert(hashes@.take(0) =~= Seq::<Option<VideoHash>>::empty());
        assert(delivered(hashes@.take(0)) =~= Seq::<VideoRecord>::empty());
        assert(all.take(0) =~= Seq::<VideoRecord>::empty());
        assert(video_views(buffer@) =~= Seq::<VideoRecord>::empty());
    }
    while i < hashes.len()
        invariant
            i <= hashes.len(),
            batch == batch_len(commit_batchsize),
            batch >= 1,
            all == delivered(hashes@),
            db.wf(),
            (committed as int) % (batch as int) == 0,
            buffer.len() < batch,
            committed + buffer.len() == delivered(hashes@.take(i as int)).len(),
            committed + buffer.len() <= all.len(),
            committed + buffer.len() <= i,
            video_views(buffer@) == all.subrange(committed as int, committed + buffer.len()),
            can_attach_all(old(db)@, all.take(committed as int)),
            db@ == with_histograms(old(db)@, all.take(committed as int)),
        decreases hashes.len() - i,
    {
        proof {
            lemma_delivered_grows(hashes@, i + 1);
            assert(hashes@.take(i + 1).drop_last() =~= hashes@.take(i as int));
            assert(hashes@.take(i + 1).last() == hashes[i as int]);
        }
        match &hashes[i] {
            Some(h) => {
                let ghost shorter = delivered(hashes@.take(i as int));
                let ghost longer = delivered(hashes@.take(i + 1));
                assert(longer == shorter.push(h@));
                assert(all[committed + buffer.len()] == h@) by {
                    assert(longer == all.take(longer.len() as int));
                    assert(longer[shorter.len() as int] == h@);
                }
                let ghost before = video_views(buffer@);
                buffer.push(duplicate_hash(h));
                assert(video_views(buffer@) =~= all.subrange(
                    committed as int,
                    committed + buffer.len(),
                )) by {
                    assert forall|k: int| 0 <= k < buffer.len() implies video_views(buffer@)[k]
                        == all[committed + k] by {
                        if k < buffer.len() - 1 {
                            assert(before[k] == all.subrange(
                                committed as int,
                                committed + buffer.len() - 1,
                            )[k]);
                        }
                    }
                }
            },
            None => {},
        }
        i += 1;
        if buffer.len() >= batch {
            let ghost start = committed as int;
            let ghost end = start + batch;
            proof {
                assert(all.take(start) + all.subrange(start, end) =~= all.take(end));
                lemma_with_histograms_append(old(db)@, all.take(start), all.subrange(start, end));
            }
            match db.insert_many_videohashes(&buffer) {
                Ok(_) => {
                    assert((committed + batch) % (batch as int) == 0) by (nonlinear_arith)
                        requires
                            (committed as int) % (batch as int) == 0,
                            batch >= 1,
                    ;
                    committed = committed + batch;
                    buffer = Vec::new();
                    assert(video_views(buffer@) =~= all.subrange(committed as int, committed as int));
                },
                Err(e) => {
                    proof {
                        assert(batch_end(start, batch as int, all.len() as int) == end);
                        assert(hashes_stopped_at(old(db)@, all, batch as int, start, db@, e));
                        if can_attach_all(old(db)@, all) {
                            lemma_can_attach_all_whole(old(db)@, all, end);
                        }
                    }
                    return Err(e);
                },
            }
        }
    }
    assert(hashes@.take(hashes.len() as int) =~= hashes@);
    let ghost start = committed as int;
    proof {
        assert(all.take(start) + all.subrange(start, all.len() as int) =~= all);
        lemma_with_histograms_append(
            old(db)@,
            all.take(start),
            all.subrange(start, all.len() as int),
        );
    }
    if buffer.len() > 0 {
        match db.insert_many_videohashes(&buffer) {
            Ok(_) => {},
            Err(e) => {
                proof {
                    assert(batch_end(start, batch as int, all.len() as int) == all.len());
                    assert(hashes_stopped_at(old(db)@, all, batch as int, start, db@, e));
                }
                return Err(e);
            },
        }
    } else {
        assert(all.take(start) =~= all);
    }
    Ok(committed + buffer.len())
}

} // verus!
