//! Exact duplicates: files grouped by equal digest.
use vstd::prelude::*;
use std::collections::HashMap;
pub use crate::database::{Database, FileDigest};
use crate::database::{
    FileRecord, StoreError, StoredRow, copy_bytes, file_views, files_of, has_id,
    lemma_position_unique, position_of,
};
use crate::sequences::{indices, lemma_filter_step, lemma_filter_twice, lemma_filtered_from};
use crate::ranking::{ascending, descending_order, is_rearrangement, ranks_descending, sort_ids};

verus! {

broadcast use vstd::std_specs::hash::group_hash_axioms;

/// A file as it is shown in a result: without its digest.
#[derive(Debug, PartialEq)]
pub struct FileEntry {
    pub id: i64,
    pub path: String,
    pub size: u64,
}

/// The ids of the files that have the digest, in the order of the files.
pub open spec fn ids_with_digest(files: Seq<FileRecord>, digest: Seq<u8>) -> Seq<int> {
    files.filter(|f: FileRecord| f.digest == digest).map_values(|f: FileRecord| f.id)
}

/// The numbers as mathematical integers.
pub open spec fn int_ids(ids: Seq<i64>) -> Seq<int> {
    ids.map_values(|x: i64| x as int)
}

/// No earlier file has the digest of the file at `i`.
pub open spec fn first_with_digest(files: Seq<FileRecord>, i: int) -> bool {
    forall|k: int| 0 <= k < i ==> (#[trigger] files[k]).digest != files[i].digest
}

/// The file at `i` is the first of two or more with its digest.
pub open spec fn leads_duplicates(files: Seq<FileRecord>, i: int) -> bool {
    first_with_digest(files, i) && ids_with_digest(files, files[i].digest).len() >= 2
}

/// The places of the files that are the first of two or more with their
/// digest, ascending.
pub open spec fn duplicate_leaders(files: Seq<FileRecord>) -> Seq<int> {
    indices(files.len()).filter(|i: int| leads_duplicates(files, i))
}

/// The number that the first four bytes of a digest spell, the first byte
/// weighing most.
pub open spec fn prefix_key(digest: Seq<u8>) -> int {
    digest[0] * 16777216 + digest[1] * 65536 + digest[2] * 256 + digest[3]
}

/// The ids of the files that share one digest, and where to look next among
/// the digests that begin with the same four bytes.
struct FileDigestBag {
    id_list: Vec<i64>,
    digest: Vec<u8>,
    next: Option<usize>,
}

/// For each bag, the bag that follows it in its chain.
spec fn links_of(bags: Seq<FileDigestBag>) -> Seq<Option<usize>> {
    Seq::new(bags.len(), |b: int| bags[b].next)
}

/// The chain that starts at `link` passes through the bag `b`.
spec fn in_chain(links: Seq<Option<usize>>, link: Option<usize>, b: int) -> bool
    decreases
        (match link {
            Some(k) => k + 1,
            None => 0,
        }),
{
    match link {
        None => false,
        Some(k) => k == b || (k < links.len() && (match links[k as int] {
            Some(m) => m < k,
            None => true,
        }) && in_chain(links, links[k as int], b)),
    }
}

/// A new bag at the end changes no chain among the bags before it.
proof fn lemma_chain_push(
    links: Seq<Option<usize>>,
    added: Option<usize>,
    link: Option<usize>,
    b: int,
)
    requires
        0 <= b < links.len(),
        match link {
            Some(k) => k < links.len(),
            None => true,
        },
        forall|k: int|
            0 <= k < links.len() ==> match #[trigger] links[k] {
                Some(m) => m < k,
                None => true,
            },
    ensures
        in_chain(links.push(added), link, b) == in_chain(links, link, b),
    decreases
        (match link {
            Some(k) => k + 1,
            None => 0,
        }),
{
    match link {
        None => {},
        Some(k) => {
            assert(links.push(added)[k as int] == links[k as int]);
            if k != b {
                lemma_chain_push(links, added, links[k as int], b);
            }
        },
    }
}

/// Whether the two byte vectors are equal.
pub fn same_bytes(a: &Vec<u8>, b: &Vec<u8>) -> (r: bool)
    ensures
        r == (a@ == b@),
{
    if a.len() != b.len() {
        return false;
    }
    let mut i: usize = 0;
    while i < a.len()
        invariant
            i <= a.len(),
            a.len() == b.len(),
            forall|k: int| 0 <= k < i ==> a@[k] == b@[k],
        decreases a.len() - i,
    {
        if a[i] != b[i] {
            return false;
        }
        i += 1;
    }
    assert(a@ =~= b@);
    true
}

/// The number that the first four bytes of the digest spell.
fn prefix_of(digest: &Vec<u8>) -> (r: u32)
    requires
        digest.len() >= 4,
    ensures
        r == prefix_key(digest@),
{
    let a: u32 = digest[0] as u32;
    let b: u32 = digest[1] as u32;
    let c: u32 = digest[2] as u32;
    let d: u32 = digest[3] as u32;
    a * 16777216 + b * 65536 + c * 256 + d
}

/// What holds of the bags after the first `done` files have been taken in.
spec fn ingested(
    files: Seq<FileRecord>,
    done: int,
    bags: Seq<FileDigestBag>,
    firsts: Seq<int>,
    heads: Map<u32, usize>,
) -> bool {
    &&& firsts == indices(files.len()).take(done).filter(|i: int| first_with_digest(files, i))
    &&& bags.len() == firsts.len()
    &&& forall|b: int|
        0 <= b < bags.len() ==> 0 <= #[trigger] firsts[b] < done && bags[b].digest@
            == files[firsts[b]].digest
    &&& forall|b: int, c: int| 0 <= b < c < firsts.len() ==> #[trigger] firsts[b] < #[trigger] firsts[c]
    &&& forall|b: int| 0 <= b < firsts.len() ==> first_with_digest(files, #[trigger] firsts[b])
    &&& forall|b: int|
        0 <= b < bags.len() ==> int_ids((#[trigger] bags[b]).id_list@) == ids_with_digest(
            files.take(done),
            bags[b].digest@,
        )
    &&& forall|k: int|
        0 <= k < done ==> exists|b: int|
            0 <= b < bags.len() && (#[trigger] bags[b]).digest@ == (#[trigger] files[k]).digest
    &&& forall|b: int|
        0 <= b < bags.len() ==> match (#[trigger] bags[b]).next {
            Some(m) => m < b,
            None => true,
        }
    &&& forall|p: u32| #[trigger] heads.contains_key(p) ==> heads[p] < bags.len()
    &&& forall|b: int|
        0 <= b < bags.len() ==> heads.contains_key(prefix_key((#[trigger] bags[b]).digest@) as u32)
            && in_chain(
            links_of(bags),
            Some(heads[prefix_key(bags[b].digest@) as u32]),
            b,
        )
}

/// The bag that holds the digest, if there is one.
fn find_bag(bags: &Vec<FileDigestBag>, heads: &HashMap<u32, usize>, digest: &Vec<u8>) -> (r: Option<
    usize,
>)
    requires
        digest.len() >= 4,
        forall|p: u32| #[trigger] heads@.contains_key(p) ==> heads@[p] < bags.len(),
        forall|b: int|
            0 <= b < bags.len() ==> match (#[trigger] bags[b]).next {
                Some(m) => m < b,
                None => true,
            },
        forall|b: int|
            0 <= b < bags.len() ==> heads@.contains_key(
                prefix_key((#[trigger] bags[b]).digest@) as u32,
            ) && in_chain(links_of(bags@), Some(heads@[prefix_key(bags[b].digest@) as u32]), b),
        forall|b: int| 0 <= b < bags.len() ==> (#[trigger] bags[b]).digest@.len() >= 4,
    ensures
        match r {
            Some(b) => b < bags.len() && bags[b as int].digest@ == digest@,
            None => forall|b: int| 0 <= b < bags.len() ==> (#[trigger] bags[b]).digest@ != digest@,
        },
{
    let key = prefix_of(digest);
    let mut cur: Option<usize> = match heads.get(&key) {
        Some(h) => Some(*h),
        None => None,
    };
    assert forall|b: int| 0 <= b < bags.len() && (#[trigger] bags[b]).digest@ == digest@ implies in_chain(
        links_of(bags@),
        cur,
        b,
    ) by {
        assert(prefix_key(bags[b].digest@) as u32 == key);
    }
    loop
        invariant
            match cur {
                Some(k) => k < bags.len(),
                None => true,
            },
            forall|b: int|
                0 <= b < bags.len() && (#[trigger] bags[b]).digest@ == digest@ ==> in_chain(
                    links_of(bags@),
                    cur,
                    b,
                ),
            forall|b: int|
                0 <= b < bags.len() ==> match (#[trigger] bags[b]).next {
                    Some(m) => m < b,
                    None => true,
                },
        decreases
            (match cur {
                Some(k) => k + 1,
                None => 0,
            }),
    {
        match cur {
            None => {
                return None;
            },
            Some(k) => {
                if same_bytes(&bags[k].digest, digest) {
                    return Some(k);
                }
                assert(links_of(bags@)[k as int] == bags[k as int].next);
                cur = bags[k].next;
            },
        }
    }
}

/// Taking one file more appends its id to the ids of its digest and leaves
/// the ids of every other digest as they were.
proof fn lemma_ids_step(files: Seq<FileRecord>, i: int, digest: Seq<u8>)
    requires
        0 <= i < files.len(),
    ensures
        ids_with_digest(files.take(i + 1), digest) == if files[i].digest == digest {
            ids_with_digest(files.take(i), digest).push(files[i].id)
        } else {
            ids_with_digest(files.take(i), digest)
        },
{
    let keep = |f: FileRecord| f.digest == digest;
    let id_of = |f: FileRecord| f.id;
    let longer = files.take(i + 1);
    let shorter = files.take(i);
    reveal(Seq::filter);
    assert(longer.drop_last() =~= shorter);
    assert(longer.last() == files[i]);
    if files[i].digest == digest {
        assert(keep(files[i]));
        assert(longer.filter(keep) == shorter.filter(keep).push(files[i]));
        assert(shorter.filter(keep).push(files[i]).map_values(id_of) =~= shorter.filter(
            keep,
        ).map_values(id_of).push(files[i].id));
    } else {
        assert(!keep(files[i]));
        assert(longer.filter(keep) == shorter.filter(keep));
    }
}

/// Where no file has the digest, the digest has no ids.
proof fn lemma_ids_none(files: Seq<FileRecord>, digest: Seq<u8>)
    requires
        forall|k: int| 0 <= k < files.len() ==> (#[trigger] files[k]).digest != digest,
    ensures
        ids_with_digest(files, digest).len() == 0,
    decreases files.len(),
{
    let keep = |f: FileRecord| f.digest == digest;
    reveal(Seq::filter);
    if files.len() > 0 {
        assert(files[files.len() - 1].digest != digest);
        assert forall|k: int| 0 <= k < files.drop_last().len() implies (
        #[trigger] files.drop_last()[k]).digest != digest by {
            assert(files.drop_last()[k] == files[k]);
        }
        lemma_ids_none(files.drop_last(), digest);
        assert(files.filter(keep) == files.drop_last().filter(keep));
    }
}

/// No two bags hold the same digest.
proof fn lemma_distinct_digests(
    files: Seq<FileRecord>,
    done: int,
    bags: Seq<FileDigestBag>,
    firsts: Seq<int>,
    heads: Map<u32, usize>,
    b: int,
    c: int,
)
    requires
        0 <= done <= files.len(),
        ingested(files, done, bags, firsts, heads),
        0 <= b < bags.len(),
        0 <= c < bags.len(),
        bags[b].digest@ == bags[c].digest@,
    ensures
        b == c,
{
    if b != c {
        let lo = if b < c {
            b
        } else {
            c
        };
        let hi = if b < c {
            c
        } else {
            b
        };
        assert(firsts[lo] < firsts[hi]);
        assert(first_with_digest(files, firsts[hi]));
        assert(files[firsts[lo]].digest != files[firsts[hi]].digest);
    }
}

/// `lists` are the groups of duplicates among `files`: one list for each
/// digest that two or more files have, in the order in which those digests
/// first occur, each holding the ids of the files with that digest,
/// ascending.
pub open spec fn lists_duplicates(files: Seq<FileRecord>, lists: Seq<Seq<int>>, k: int) -> bool {
    &&& forall|i: int, j: int| 0 <= i < j < lists[k].len() ==> lists[k][i] <= lists[k][j]
    &&& is_rearrangement(
        ids_with_digest(files, files[duplicate_leaders(files)[k]].digest),
        lists[k],
    )
}

/// The id lists as sequences of mathematical integers.
pub open spec fn id_lists(lists: Seq<Vec<i64>>) -> Seq<Seq<int>> {
    Seq::new(lists.len(), |k: int| int_ids(lists[k]@))
}

/// Groups the files by digest and returns the ids of each group of two or
/// more, ascending. The groups come in the order in which their digests
/// first occur among the files. Every digest must have four bytes or more.
pub fn find_similarities(files: Vec<FileDigest>) -> (r: Vec<Vec<i64>>)
    requires
        forall|i: int| 0 <= i < files.len() ==> (#[trigger] files[i]).digest@.len() >= 4,
    ensures
        r@.len() == duplicate_leaders(file_views(files@)).len(),
        forall|k: int|
            0 <= k < r@.len() ==> #[trigger] lists_duplicates(file_views(files@), id_lists(r@), k),
{
    let n = files.len();
    let ghost fv = file_views(files@);
    let ghost all = indices(n as nat);
    let ghost is_first = |i: int| first_with_digest(fv, i);
    let mut bags: Vec<FileDigestBag> = Vec::new();
    let mut heads: HashMap<u32, usize> = HashMap::new();
    let ghost mut firsts: Seq<int> = Seq::empty();
    let mut i: usize = 0;
    proof {
        reveal(Seq::filter);
        assert(all.take(0) =~= Seq::<int>::empty());
        assert(firsts =~= all.take(0).filter(is_first));
    }
    while i < n
        invariant
            i <= n,
            n == files.len(),
            fv == file_views(files@),
            all == indices(n as nat),
            is_first == (|i: int| first_with_digest(fv, i)),
            forall|k: int| 0 <= k < files.len() ==> (#[trigger] files[k]).digest@.len() >= 4,
            ingested(fv, i as int, bags@, firsts, heads@),
        decreases n - i,
    {
        let ghost old_bags = bags@;
        let ghost old_heads = heads@;
        let ghost digest = files[i as int].digest@;
        assert(fv[i as int] == files[i as int]@);
        assert forall|b: int| 0 <= b < bags.len() implies (#[trigger] bags[b]).digest@.len()
            >= 4 by {
            assert(fv[firsts[b]] == files[firsts[b]]@);
        }
        proof {
            lemma_filter_step(all, is_first, i as int);
            assert(all[i as int] == i);
        }
        match find_bag(&bags, &heads, &files[i].digest) {
            Some(b) => {
                bags[b].id_list.push(files[i].id);
                proof {
                    assert(!is_first(i as int)) by {
                        assert(fv[firsts[b as int]].digest == digest);
                    }
                    assert(links_of(bags@) =~= links_of(old_bags));
                    assert forall|c: int| 0 <= c < bags.len() implies int_ids(
                        (#[trigger] bags[c]).id_list@,
                    ) == ids_with_digest(fv.take(i + 1), bags[c].digest@) by {
                        lemma_ids_step(fv, i as int, old_bags[c].digest@);
                        if c != b {
                            assert(old_bags[c].digest@ != digest) by {
                                if old_bags[c].digest@ == digest {
                                    lemma_distinct_digests(
                                        fv,
                                        i as int,
                                        old_bags,
                                        firsts,
                                        old_heads,
                                        b as int,
                                        c,
                                    );
                                }
                            }
                            assert(bags[c] == old_bags[c]);
                        } else {
                            assert(int_ids(bags[c].id_list@) =~= int_ids(old_bags[c].id_list@).push(
                                files[i as int].id as int,
                            ));
                        }
                    }
                    assert forall|k: int| 0 <= k < i + 1 implies exists|c: int|
                        0 <= c < bags.len() && (#[trigger] bags[c]).digest@ == (
                        #[trigger] fv[k]).digest by {
                        if k < i {
                            let c = choose|c: int|
                                0 <= c < old_bags.len() && (#[trigger] old_bags[c]).digest@
                                    == fv[k].digest;
                            assert(bags[c].digest@ == fv[k].digest);
                        } else {
                            assert(bags[b as int].digest@ == fv[k].digest);
                        }
                    }
                    assert forall|c: int| 0 <= c < bags.len() implies match (
                    #[trigger] bags[c]).next {
                        Some(m) => m < c,
                        None => true,
                    } by {
                        assert(bags[c].next == old_bags[c].next);
                    }
                    assert forall|c: int| 0 <= c < bags.len() implies heads@.contains_key(
                        prefix_key((#[trigger] bags[c]).digest@) as u32,
                    ) && in_chain(
                        links_of(bags@),
                        Some(heads@[prefix_key(bags[c].digest@) as u32]),
                        c,
                    ) by {
                        assert(bags[c].digest@ == old_bags[c].digest@);
                    }
                    assert forall|c: int| 0 <= c < bags.len() implies 0 <= #[trigger] firsts[c] < i
                        + 1 && bags[c].digest@ == fv[firsts[c]].digest by {
                        assert(bags[c].digest@ == old_bags[c].digest@);
                    }
                }
            },
            None => {
                let key = prefix_of(&files[i].digest);
                let next: Option<usize> = match heads.get(&key) {
                    Some(h) => Some(*h),
                    None => None,
                };
                let mut id_list: Vec<i64> = Vec::new();
                id_list.push(files[i].id);
                let place = bags.len();
                bags.push(
                    FileDigestBag { id_list: id_list, digest: copy_bytes(&files[i].digest), next: next },
                );
                heads.insert(key, place);
                proof {
                    assert(is_first(i as int)) by {
                        assert forall|k: int| 0 <= k < i implies (#[trigger] fv[k]).digest
                            != digest by {
                            let c = choose|c: int|
                                0 <= c < old_bags.len() && (#[trigger] old_bags[c]).digest@
                                    == fv[k].digest;
                            assert(old_bags[c].digest@ != digest);
                        }
                    }
                    firsts = firsts.push(i as int);
                    assert(links_of(bags@) =~= links_of(old_bags).push(next));
                    assert forall|c: int| 0 <= c < bags.len() implies int_ids(
                        (#[trigger] bags[c]).id_list@,
                    ) == ids_with_digest(fv.take(i + 1), bags[c].digest@) by {
                        lemma_ids_step(fv, i as int, bags[c].digest@);
                        if c < place {
                            assert(bags[c] == old_bags[c]);
                        } else {
                            assert forall|k: int| 0 <= k < fv.take(i as int).len() implies (
                            #[trigger] fv.take(i as int)[k]).digest != digest by {
                                assert(fv.take(i as int)[k] == fv[k]);
                            }
                            lemma_ids_none(fv.take(i as int), digest);
                            assert(ids_with_digest(fv.take(i as int), digest) =~= Seq::<
                                int,
                            >::empty());
                            assert(int_ids(bags[c].id_list@) =~= Seq::<int>::empty().push(
                                files[i as int].id as int,
                            ));
                        }
                    }
                    assert forall|k: int| 0 <= k < i + 1 implies exists|c: int|
                        0 <= c < bags.len() && (#[trigger] bags[c]).digest@ == (
                        #[trigger] fv[k]).digest by {
                        if k < i {
                            let c = choose|c: int|
                                0 <= c < old_bags.len() && (#[trigger] old_bags[c]).digest@
                                    == fv[k].digest;
                            assert(bags[c] == old_bags[c]);
                        } else {
                            assert(bags[place as int].digest@ == fv[k].digest);
                        }
                    }
                    assert forall|c: int| 0 <= c < bags.len() implies match (
                    #[trigger] bags[c]).next {
                        Some(m) => m < c,
                        None => true,
                    } by {
                        if c < place {
                            assert(bags[c] == old_bags[c]);
                        }
                    }
                    assert forall|c: int| 0 <= c < bags.len() implies heads@.contains_key(
                        prefix_key((#[trigger] bags[c]).digest@) as u32,
                    ) && in_chain(
                        links_of(bags@),
                        Some(heads@[prefix_key(bags[c].digest@) as u32]),
                        c,
                    ) by {
                        if c < place {
                            assert(bags[c] == old_bags[c]);
                            let p = prefix_key(old_bags[c].digest@) as u32;
                            assert forall|k: int| 0 <= k < old_bags.len() implies match (
                            #[trigger] links_of(old_bags)[k]) {
                                Some(m) => m < k,
                                None => true,
                            } by {
                                assert(links_of(old_bags)[k] == old_bags[k].next);
                            }
                            if p == key {
                                lemma_chain_push(links_of(old_bags), next, next, c);
                                assert(links_of(bags@)[place as int] == next);
                            } else {
                                lemma_chain_push(links_of(old_bags), next, Some(old_heads[p]), c);
                            }
                        }
                    }
                    assert forall|c: int| 0 <= c < bags.len() implies 0 <= #[trigger] firsts[c] < i
                        + 1 && bags[c].digest@ == fv[firsts[c]].digest by {
                        if c < place {
                            assert(bags[c] == old_bags[c]);
                        }
                    }
                }
            },
        }
        i += 1;
    }
    assert(all.take(n as int) =~= all);
    assert(fv.take(n as int) =~= fv);
    let ghost enough = |i: int| ids_with_digest(fv, fv[i].digest).len() >= 2;
    proof {
        lemma_filter_twice(all, is_first, enough);
        assert(duplicate_leaders(fv) =~= firsts.filter(enough)) by {
            assert((|i: int| is_first(i) && enough(i)) =~= (|i: int| leads_duplicates(fv, i)));
        }
    }
    let mut result: Vec<Vec<i64>> = Vec::new();
    let mut b: usize = 0;
    proof {
        reveal(Seq::filter);
        assert(firsts.take(0) =~= Seq::<int>::empty());
    }
    while b < bags.len()
        invariant
            b <= bags.len(),
            bags.len() == firsts.len(),
            enough == (|i: int| ids_with_digest(fv, fv[i].digest).len() >= 2),
            forall|c: int|
                0 <= c < bags.len() ==> 0 <= #[trigger] firsts[c] < fv.len() && bags[c].digest@
                    == fv[firsts[c]].digest,
            forall|c: int|
                0 <= c < bags.len() ==> int_ids((#[trigger] bags[c]).id_list@) == ids_with_digest(
                    fv,
                    bags[c].digest@,
                ),
            result@.len() == firsts.take(b as int).filter(enough).len(),
            forall|k: int|
                0 <= k < result@.len() ==> ascending((#[trigger] result@[k])@) && is_rearrangement(
                    ids_with_digest(fv, fv[firsts.take(b as int).filter(enough)[k]].digest),
                    int_ids(result@[k]@),
                ),
        decreases bags.len() - b,
    {
        proof {
            lemma_filter_step(firsts, enough, b as int);
            assert(int_ids(bags[b as int].id_list@).len() == bags[b as int].id_list@.len());
        }
        if bags[b].id_list.len() >= 2 {
            let mut ids: Vec<i64> = Vec::new();
            let mut m: usize = 0;
            while m < bags[b].id_list.len()
                invariant
                    b < bags.len(),
                    m <= bags[b as int].id_list.len(),
                    ids@ == bags[b as int].id_list@.take(m as int),
                decreases bags[b as int].id_list.len() - m,
            {
                ids.push(bags[b].id_list[m]);
                m += 1;
                assert(ids@ =~= bags[b as int].id_list@.take(m as int));
            }
            assert(bags[b as int].id_list@.take(m as int) =~= bags[b as int].id_list@);
            let ghost unsorted = ids@;
            sort_ids(&mut ids);
            proof {
                lemma_rearranged_ids(unsorted, ids@);
            }
            let ghost done = firsts.take(b as int).filter(enough);
            result.push(ids);
            assert forall|k: int| 0 <= k < result@.len() implies ascending((#[trigger] result@[k])@)
                && is_rearrangement(
                ids_with_digest(fv, fv[done.push(firsts[b as int])[k]].digest),
                int_ids(result@[k]@),
            ) by {
                if k < done.len() {
                    assert(done.push(firsts[b as int])[k] == done[k]);
                }
            }
        }
        b += 1;
    }
    assert(firsts.take(bags.len() as int) =~= firsts);
    assert forall|k: int| 0 <= k < result@.len() implies #[trigger] lists_duplicates(
        fv,
        id_lists(result@),
        k,
    ) by {
        assert(id_lists(result@)[k] == int_ids(result@[k]@));
        assert(ascending(result@[k]@));
        assert forall|i: int, j: int| 0 <= i < j < int_ids(result@[k]@).len() implies int_ids(
            result@[k]@,
        )[i] <= int_ids(result@[k]@)[j] by {
            assert(result@[k]@[i] <= result@[k]@[j]);
        }
    }
    result
}

/// What is a rearrangement as numbers is one as mathematical integers.
proof fn lemma_rearranged_ids(a: Seq<i64>, b: Seq<i64>)
    requires
        is_rearrangement(a, b),
    ensures
        is_rearrangement(int_ids(a), int_ids(b)),
{
    let from = choose|from: Seq<int>|
        crate::ranking::is_permutation(from, a.len() as int) && forall|i: int|
            0 <= i < a.len() ==> #[trigger] b[i] == a[from[i]];
    assert forall|i: int| 0 <= i < int_ids(a).len() implies #[trigger] int_ids(b)[i] == int_ids(
        a,
    )[from[i]] by {
        assert(b[i] == a[from[i]]);
    }
    assert(int_ids(a).len() == a.len());
    assert(int_ids(b).len() == b.len());
    assert(crate::ranking::is_permutation(from, int_ids(a).len() as int));
}

/// What a [`FileEntry`] stands for in contracts.
pub struct EntryRecord {
    pub id: int,
    pub path: Seq<char>,
    pub size: nat,
}

impl View for FileEntry {
    type V = EntryRecord;

    open spec fn view(&self) -> EntryRecord {
        EntryRecord { id: self.id as int, path: self.path@, size: self.size as nat }
    }
}

/// The entry that shows the file.
pub open spec fn entry_of(file: FileRecord) -> EntryRecord {
    EntryRecord { id: file.id, path: file.path, size: file.size }
}

/// Every id of every list is the id of a row.
pub open spec fn all_known(s: Seq<StoredRow>, lists: Seq<Seq<int>>) -> bool {
    forall|k: int, m: int|
        0 <= k < lists.len() && 0 <= m < lists[k].len() ==> has_id(s, #[trigger] lists[k][m])
}

/// `bag` shows the rows that `ids` name, in that order.
pub open spec fn shows(s: Seq<StoredRow>, ids: Seq<int>, bag: Seq<FileEntry>) -> bool {
    &&& bag.len() == ids.len()
    &&& forall|m: int|
        0 <= m < ids.len() ==> has_id(s, #[trigger] ids[m]) && bag[m]@ == entry_of(
            s[position_of(s, ids[m])].file,
        )
}

/// For each list, the size of the file that its first id names.
pub open spec fn first_sizes(s: Seq<StoredRow>, lists: Seq<Seq<int>>) -> Seq<u64> {
    Seq::new(lists.len(), |k: int| s[position_of(s, lists[k][0])].file.size as u64)
}

/// `bags` show the lists, the list whose first file is largest first; of two
/// lists whose first files have one size, the later list comes first.
pub open spec fn shows_by_size(
    s: Seq<StoredRow>,
    lists: Seq<Seq<int>>,
    bags: Seq<Vec<FileEntry>>,
) -> bool {
    exists|order: Seq<usize>|
        {
            &&& #[trigger] ranks_descending(first_sizes(s, lists), order)
            &&& bags.len() == lists.len()
            &&& forall|k: int|
                0 <= k < bags.len() ==> shows(s, lists[order[k] as int], (#[trigger] bags[k])@)
        }
}

/// The entry for the file with the id.
pub fn entry_for(db: &Database, id: i64) -> (r: Result<FileEntry, StoreError>)
    requires
        db.wf(),
    ensures
        match r {
            Ok(e) => has_id(db@, id as int) && e@ == entry_of(db@[position_of(db@, id as int)].file),
            Err(e) => !has_id(db@, id as int) && e == StoreError::NotFound,
        },
{
    match db.lookup_filedigest(id) {
        Ok(f) => {
            proof {
                let i = choose|i: int| 0 <= i < db@.len() && (#[trigger] db@[i]).file == f@;
                lemma_position_unique(db@, i);
            }
            Ok(FileEntry { id: f.id, path: f.path, size: f.size })
        },
        Err(e) => Err(e),
    }
}

/// The entries for the files that the ids name, in that order. Refused if
/// an id names no row.
pub fn entries_for(db: &Database, ids: &Vec<i64>) -> (r: Result<Vec<FileEntry>, StoreError>)
    requires
        db.wf(),
    ensures
        match r {
            Ok(bag) => shows(db@, int_ids(ids@), bag@),
            Err(e) => e == StoreError::NotFound && exists|m: int|
                0 <= m < ids.len() && !has_id(db@, #[trigger] int_ids(ids@)[m]),
        },
{
    let mut bag: Vec<FileEntry> = Vec::new();
    let mut m: usize = 0;
    while m < ids.len()
        invariant
            m <= ids.len(),
            db.wf(),
            shows(db@, int_ids(ids@).take(m as int), bag@),
        decreases ids.len() - m,
    {
        let ghost before = bag@;
        assert(int_ids(ids@)[m as int] == ids[m as int]);
        match entry_for(db, ids[m]) {
            Ok(e) => {
                bag.push(e);
            },
            Err(e) => {
                return Err(e);
            },
        }
        m += 1;
        assert(shows(db@, int_ids(ids@).take(m as int), bag@)) by {
            let now = int_ids(ids@).take(m as int);
            let earlier = int_ids(ids@).take(m - 1);
            assert forall|j: int| 0 <= j < now.len() implies has_id(db@, #[trigger] now[j])
                && bag@[j]@ == entry_of(db@[position_of(db@, now[j])].file) by {
                if j < m - 1 {
                    assert(bag@[j] == before[j]);
                    assert(now[j] == earlier[j]);
                }
            }
        }
    }
    assert(int_ids(ids@).take(ids.len() as int) =~= int_ids(ids@));
    Ok(bag)
}

/// Turns lists of ids into bags of entries and puts the bag whose first
/// file is largest first. Refused if an id names no row. No list may be
/// empty.
pub fn into_resultbag(db: &Database, similar_files: &Vec<Vec<i64>>) -> (r: Result<
    Vec<Vec<FileEntry>>,
    StoreError,
>)
    requires
        db.wf(),
        forall|k: int| 0 <= k < similar_files.len() ==> (#[trigger] similar_files[k]).len() >= 1,
    ensures
        match r {
            Ok(bags) => all_known(db@, id_lists(similar_files@)) && shows_by_size(
                db@,
                id_lists(similar_files@),
                bags@,
            ),
            Err(e) => !all_known(db@, id_lists(similar_files@)) && e == StoreError::NotFound,
        },
{
    let n = similar_files.len();
    let ghost lists = id_lists(similar_files@);
    let mut keys: Vec<u64> = Vec::new();
    let mut k: usize = 0;
    while k < n
        invariant
            k <= n,
            n == similar_files.len(),
            db.wf(),
            lists == id_lists(similar_files@),
            forall|j: int| 0 <= j < similar_files.len() ==> (#[trigger] similar_files[j]).len() >= 1,
            keys.len() == k,
            forall|j: int| 0 <= j < k ==> #[trigger] keys[j] == first_sizes(db@, lists)[j],
        decreases n - k,
    {
        assert(lists[k as int][0] == similar_files[k as int][0]);
        match entry_for(db, similar_files[k][0]) {
            Ok(e) => {
                keys.push(e.size);
            },
            Err(e) => {
                return Err(e);
            },
        }
        k += 1;
    }
    assert(keys@ =~= first_sizes(db@, lists));
    let order = descending_order(&keys);
    let ghost places = order@.map_values(|p: usize| p as int);
    let mut bags: Vec<Vec<FileEntry>> = Vec::new();
    k = 0;
    while k < n
        invariant
            k <= n,
            n == similar_files.len(),
            db.wf(),
            lists == id_lists(similar_files@),
            order.len() == n,
            places == order@.map_values(|p: usize| p as int),
            ranks_descending(first_sizes(db@, lists), order@),
            keys@ == first_sizes(db@, lists),
            bags.len() == k,
            forall|j: int|
                0 <= j < k ==> shows(db@, lists[order[j] as int], (#[trigger] bags[j])@),
        decreases n - k,
    {
        assert(places[k as int] == order[k as int]);
        let from = order[k];
        let ghost ids = lists[from as int];
        assert(ids == int_ids(similar_files[from as int]@));
        let bag = match entries_for(db, &similar_files[from]) {
            Ok(bag) => bag,
            Err(e) => {
                assert(!all_known(db@, lists)) by {
                    let m = choose|m: int| 0 <= m < ids.len() && !has_id(db@, #[trigger] ids[m]);
                    assert(!has_id(db@, lists[from as int][m]));
                }
                return Err(e);
            },
        };
        bags.push(bag);
        k += 1;
    }
    proof {
        assert forall|a: int, m: int| 0 <= a < lists.len() && 0 <= m < lists[a].len() implies has_id(
            db@,
            #[trigger] lists[a][m],
        ) by {
            assert(crate::ranking::names(places, a));
            let j = choose|j: int| 0 <= j < n && #[trigger] places[j] == a;
            assert(order[j] == a);
            assert(shows(db@, lists[order[j] as int], bags[j]@));
            let e = bags[j]@[m];
            assert(has_id(db@, lists[a][m]) && e@ == entry_of(
                db@[position_of(db@, lists[a][m])].file,
            ));
        }
    }
    Ok(bags)
}

/// Each id among the ids of a digest is the id of some file.
pub proof fn lemma_ids_are_known(files: Seq<FileRecord>, digest: Seq<u8>, m: int)
    requires
        0 <= m < ids_with_digest(files, digest).len(),
    ensures
        exists|i: int|
            0 <= i < files.len() && (#[trigger] files[i]).id == ids_with_digest(files, digest)[m]
                && files[i].digest == digest,
{
    let keep = |f: FileRecord| f.digest == digest;
    lemma_filtered_from(files, keep, m);
    let k = choose|k: int| 0 <= k < files.len() && #[trigger] files[k] == files.filter(keep)[m];
    assert(files[k].id == ids_with_digest(files, digest)[m]);
}

/// Among files with distinct ids, a file's id is among the ids of a digest
/// if and only if the file has that digest: two files are in one group
/// exactly when their digests are equal, byte for byte.
pub proof fn lemma_same_bag_iff_equal_digest(files: Seq<FileRecord>, i: int, j: int)
    requires
        0 <= i < files.len(),
        0 <= j < files.len(),
        forall|a: int, b: int|
            0 <= a < files.len() && 0 <= b < files.len() && a != b ==> (#[trigger] files[a]).id != (
            #[trigger] files[b]).id,
    ensures
        ids_with_digest(files, files[i].digest).contains(files[j].id) <==> files[i].digest
            == files[j].digest,
{
    let digest = files[i].digest;
    let keep = |f: FileRecord| f.digest == digest;
    let ids = ids_with_digest(files, digest);
    if files[j].digest == digest {
        files.lemma_filter_contains(keep, j);
        let m = choose|m: int| 0 <= m < files.filter(keep).len() && files.filter(keep)[m] == files[j];
        assert(ids[m] == files[j].id);
    }
    if ids.contains(files[j].id) {
        let m = choose|m: int| 0 <= m < ids.len() && ids[m] == files[j].id;
        lemma_ids_are_known(files, digest, m);
        let k = choose|k: int|
            0 <= k < files.len() && (#[trigger] files[k]).id == ids[m] && files[k].digest == digest;
        assert(k == j);
    }
}

/// Every row holds a digest of four bytes or more.
pub open spec fn digests_have_prefix(s: Seq<StoredRow>) -> bool {
    forall|i: int| 0 <= i < s.len() ==> (#[trigger] s[i]).file.digest.len() >= 4
}

/// Whether every row holds a digest of four bytes or more.
pub fn has_digest_prefixes(db: &Database) -> (r: bool)
    ensures
        r == digests_have_prefix(db@),
{
    let files = db.get_all_filedigests();
    assert(file_views(files@).len() == files_of(db@).len());
    let mut i: usize = 0;
    while i < files.len()
        invariant
            i <= files.len(),
            files.len() == db@.len(),
            file_views(files@) == files_of(db@),
            forall|k: int| 0 <= k < i ==> (#[trigger] db@[k]).file.digest.len() >= 4,
        decreases files.len() - i,
    {
        assert(file_views(files@)[i as int] == files[i as int]@);
        assert(files_of(db@)[i as int] == db@[i as int].file);
        if files[i].digest.len() < 4 {
            return false;
        }
        i += 1;
    }
    true
}

/// `lists` are the groups of duplicates among the files of the index, and
/// `bags` show them, the bag whose first file is largest first.
pub open spec fn shows_duplicates(
    s: Seq<StoredRow>,
    lists: Seq<Seq<int>>,
    bags: Seq<Vec<FileEntry>>,
) -> bool {
    &&& lists.len() == duplicate_leaders(files_of(s)).len()
    &&& forall|k: int| 0 <= k < lists.len() ==> #[trigger] lists_duplicates(files_of(s), lists, k)
    &&& shows_by_size(s, lists, bags)
}

/// The groups of files with equal digests, each group in ascending order of
/// id, the group whose first file is largest first.
pub fn get_list_of_similar_files(db: &Database) -> (r: Result<Vec<Vec<FileEntry>>, StoreError>)
    requires
        db.wf(),
        digests_have_prefix(db@),
    ensures
        match r {
            Ok(bags) => exists|lists: Seq<Seq<int>>| #[trigger] shows_duplicates(db@, lists, bags@),
            Err(_) => false,
        },
{
    let files = db.get_all_filedigests();
    let ghost fv = files_of(db@);
    assert forall|i: int| 0 <= i < files.len() implies (#[trigger] files[i]).digest@.len() >= 4 by {
        assert(file_views(files@).len() == files.len());
        assert(fv.len() == db@.len());
        assert(file_views(files@)[i] == files[i]@);
        assert(fv[i] == db@[i].file);
    }
    let similar_files = find_similarities(files);
    let ghost lists = id_lists(similar_files@);
    proof {
        assert forall|k: int| 0 <= k < lists.len() implies lists[k].len() >= 2 && forall|m: int|
            0 <= m < lists[k].len() ==> has_id(db@, #[trigger] lists[k][m]) by {
            assert(lists_duplicates(fv, lists, k));
            let leader = duplicate_leaders(fv)[k];
            lemma_filtered_from(indices(fv.len()), |i: int| leads_duplicates(fv, i), k);
            let ids = ids_with_digest(fv, fv[leader].digest);
            let from = choose|from: Seq<int>|
                crate::ranking::is_permutation(from, ids.len() as int) && forall|i: int|
                    0 <= i < ids.len() ==> #[trigger] lists[k][i] == ids[from[i]];
            assert forall|m: int| 0 <= m < lists[k].len() implies has_id(
                db@,
                #[trigger] lists[k][m],
            ) by {
                lemma_ids_are_known(fv, fv[leader].digest, from[m]);
                let i = choose|i: int|
                    0 <= i < fv.len() && (#[trigger] fv[i]).id == ids[from[m]] && fv[i].digest
                        == fv[leader].digest;
                assert(db@[i].file.id == lists[k][m]);
            }
        }
        assert forall|k: int| 0 <= k < similar_files.len() implies (
        #[trigger] similar_files[k]).len() >= 1 by {
            assert(lists[k].len() >= 2);
        }
    }
    match into_resultbag(db, &similar_files) {
        Ok(bags) => {
            assert(shows_duplicates(db@, lists, bags@));
            Ok(bags)
        },
        Err(e) => {
            assert(false);
            Err(e)
        },
    }
}

/// The sizes of all files but the first of a bag, added up.
pub open spec fn spare_in_bag(bag: Seq<FileEntry>) -> nat
    decreases bag.len(),
{
    if bag.len() <= 1 {
        0
    } else {
        spare_in_bag(bag.drop_last()) + bag.last().size as nat
    }
}

/// The sizes of all files but the first of each bag, added up: what would be
/// saved if only the first file of each bag were kept.
pub open spec fn spare_size(bags: Seq<Vec<FileEntry>>) -> nat
    decreases bags.len(),
{
    if bags.len() == 0 {
        0
    } else {
        spare_size(bags.drop_last()) + spare_in_bag(bags.last()@)
    }
}

/// One gibibyte.
pub const GIBIBYTE: u64 = 1073741824;

/// Whether a file of this size is listed by name in the console report:
/// one that is larger than a gibibyte.
pub fn is_listed(size: u64) -> (r: bool)
    ensures
        r == (size > GIBIBYTE),
{
    size > GIBIBYTE
}

/// The sizes of all files of the bag but the first, added up, or `None` if
/// the sum does not fit.
pub fn spare_size_of_bag(bag: &Vec<FileEntry>) -> (r: Option<u64>)
    ensures
        match r {
            Some(spare) => spare == spare_in_bag(bag@),
            None => spare_in_bag(bag@) > u64::MAX,
        },
{
    if bag.len() == 0 {
        return Some(0);
    }
    let mut spare: u64 = 0;
    let mut i: usize = 1;
    while i < bag.len()
        invariant
            1 <= i <= bag.len(),
            spare == spare_in_bag(bag@.take(i as int)),
        decreases bag.len() - i,
    {
        assert(bag@.take(i + 1).drop_last() =~= bag@.take(i as int));
        assert(bag@.take(i + 1).last() == bag@[i as int]);
        match spare.checked_add(bag[i].size) {
            Some(sum) => {
                spare = sum;
            },
            None => {
                proof {
                    lemma_spare_in_bag_grows(bag@, i + 1);
                }
                return None;
            },
        }
        i += 1;
    }
    assert(bag@.take(bag.len() as int) =~= bag@);
    Some(spare)
}

/// What would be saved if only the first file of each bag were kept, or
/// `None` if the sum does not fit.
pub fn total_saved_size(result: &Vec<Vec<FileEntry>>) -> (r: Option<u64>)
    ensures
        match r {
            Some(total) => total == spare_size(result@),
            None => spare_size(result@) > u64::MAX,
        },
{
    let mut total: u64 = 0;
    let mut k: usize = 0;
    assert(result@.take(0) =~= Seq::<Vec<FileEntry>>::empty());
    while k < result.len()
        invariant
            k <= result.len(),
            total == spare_size(result@.take(k as int)),
        decreases result.len() - k,
    {
        assert(result@.take(k + 1).drop_last() =~= result@.take(k as int));
        assert(result@.take(k + 1).last() == result@[k as int]);
        proof {
            lemma_spare_size_grows(result@, k + 1);
        }
        let spare = match spare_size_of_bag(&result[k]) {
            Some(spare) => spare,
            None => {
                return None;
            },
        };
        total = match total.checked_add(spare) {
            Some(sum) => sum,
            None => {
                return None;
            },
        };
        k += 1;
    }
    assert(result@.take(result.len() as int) =~= result@);
    Some(total)
}

/// The spare size of a bag is no less than that of its first entries.
pub proof fn lemma_spare_in_bag_grows(bag: Seq<FileEntry>, i: int)
    requires
        0 <= i <= bag.len(),
    ensures
        spare_in_bag(bag.take(i)) <= spare_in_bag(bag),
    decreases bag.len() - i,
{
    if i == bag.len() {
        assert(bag.take(i) =~= bag);
    } else {
        assert(bag.take(i + 1).drop_last() =~= bag.take(i));
        lemma_spare_in_bag_grows(bag, i + 1);
    }
}

/// The spare size of the bags is no less than that of the first of them.
pub proof fn lemma_spare_size_grows(bags: Seq<Vec<FileEntry>>, k: int)
    requires
        0 <= k <= bags.len(),
    ensures
        spare_size(bags.take(k)) <= spare_size(bags),
    decreases bags.len() - k,
{
    if k == bags.len() {
        assert(bags.take(k) =~= bags);
    } else {
        assert(bags.take(k + 1).drop_last() =~= bags.take(k));
        lemma_spare_size_grows(bags, k + 1);
    }
}

} // verus!
