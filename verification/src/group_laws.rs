//! What holds of the duplicate groups of every analysis.

use vstd::prelude::*;
use crate::census::{counted, crowded, files_of_size, lemma_seen_sizes, size_buckets};
use crate::duplicates::{
    all_duplicates, bucket_duplicates, digest_groups, digests_for, duplicates_upto,
    files_with_digest, hashed, lemma_seen_digests, repeated,
};
use crate::model::{BucketView, EntryView, GroupView, HashedFile};

verus! {

/// Whether `path` is a counted file of `size` bytes.
pub open spec fn is_counted_file(
    entries: Seq<EntryView>,
    min: nat,
    path: Seq<char>,
    size: nat,
) -> bool {
    exists|i: int|
        0 <= i < entries.len() && counted(#[trigger] entries[i], min) && entries[i].path == path
            && entries[i].size == size
}

/// Whether the group holds the files of the bucket that have the group's
/// digest, all of them and in order, and at least two.
pub open spec fn group_of_bucket(
    group: GroupView,
    bucket: BucketView,
    digests: Seq<Option<Seq<char>>>,
) -> bool {
    &&& group.size == bucket.size
    &&& group.files.len() >= 2
    &&& group.files == files_with_digest(hashed(bucket.paths, digests), group.hash)
}

/// Whether the group is that of one of the first `upto` buckets.
pub open spec fn group_of_some_bucket(
    group: GroupView,
    buckets: Seq<BucketView>,
    digests: Seq<Seq<Option<Seq<char>>>>,
    upto: int,
) -> bool {
    exists|b: int|
        0 <= b < upto && b < buckets.len() && group_of_bucket(
            group,
            #[trigger] buckets[b],
            digests_for(digests, b),
        )
}

/// No two groups have the same size and the same digest.
pub open spec fn distinct_keys(groups: Seq<GroupView>) -> bool {
    forall|i: int, j: int|
        0 <= i < j < groups.len() ==> !(groups[i].size == groups[j].size && groups[i].hash
            == groups[j].hash)
}

/// No two buckets are for the same size.
pub open spec fn distinct_sizes(buckets: Seq<BucketView>) -> bool {
    forall|i: int, j: int| 0 <= i < j < buckets.len() ==> buckets[i].size != buckets[j].size
}

/// No two counted files have the same path.
pub open spec fn distinct_paths(entries: Seq<EntryView>, min: nat) -> bool {
    forall|i: int, j: int|
        0 <= i < j < entries.len() && counted(entries[i], min) && counted(entries[j], min)
            ==> entries[i].path != entries[j].path
}

/// Whether one of the files has the path `path` and the digest `hash`.
pub open spec fn has_digest(files: Seq<HashedFile>, hash: Seq<char>, path: Seq<char>) -> bool {
    exists|a: int|
        0 <= a < files.len() && (#[trigger] files[a]).digest == Some(hash) && files[a].path == path
}

/// Every file listed for a digest is a file that has that digest.
proof fn lemma_files_with_digest(files: Seq<HashedFile>, hash: Seq<char>)
    ensures
        forall|k: int|
            0 <= k < files_with_digest(files, hash).len() ==> has_digest(
                files,
                hash,
                #[trigger] files_with_digest(files, hash)[k],
            ),
    decreases files.len(),
{
    if files.len() > 0 {
        let front = files.drop_last();
        lemma_files_with_digest(front, hash);
        let listed = files_with_digest(files, hash);
        assert forall|k: int| 0 <= k < listed.len() implies has_digest(
            files,
            hash,
            #[trigger] listed[k],
        ) by {
            if k < files_with_digest(front, hash).len() {
                assert(has_digest(front, hash, files_with_digest(front, hash)[k]));
                let a = choose|a: int|
                    0 <= a < front.len() && (#[trigger] front[a]).digest == Some(hash)
                        && front[a].path == files_with_digest(front, hash)[k];
                assert(files[a] == front[a]);
            } else {
                assert(files[files.len() - 1] == files.last());
            }
        }
    }
}

/// A path that is listed for two digests stands twice among the files.
proof fn lemma_two_digests_two_places(
    files: Seq<HashedFile>,
    first: Seq<char>,
    second: Seq<char>,
    path: Seq<char>,
)
    requires
        first != second,
        files_with_digest(files, first).contains(path),
        files_with_digest(files, second).contains(path),
    ensures
        exists|a: int, b: int|
            0 <= a < files.len() && 0 <= b < files.len() && a != b && (#[trigger] files[a]).path
                == path && (#[trigger] files[b]).path == path,
{
    lemma_files_with_digest(files, first);
    lemma_files_with_digest(files, second);
    let one = files_with_digest(files, first);
    let two = files_with_digest(files, second);
    let k = choose|k: int| 0 <= k < one.len() && one[k] == path;
    let m = choose|m: int| 0 <= m < two.len() && two[m] == path;
    assert(has_digest(files, first, one[k]));
    assert(has_digest(files, second, two[m]));
    let a = choose|a: int|
        0 <= a < files.len() && (#[trigger] files[a]).digest == Some(first) && files[a].path
            == path;
    let b = choose|b: int|
        0 <= b < files.len() && (#[trigger] files[b]).digest == Some(second) && files[b].path
            == path;
    assert(a != b);
    assert(files[a].path == path && files[b].path == path);
}

/// The groups that are kept are groups that were there, with two files or
/// more, and digests that differed before still differ.
proof fn lemma_repeated(groups: Seq<GroupView>)
    ensures
        forall|k: int|
            0 <= k < repeated(groups).len() ==> groups.contains(#[trigger] repeated(groups)[k])
                && repeated(groups)[k].files.len() >= 2,
        (forall|a: int, b: int| 0 <= a < b < groups.len() ==> groups[a].hash != groups[b].hash)
            ==> (forall|i: int, j: int|
            0 <= i < j < repeated(groups).len() ==> repeated(groups)[i].hash != repeated(
                groups,
            )[j].hash),
    decreases groups.len(),
{
    if groups.len() > 0 {
        let front = groups.drop_last();
        lemma_repeated(front);
        let kept = repeated(groups);
        assert forall|k: int| 0 <= k < kept.len() implies groups.contains(#[trigger] kept[k])
            && kept[k].files.len() >= 2 by {
            if k < repeated(front).len() {
                let g = repeated(front)[k];
                assert(front.contains(g));
                let a = choose|a: int| 0 <= a < front.len() && front[a] == g;
                assert(groups[a] == g);
            } else {
                assert(groups[groups.len() - 1] == kept[k]);
            }
        }
        if forall|a: int, b: int| 0 <= a < b < groups.len() ==> groups[a].hash != groups[b].hash {
            assert forall|a: int, b: int| 0 <= a < b < front.len() implies front[a].hash
                != front[b].hash by {
                assert(front[a] == groups[a] && front[b] == groups[b]);
            }
            assert forall|i: int, j: int| 0 <= i < j < kept.len() implies kept[i].hash
                != kept[j].hash by {
                if j >= repeated(front).len() {
                    let g = repeated(front)[i];
                    assert(front.contains(g));
                    let a = choose|a: int| 0 <= a < front.len() && front[a] == g;
                    assert(groups[a] == g);
                    assert(kept[j] == groups[groups.len() - 1]);
                }
            }
        }
    }
}

/// The duplicate groups of a bucket are groups of that bucket, and their
/// digests differ.
proof fn lemma_bucket_duplicates(bucket: BucketView, digests: Seq<Option<Seq<char>>>)
    ensures
        forall|k: int|
            0 <= k < bucket_duplicates(bucket, digests).len() ==> group_of_bucket(
                #[trigger] bucket_duplicates(bucket, digests)[k],
                bucket,
                digests,
            ),
        forall|i: int, j: int|
            0 <= i < j < bucket_duplicates(bucket, digests).len() ==> bucket_duplicates(
                bucket,
                digests,
            )[i].hash != bucket_duplicates(bucket, digests)[j].hash,
{
    let files = hashed(bucket.paths, digests);
    let groups = digest_groups(bucket.size, files);
    lemma_seen_digests(files);
    lemma_repeated(groups);
    let kept = bucket_duplicates(bucket, digests);
    assert forall|k: int| 0 <= k < kept.len() implies group_of_bucket(
        #[trigger] kept[k],
        bucket,
        digests,
    ) by {
        assert(groups.contains(kept[k]));
        let a = choose|a: int| 0 <= a < groups.len() && groups[a] == kept[k];
    }
}

/// The duplicate groups of buckets of different sizes are groups of one of
/// the buckets each, and no two have the same size and digest.
proof fn lemma_duplicates_upto(
    buckets: Seq<BucketView>,
    digests: Seq<Seq<Option<Seq<char>>>>,
    upto: int,
)
    requires
        0 <= upto <= buckets.len(),
        distinct_sizes(buckets),
    ensures
        forall|k: int|
            0 <= k < duplicates_upto(buckets, digests, upto).len() ==> group_of_some_bucket(
                #[trigger] duplicates_upto(buckets, digests, upto)[k],
                buckets,
                digests,
                upto,
            ),
        distinct_keys(duplicates_upto(buckets, digests, upto)),
    decreases upto,
{
    if upto > 0 {
        lemma_duplicates_upto(buckets, digests, upto - 1);
        let before = duplicates_upto(buckets, digests, upto - 1);
        let bucket = buckets[upto - 1];
        let given = digests_for(digests, upto - 1);
        let added = bucket_duplicates(bucket, given);
        lemma_bucket_duplicates(bucket, given);
        let all = duplicates_upto(buckets, digests, upto);
        assert(all == before + added);
        assert forall|k: int| 0 <= k < all.len() implies group_of_some_bucket(
            #[trigger] all[k],
            buckets,
            digests,
            upto,
        ) by {
            if k < before.len() {
                assert(all[k] == before[k]);
                assert(group_of_some_bucket(before[k], buckets, digests, upto - 1));
                let b = choose|b: int|
                    0 <= b < upto - 1 && b < buckets.len() && group_of_bucket(
                        before[k],
                        #[trigger] buckets[b],
                        digests_for(digests, b),
                    );
                assert(group_of_bucket(all[k], buckets[b], digests_for(digests, b)));
            } else {
                assert(all[k] == added[k - before.len()]);
                assert(group_of_bucket(all[k], buckets[upto - 1], given));
            }
        }
        assert forall|i: int, j: int| 0 <= i < j < all.len() implies !(all[i].size == all[j].size
            && all[i].hash == all[j].hash) by {
            if j < before.len() {
                assert(all[i] == before[i] && all[j] == before[j]);
            } else if i >= before.len() {
                assert(all[i] == added[i - before.len()]);
                assert(all[j] == added[j - before.len()]);
            } else {
                assert(all[i] == before[i]);
                assert(all[j] == added[j - before.len()]);
                assert(group_of_some_bucket(before[i], buckets, digests, upto - 1));
                let b = choose|b: int|
                    0 <= b < upto - 1 && b < buckets.len() && group_of_bucket(
                        before[i],
                        #[trigger] buckets[b],
                        digests_for(digests, b),
                    );
                assert(group_of_bucket(added[j - before.len()], bucket, given));
                assert(buckets[b].size != buckets[upto - 1].size);
            }
        }
    }
}

/// The crowded buckets are buckets that were there, and sizes that differed
/// before still differ.
pub proof fn lemma_crowded(buckets: Seq<BucketView>)
    ensures
        forall|k: int|
            0 <= k < crowded(buckets).len() ==> buckets.contains(#[trigger] crowded(buckets)[k]),
        distinct_sizes(buckets) ==> distinct_sizes(crowded(buckets)),
    decreases buckets.len(),
{
    if buckets.len() > 0 {
        let front = buckets.drop_last();
        lemma_crowded(front);
        let kept = crowded(buckets);
        assert forall|k: int| 0 <= k < kept.len() implies buckets.contains(#[trigger] kept[k]) by {
            if k < crowded(front).len() {
                let g = crowded(front)[k];
                assert(front.contains(g));
                let a = choose|a: int| 0 <= a < front.len() && front[a] == g;
                assert(buckets[a] == g);
            } else {
                assert(buckets[buckets.len() - 1] == kept[k]);
            }
        }
        if distinct_sizes(buckets) {
            assert forall|a: int, b: int| 0 <= a < b < front.len() implies front[a].size
                != front[b].size by {
                assert(front[a] == buckets[a] && front[b] == buckets[b]);
            }
            assert forall|i: int, j: int| 0 <= i < j < kept.len() implies kept[i].size
                != kept[j].size by {
                if j >= crowded(front).len() {
                    let g = crowded(front)[i];
                    assert(front.contains(g));
                    let a = choose|a: int| 0 <= a < front.len() && front[a] == g;
                    assert(buckets[a] == g);
                    assert(kept[j] == buckets[buckets.len() - 1]);
                }
            }
        }
    }
}

/// Every file listed for a size is a counted file of that size; where no
/// two counted files have the same path, no path is listed twice.
proof fn lemma_files_of_size(entries: Seq<EntryView>, min: nat, size: nat)
    ensures
        forall|k: int|
            0 <= k < files_of_size(entries, min, size).len() ==> is_counted_file(
                entries,
                min,
                #[trigger] files_of_size(entries, min, size)[k],
                size,
            ),
        distinct_paths(entries, min) ==> files_of_size(entries, min, size).no_duplicates(),
    decreases entries.len(),
{
    if entries.len() > 0 {
        let front = entries.drop_last();
        let last = entries.last();
        lemma_files_of_size(front, min, size);
        let listed = files_of_size(entries, min, size);
        let before = files_of_size(front, min, size);
        assert forall|k: int| 0 <= k < listed.len() implies is_counted_file(
            entries,
            min,
            #[trigger] listed[k],
            size,
        ) by {
            if k < before.len() {
                assert(is_counted_file(front, min, before[k], size));
                let i = choose|i: int|
                    0 <= i < front.len() && counted(#[trigger] front[i], min) && front[i].path
                        == before[k] && front[i].size == size;
                assert(entries[i] == front[i]);
            } else {
                assert(entries[entries.len() - 1] == last);
            }
        }
        if distinct_paths(entries, min) {
            assert forall|i: int, j: int|
                0 <= i < j < front.len() && counted(front[i], min) && counted(
                    front[j],
                    min,
                ) implies front[i].path != front[j].path by {
                assert(front[i] == entries[i] && front[j] == entries[j]);
            }
            assert forall|i: int, j: int|
                0 <= i < listed.len() && 0 <= j < listed.len() && i != j implies listed[i]
                != listed[j] by {
                if i >= before.len() || j >= before.len() {
                    let k = if i < j { i } else { j };
                    assert(is_counted_file(front, min, before[k], size));
                    let a = choose|a: int|
                        0 <= a < front.len() && counted(#[trigger] front[a], min) && front[a].path
                            == before[k] && front[a].size == size;
                    assert(entries[a] == front[a]);
                    assert(entries[entries.len() - 1] == last);
                } else {
                    assert(listed[i] == before[i] && listed[j] == before[j]);
                }
            }
        }
    }
}

/// The size buckets are for different sizes, and each holds the counted
/// files of its size.
pub proof fn lemma_size_buckets(entries: Seq<EntryView>, min: nat)
    ensures
        distinct_sizes(size_buckets(entries, min)),
        forall|b: int|
            0 <= b < size_buckets(entries, min).len() ==> (#[trigger] size_buckets(
                entries,
                min,
            )[b]).paths == files_of_size(entries, min, size_buckets(entries, min)[b].size),
{
    lemma_seen_sizes(entries, min);
}

/// Every duplicate group has at least two members; its members are counted
/// files of the group's size, and they are the files of one crowded bucket
/// for which the group's digest was given; and no two groups have the same
/// size and digest.
pub proof fn duplicate_groups_are_sound(
    entries: Seq<EntryView>,
    min: nat,
    digests: Seq<Seq<Option<Seq<char>>>>,
)
    ensures
        forall|k: int|
            0 <= k < all_duplicates(crowded(size_buckets(entries, min)), digests).len() ==> (
            #[trigger] all_duplicates(crowded(size_buckets(entries, min)), digests)[k]).files.len()
                >= 2,
        forall|k: int|
            0 <= k < all_duplicates(crowded(size_buckets(entries, min)), digests).len()
                ==> group_of_some_bucket(
                #[trigger] all_duplicates(crowded(size_buckets(entries, min)), digests)[k],
                crowded(size_buckets(entries, min)),
                digests,
                crowded(size_buckets(entries, min)).len() as int,
            ),
        forall|k: int, m: int|
            0 <= k < all_duplicates(crowded(size_buckets(entries, min)), digests).len() && 0 <= m
                < all_duplicates(crowded(size_buckets(entries, min)), digests)[k].files.len()
                ==> is_counted_file(
                entries,
                min,
                #[trigger] all_duplicates(crowded(size_buckets(entries, min)), digests)[k].files[m],
                all_duplicates(crowded(size_buckets(entries, min)), digests)[k].size,
            ),
        distinct_keys(all_duplicates(crowded(size_buckets(entries, min)), digests)),
{
    let buckets = size_buckets(entries, min);
    let chosen = crowded(buckets);
    let groups = all_duplicates(chosen, digests);
    lemma_size_buckets(entries, min);
    lemma_crowded(buckets);
    lemma_duplicates_upto(chosen, digests, chosen.len() as int);
    assert forall|k: int| 0 <= k < groups.len() implies (#[trigger] groups[k]).files.len() >= 2 by {
        assert(group_of_some_bucket(groups[k], chosen, digests, chosen.len() as int));
    }
    assert forall|k: int, m: int|
        0 <= k < groups.len() && 0 <= m < groups[k].files.len() implies is_counted_file(
        entries,
        min,
        #[trigger] groups[k].files[m],
        groups[k].size,
    ) by {
        lemma_member_is_counted(entries, min, digests, groups[k], m);
    }
}

/// A member of a group of some crowded bucket is a counted file of the
/// group's size, and it stands in the bucket of that size.
proof fn lemma_member_is_counted(
    entries: Seq<EntryView>,
    min: nat,
    digests: Seq<Seq<Option<Seq<char>>>>,
    group: GroupView,
    m: int,
)
    requires
        group_of_some_bucket(
            group,
            crowded(size_buckets(entries, min)),
            digests,
            crowded(size_buckets(entries, min)).len() as int,
        ),
        0 <= m < group.files.len(),
    ensures
        is_counted_file(entries, min, group.files[m], group.size),
        files_of_size(entries, min, group.size).contains(group.files[m]),
{
    let buckets = size_buckets(entries, min);
    let chosen = crowded(buckets);
    lemma_size_buckets(entries, min);
    lemma_crowded(buckets);
    let b = choose|b: int|
        0 <= b < chosen.len() && b < chosen.len() && group_of_bucket(
            group,
            #[trigger] chosen[b],
            digests_for(digests, b),
        );
    let bucket = chosen[b];
    assert(buckets.contains(bucket));
    let at = choose|at: int| 0 <= at < buckets.len() && buckets[at] == bucket;
    assert(bucket.paths == files_of_size(entries, min, bucket.size));
    let files = hashed(bucket.paths, digests_for(digests, b));
    lemma_files_with_digest(files, group.hash);
    assert(has_digest(files, group.hash, files_with_digest(files, group.hash)[m]));
    let a = choose|a: int|
        0 <= a < files.len() && (#[trigger] files[a]).digest == Some(group.hash) && files[a].path
            == group.files[m];
    assert(files[a].path == bucket.paths[a]);
    lemma_files_of_size(entries, min, bucket.size);
    assert(files_of_size(entries, min, bucket.size)[a] == group.files[m]);
}

/// Whether some path is a member of both groups.
pub open spec fn share_a_member(first: GroupView, second: GroupView) -> bool {
    exists|path: Seq<char>| #[trigger] first.files.contains(path) && second.files.contains(path)
}

/// Where no two counted files have the same path, no two duplicate groups
/// share a member.
pub proof fn duplicate_groups_share_no_path(
    entries: Seq<EntryView>,
    min: nat,
    digests: Seq<Seq<Option<Seq<char>>>>,
)
    requires
        distinct_paths(entries, min),
    ensures
        forall|x: int, y: int|
            0 <= x < y < all_duplicates(crowded(size_buckets(entries, min)), digests).len()
                ==> !share_a_member(
                #[trigger] all_duplicates(crowded(size_buckets(entries, min)), digests)[x],
                #[trigger] all_duplicates(crowded(size_buckets(entries, min)), digests)[y],
            ),
{
    let buckets = size_buckets(entries, min);
    let chosen = crowded(buckets);
    let groups = all_duplicates(chosen, digests);
    lemma_size_buckets(entries, min);
    lemma_crowded(buckets);
    lemma_duplicates_upto(chosen, digests, chosen.len() as int);
    assert forall|x: int, y: int| 0 <= x < y < groups.len() implies !share_a_member(
        #[trigger] groups[x],
        #[trigger] groups[y],
    ) by {
        let one = groups[x];
        let two = groups[y];
        if share_a_member(one, two) {
            let path = choose|path: Seq<char>| #[trigger]
                one.files.contains(path) && two.files.contains(path);
            let k = choose|k: int| 0 <= k < one.files.len() && one.files[k] == path;
            let m = choose|m: int| 0 <= m < two.files.len() && two.files[m] == path;
            assert(group_of_some_bucket(one, chosen, digests, chosen.len() as int));
            assert(group_of_some_bucket(two, chosen, digests, chosen.len() as int));
            lemma_member_is_counted(entries, min, digests, one, k);
            lemma_member_is_counted(entries, min, digests, two, m);
            let i = choose|i: int|
                0 <= i < entries.len() && counted(#[trigger] entries[i], min) && entries[i].path
                    == path && entries[i].size == one.size;
            let j = choose|j: int|
                0 <= j < entries.len() && counted(#[trigger] entries[j], min) && entries[j].path
                    == path && entries[j].size == two.size;
            assert(i == j);
            assert(one.size == two.size);
            assert(one.hash != two.hash);
            let b = choose|b: int|
                0 <= b < chosen.len() && b < chosen.len() && group_of_bucket(
                    one,
                    #[trigger] chosen[b],
                    digests_for(digests, b),
                );
            let c = choose|c: int|
                0 <= c < chosen.len() && c < chosen.len() && group_of_bucket(
                    two,
                    #[trigger] chosen[c],
                    digests_for(digests, c),
                );
            assert(b == c);
            let bucket = chosen[b];
            let files = hashed(bucket.paths, digests_for(digests, b));
            lemma_two_digests_two_places(files, one.hash, two.hash, path);
            let (p, q) = choose|p: int, q: int|
                0 <= p < files.len() && 0 <= q < files.len() && p != q && (#[trigger] files[p]).path
                    == path && (#[trigger] files[q]).path == path;
            assert(buckets.contains(bucket));
            let at = choose|at: int| 0 <= at < buckets.len() && buckets[at] == bucket;
            lemma_files_of_size(entries, min, bucket.size);
            assert(bucket.paths[p] == path && bucket.paths[q] == path);
        }
    }
}

} // verus!
