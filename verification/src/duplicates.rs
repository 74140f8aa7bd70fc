//! Duplicate detection: files of one size are grouped by the digest of their
//! content, and the groups of two or more are reported.

use vstd::prelude::*;
use crate::census::{add_fresh, lemma_add_fresh};
use crate::keyindex::{key_of_text, text_key, KeyIndex};
use crate::model::{
    digest_texts, texts, views, BucketView, DuplicateGroup, GroupView, HashedFile, SizeBucket,
};

verus! {

/// The digest given for the file at `index`; none where the list is too short.
pub open spec fn digest_at(digests: Seq<Option<Seq<char>>>, index: int) -> Option<Seq<char>> {
    if 0 <= index < digests.len() {
        digests[index]
    } else {
        None
    }
}

/// The files of a bucket, each with the digest given for it.
pub open spec fn hashed(paths: Seq<Seq<char>>, digests: Seq<Option<Seq<char>>>) -> Seq<
    HashedFile,
> {
    Seq::new(paths.len(), |i: int| HashedFile { path: paths[i], digest: digest_at(digests, i) })
}

/// The paths of the files whose digest is `hash`, in order.
pub open spec fn files_with_digest(files: Seq<HashedFile>, hash: Seq<char>) -> Seq<Seq<char>>
    decreases files.len(),
{
    if files.len() == 0 {
        Seq::empty()
    } else if files.last().digest == Some(hash) {
        files_with_digest(files.drop_last(), hash).push(files.last().path)
    } else {
        files_with_digest(files.drop_last(), hash)
    }
}

/// The digests that occur, each once, in the order in which they first occur.
pub open spec fn seen_digests(files: Seq<HashedFile>) -> Seq<Seq<char>>
    decreases files.len(),
{
    if files.len() == 0 {
        Seq::empty()
    } else {
        match files.last().digest {
            Some(hash) => add_fresh(seen_digests(files.drop_last()), seq![hash]),
            None => seen_digests(files.drop_last()),
        }
    }
}

/// One group for each digest that occurs among files of `size` bytes.
pub open spec fn digest_groups(size: nat, files: Seq<HashedFile>) -> Seq<GroupView> {
    Seq::new(
        seen_digests(files).len(),
        |i: int|
            GroupView {
                files: files_with_digest(files, seen_digests(files)[i]),
                size,
                hash: seen_digests(files)[i],
            },
    )
}

/// The groups with two or more files, in order.
pub open spec fn repeated(groups: Seq<GroupView>) -> Seq<GroupView>
    decreases groups.len(),
{
    if groups.len() == 0 {
        Seq::empty()
    } else if groups.last().files.len() > 1 {
        repeated(groups.drop_last()).push(groups.last())
    } else {
        repeated(groups.drop_last())
    }
}

/// The duplicate groups of one bucket, given a digest for each of its files.
pub open spec fn bucket_duplicates(
    bucket: BucketView,
    digests: Seq<Option<Seq<char>>>,
) -> Seq<GroupView> {
    repeated(digest_groups(bucket.size, hashed(bucket.paths, digests)))
}

/// The digests given for the bucket at `index`; none where the list is too short.
pub open spec fn digests_for(digests: Seq<Seq<Option<Seq<char>>>>, index: int) -> Seq<
    Option<Seq<char>>,
> {
    if 0 <= index < digests.len() {
        digests[index]
    } else {
        Seq::empty()
    }
}

/// The duplicate groups of the first `upto` buckets, bucket after bucket.
pub open spec fn duplicates_upto(
    buckets: Seq<BucketView>,
    digests: Seq<Seq<Option<Seq<char>>>>,
    upto: int,
) -> Seq<GroupView>
    decreases upto,
{
    if upto <= 0 {
        Seq::empty()
    } else {
        duplicates_upto(buckets, digests, upto - 1) + bucket_duplicates(
            buckets[upto - 1],
            digests_for(digests, upto - 1),
        )
    }
}

/// The duplicate groups of all buckets, bucket after bucket.
pub open spec fn all_duplicates(
    buckets: Seq<BucketView>,
    digests: Seq<Seq<Option<Seq<char>>>>,
) -> Seq<GroupView> {
    duplicates_upto(buckets, digests, buckets.len() as int)
}

/// The views of the digest lists of several buckets.
pub open spec fn digest_lists(digests: Seq<Vec<Option<String>>>) -> Seq<Seq<Option<Seq<char>>>> {
    Seq::new(digests.len(), |i: int| digest_texts(digests[i]@))
}

/// The seen digests are exactly the digests that occur, each once.
pub proof fn lemma_seen_digests(files: Seq<HashedFile>)
    ensures
        seen_digests(files).no_duplicates(),
        forall|hash: Seq<char>| #[trigger]
            seen_digests(files).contains(hash) <==> exists|i: int|
                0 <= i < files.len() && (#[trigger] files[i]).digest == Some(hash),
        forall|hash: Seq<char>|
            !seen_digests(files).contains(hash) ==> #[trigger] files_with_digest(files, hash)
                == Seq::<Seq<char>>::empty(),
    decreases files.len(),
{
    let seen = seen_digests(files);
    if files.len() == 0 {
        assert forall|hash: Seq<char>| !(#[trigger] seen.contains(hash)) by {
            if seen.contains(hash) {
                let i = choose|i: int| 0 <= i < seen.len() && seen[i] == hash;
            }
        }
    } else {
        let front = files.drop_last();
        let last = files.last();
        let before = seen_digests(front);
        lemma_seen_digests(front);
        let one = match last.digest {
            Some(h) => seq![h],
            None => Seq::empty(),
        };
        if last.digest is Some {
            lemma_add_fresh(before, one);
        }
        assert forall|hash: Seq<char>| #[trigger]
            seen.contains(hash) <==> exists|i: int|
                0 <= i < files.len() && (#[trigger] files[i]).digest == Some(hash) by {
            if seen.contains(hash) {
                if before.contains(hash) {
                    let i = choose|i: int|
                        0 <= i < front.len() && (#[trigger] front[i]).digest == Some(hash);
                    assert(files[i] == front[i]);
                } else {
                    assert(one.contains(hash));
                    let k = choose|k: int| 0 <= k < one.len() && one[k] == hash;
                    assert(files[files.len() - 1] == last);
                }
            }
            if exists|i: int| 0 <= i < files.len() && (#[trigger] files[i]).digest == Some(hash) {
                let i = choose|i: int|
                    0 <= i < files.len() && (#[trigger] files[i]).digest == Some(hash);
                if i < front.len() {
                    assert(front[i] == files[i]);
                    assert(before.contains(hash));
                } else {
                    assert(one[0] == hash);
                    assert(one.contains(hash));
                }
            }
        }
        assert forall|hash: Seq<char>| !seen.contains(hash) implies #[trigger] files_with_digest(
            files,
            hash,
        ) == Seq::<Seq<char>>::empty() by {
            if last.digest == Some(hash) {
                assert(one[0] == hash);
                assert(one.contains(hash));
            }
            if before.contains(hash) {
                let j = choose|j: int| 0 <= j < before.len() && before[j] == hash;
                if last.digest is Some {
                    assert(seen.take(before.len() as int)[j] == hash);
                    assert(seen[j] == hash);
                }
            }
            assert(files_with_digest(front, hash) == Seq::<Seq<char>>::empty());
        }
    }
}

/// The groups of one bucket, and an index by which the group of a digest is
/// found without walking the list.
struct GroupList {
    groups: Vec<DuplicateGroup>,
    index: KeyIndex,
}

impl GroupList {
    /// The groups, in the order in which they came in.
    closed spec fn items(&self) -> Seq<DuplicateGroup> {
        self.groups@
    }

    /// The index holds the key of the digest of every group, in order.
    closed spec fn wf(&self) -> bool {
        &&& self.index.wf()
        &&& self.index.keys() =~= Seq::new(
            self.groups.len() as nat,
            |i: int| text_key(self.groups[i]@.hash),
        )
    }

    fn new() -> (list: Self)
        ensures
            list.wf(),
            list.items() == Seq::<DuplicateGroup>::empty(),
    {
        GroupList { groups: Vec::new(), index: KeyIndex::new() }
    }

    /// The groups as a list.
    fn into_vec(self) -> (groups: Vec<DuplicateGroup>)
        ensures
            groups@ == self.items(),
    {
        self.groups
    }

    /// The place of the group for `hash`, if there is one.
    fn find(&self, hash: &String) -> (found: Option<usize>)
        requires
            self.wf(),
        ensures
            match found {
                Some(i) => i < self.items().len() && self.items()[i as int]@.hash == hash@,
                None => forall|j: int|
                    0 <= j < self.items().len() ==> (#[trigger] self.items()[j])@.hash != hash@,
            },
    {
        let key = key_of_text(hash.as_str());
        let mut current = self.index.first(key);
        loop
            invariant
                self.wf(),
                current matches Some(at) ==> at < self.groups.len(),
                forall|i: int|
                    0 <= i < self.groups.len() && (#[trigger] self.groups[i])@.hash == hash@
                        ==> self.index.reaches(current, i),
            decreases
                    match current {
                        Some(at) => at + 1,
                        None => 0,
                    },
        {
            match current {
                None => {
                    proof {
                        assert forall|j: int| 0 <= j < self.groups.len() implies (
                        #[trigger] self.groups[j])@.hash != hash@ by {
                            self.index.lemma_nothing_from_none(j);
                        }
                    }
                    return None;
                },
                Some(at) => {
                    if self.groups[at].has_hash(hash) {
                        return Some(at);
                    }
                    current = self.index.after(at);
                },
            }
        }
    }

    /// Adds one more file to the group at `at`.
    fn add_to(&mut self, at: usize, path: String)
        requires
            old(self).wf(),
            at < old(self).items().len(),
        ensures
            final(self).wf(),
            final(self).items().len() == old(self).items().len(),
            forall|j: int|
                0 <= j < old(self).items().len() && j != at ==> final(self).items()[j] == old(
                    self,
                ).items()[j],
            final(self).items()[at as int]@ == (GroupView {
                files: old(self).items()[at as int]@.files.push(path@),
                size: old(self).items()[at as int]@.size,
                hash: old(self).items()[at as int]@.hash,
            }),
    {
        self.groups[at].add(path);
    }

    /// Takes in one more group.
    fn push(&mut self, group: DuplicateGroup)
        requires
            old(self).wf(),
        ensures
            final(self).wf(),
            final(self).items() == old(self).items().push(group),
    {
        self.index.add(key_of_text(group.hash()));
        self.groups.push(group);
    }
}

/// Puts one file into the group of its digest.
fn add_to_group(
    groups: &mut GroupList,
    path: String,
    size: u64,
    hash: String,
    Ghost(front): Ghost<Seq<HashedFile>>,
)
    requires
        old(groups).wf(),
        views(old(groups).items()) == digest_groups(size as nat, front),
    ensures
        final(groups).wf(),
        views(final(groups).items()) == digest_groups(
            size as nat,
            front.push(HashedFile { path: path@, digest: Some(hash@) }),
        ),
{
    let ghost file = HashedFile { path: path@, digest: Some(hash@) };
    let ghost before = seen_digests(front);
    let ghost all = front.push(file);
    let ghost one = seq![hash@];
    let ghost earlier = groups.items();
    proof {
        lemma_seen_digests(front);
        assert(all.drop_last() =~= front);
        assert(all.last() == file);
        assert(one.drop_last() =~= Seq::<Seq<char>>::empty());
        assert(one.last() == hash@);
        assert(add_fresh(before, one.drop_last()) == before);
        assert(earlier.len() == views(earlier).len());
        assert forall|i: int| 0 <= i < earlier.len() implies (#[trigger] earlier[i])@
            == digest_groups(size as nat, front)[i] by {
            assert(views(earlier)[i] == digest_groups(size as nat, front)[i]);
        }
    }
    match groups.find(&hash) {
        Some(i) => {
            proof {
                assert(before[i as int] == hash@);
                assert(before.contains(hash@));
                assert(seen_digests(all) == before);
            }
            groups.add_to(i, path);
            proof {
                let now = groups.items();
                assert forall|j: int| 0 <= j < now.len() implies (#[trigger] now[j])@
                    == digest_groups(size as nat, all)[j] by {
                    if j != i {
                        assert(now[j] == earlier[j]);
                        assert(before[j] != before[i as int]);
                    }
                }
                assert(views(now) =~= digest_groups(size as nat, all));
            }
        },
        None => {
            proof {
                assert(!before.contains(hash@)) by {
                    if before.contains(hash@) {
                        let j = choose|j: int| 0 <= j < before.len() && before[j] == hash@;
                        assert(earlier[j]@.hash == hash@);
                    }
                }
                assert(seen_digests(all) == before.push(hash@));
                assert(files_with_digest(front, hash@) == Seq::<Seq<char>>::empty());
            }
            let mut files: Vec<String> = Vec::new();
            files.push(path);
            proof {
                assert(texts(files@) =~= Seq::<Seq<char>>::empty().push(file.path));
            }
            groups.push(DuplicateGroup::new(files, size, hash));
            proof {
                let now = groups.items();
                assert forall|j: int| 0 <= j < now.len() implies (#[trigger] now[j])@
                    == digest_groups(size as nat, all)[j] by {
                    if j < earlier.len() {
                        assert(now[j] == earlier[j]);
                        assert(before.contains(before[j]));
                    }
                }
                assert(views(now) =~= digest_groups(size as nat, all));
            }
        },
    }
}

/// Moves the groups with two or more files to the end of `found`, in order.
fn keep_repeated(found: &mut Vec<DuplicateGroup>, groups: Vec<DuplicateGroup>)
    ensures
        views(final(found)@) == views(old(found)@) + repeated(views(groups@)),
{
    let ghost start = views(found@);
    let ghost all = views(groups@);
    let mut groups = groups;
    let mut kept: Vec<DuplicateGroup> = Vec::new();
    // taken from the back, so `kept` holds the repeated groups in reverse
    while groups.len() > 0
        invariant
            groups.len() <= all.len(),
            views(groups@) == all.take(groups.len() as int),
            repeated(views(groups@)) + views(kept@).reverse() == repeated(all),
        decreases groups.len(),
    {
        let ghost before = views(groups@);
        let ghost held = views(kept@);
        let group = groups.pop().unwrap();
        proof {
            assert(views(groups@) =~= before.drop_last());
            assert(group@ == before.last());
            assert(views(groups@) =~= all.take(groups.len() as int));
        }
        if group.files().len() > 1 {
            kept.push(group);
            proof {
                assert(views(kept@) =~= held.push(before.last()));
                assert(views(kept@).reverse() =~= seq![before.last()] + held.reverse());
                assert(repeated(before) == repeated(before.drop_last()).push(before.last()));
                assert(repeated(before.drop_last()).push(before.last()) + held.reverse()
                    =~= repeated(before.drop_last()) + (seq![before.last()] + held.reverse()));
            }
        }
    }
    proof {
        assert(views(groups@) =~= Seq::<GroupView>::empty());
        assert(repeated(views(groups@)) + views(kept@).reverse() =~= views(kept@).reverse());
    }
    let ghost held = views(kept@);
    while kept.len() > 0
        invariant
            kept.len() <= held.len(),
            views(kept@) == held.take(kept.len() as int),
            views(found@) == start + held.skip(kept.len() as int).reverse(),
        decreases kept.len(),
    {
        let ghost before = views(found@);
        let ghost n = kept.len() as int;
        let ghost holding = kept@;
        let group = kept.pop().unwrap();
        proof {
            assert(views(holding)[n - 1] == held.take(n)[n - 1]);
            assert(group@ == held[n - 1]);
        }
        found.push(group);
        proof {
            assert(views(kept@) =~= held.take(kept.len() as int));
            assert(views(found@) =~= before.push(held[n - 1]));
            assert(held.skip(n - 1).reverse() =~= held.skip(n).reverse().push(held[n - 1]));
            assert(views(found@) =~= start + held.skip(kept.len() as int).reverse());
        }
    }
    proof {
        assert(held.skip(0) =~= held);
    }
}

/// Groups the files of one size bucket by the digests given for them, in the
/// order of the bucket, and returns the groups of two or more. A file with no
/// digest, because its content could not be read or because the list is too
/// short, belongs to no group.
pub fn group_by_digest(bucket: &SizeBucket, digests: &Vec<Option<String>>) -> (groups: Vec<
    DuplicateGroup,
>)
    ensures
        views(groups@) == bucket_duplicates(bucket@, digest_texts(digests@)),
{
    let mut found: Vec<DuplicateGroup> = Vec::new();
    append_bucket_duplicates(&mut found, bucket, digests);
    proof {
        assert(views(Seq::<DuplicateGroup>::empty()) + bucket_duplicates(
            bucket@,
            digest_texts(digests@),
        ) =~= bucket_duplicates(bucket@, digest_texts(digests@)));
    }
    found
}

/// Appends the duplicate groups of one bucket to `found`.
fn append_bucket_duplicates(
    found: &mut Vec<DuplicateGroup>,
    bucket: &SizeBucket,
    digests: &Vec<Option<String>>,
)
    ensures
        views(final(found)@) == views(old(found)@) + bucket_duplicates(
            bucket@,
            digest_texts(digests@),
        ),
{
    let paths = bucket.paths();
    let size = bucket.size();
    let ghost files = hashed(bucket@.paths, digest_texts(digests@));
    let mut groups = GroupList::new();
    let mut i: usize = 0;
    proof {
        assert(files.take(0) =~= Seq::<HashedFile>::empty());
        assert(views(groups.items()) =~= digest_groups(size as nat, files.take(0)));
    }
    while i < paths.len()
        invariant
            i <= paths.len(),
            texts(paths@) == bucket@.paths,
            size as nat == bucket@.size,
            files == hashed(bucket@.paths, digest_texts(digests@)),
            groups.wf(),
            views(groups.items()) == digest_groups(size as nat, files.take(i as int)),
        decreases paths.len() - i,
    {
        proof {
            assert(files.take(i + 1) =~= files.take(i as int).push(files[i as int]));
            assert(files.take(i + 1).drop_last() =~= files.take(i as int));
            assert(files[i as int].path == paths[i as int]@);
        }
        if i < digests.len() {
            match &digests[i] {
                Some(hash) => {
                    proof {
                        assert(files[i as int].digest == Some(hash@));
                    }
                    add_to_group(
                        &mut groups,
                        paths[i].clone(),
                        size,
                        hash.clone(),
                        Ghost(files.take(i as int)),
                    );
                },
                None => {
                    proof {
                        assert(files[i as int].digest is None);
                    }
                },
            }
        } else {
            proof {
                assert(files[i as int].digest is None);
            }
        }
        i = i + 1;
    }
    proof {
        assert(files.take(i as int) =~= files);
    }
    keep_repeated(found, groups.into_vec());
}

/// The duplicate groups of all the given buckets, bucket after bucket, given
/// for each bucket the digests of its files.
pub fn find_duplicates(buckets: &Vec<SizeBucket>, digests: &Vec<Vec<Option<String>>>) -> (groups:
    Vec<DuplicateGroup>)
    ensures
        views(groups@) == all_duplicates(views(buckets@), digest_lists(digests@)),
{
    let mut found: Vec<DuplicateGroup> = Vec::new();
    let none: Vec<Option<String>> = Vec::new();
    let mut i: usize = 0;
    proof {
        assert(views(found@) =~= duplicates_upto(views(buckets@), digest_lists(digests@), 0));
        assert(digest_texts(none@) =~= Seq::<Option<Seq<char>>>::empty());
    }
    while i < buckets.len()
        invariant
            i <= buckets.len(),
            digest_texts(none@) == Seq::<Option<Seq<char>>>::empty(),
            views(found@) == duplicates_upto(views(buckets@), digest_lists(digests@), i as int),
        decreases buckets.len() - i,
    {
        if i < digests.len() {
            append_bucket_duplicates(&mut found, &buckets[i], &digests[i]);
        } else {
            append_bucket_duplicates(&mut found, &buckets[i], &none);
        }
        i = i + 1;
    }
    found
}

} // verus!
