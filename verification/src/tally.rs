//! Keeping the folder totals and the size buckets up to date, one counted
//! file at a time.

use vstd::prelude::*;
use crate::census::{
    add_fresh, counted, counted_total, files_of_size, folder_tally, lemma_add_fresh,
    lemma_seen_folders, lemma_seen_sizes, lemma_subtree_within_total, seen_folders, seen_sizes,
    size_buckets, subtree_total,
};
use crate::keyindex::{key_of_text, text_key, KeyIndex};
use crate::model::{texts, views, BucketView, EntryView, FolderInfo, PathSize, SizeBucket};
use crate::paths::{ancestors, lemma_climb_distinct, start_folder};

verus! {

/// The folders that hold counted files, each with its total so far, and an
/// index by which a folder is found without walking the list.
pub struct FolderTally {
    folders: Vec<FolderInfo>,
    index: KeyIndex,
}

impl FolderTally {
    /// The folders, in the order in which they came in.
    pub closed spec fn items(&self) -> Seq<FolderInfo> {
        self.folders@
    }

    /// The index holds the key of every folder, in order.
    pub closed spec fn wf(&self) -> bool {
        &&& self.index.wf()
        &&& self.index.keys() =~= Seq::new(
            self.folders.len() as nat,
            |i: int| text_key(self.folders[i]@.path),
        )
    }

    pub(crate) fn new() -> (tally: Self)
        ensures
            tally.wf(),
            tally.items() == Seq::<FolderInfo>::empty(),
    {
        FolderTally { folders: Vec::new(), index: KeyIndex::new() }
    }

    /// The folders as a list.
    pub(crate) fn as_vec(&self) -> (folders: &Vec<FolderInfo>)
        ensures
            folders@ == self.items(),
    {
        &self.folders
    }

    /// The place of the folder `path`, if it is there.
    pub(crate) fn find(&self, path: &String) -> (found: Option<usize>)
        requires
            self.wf(),
        ensures
            match found {
                Some(i) => i < self.items().len() && self.items()[i as int]@.path == path@,
                None => forall|j: int|
                    0 <= j < self.items().len() ==> (#[trigger] self.items()[j])@.path != path@,
            },
    {
        let key = key_of_text(path.as_str());
        let mut current = self.index.first(key);
        loop
            invariant
                self.wf(),
                current matches Some(at) ==> at < self.folders.len(),
                forall|i: int|
                    0 <= i < self.folders.len() && (#[trigger] self.folders[i])@.path == path@
                        ==> self.index.reaches(current, i),
            decreases
                    match current {
                        Some(at) => at + 1,
                        None => 0,
                    },
        {
            match current {
                None => {
                    proof {
                        assert forall|j: int| 0 <= j < self.folders.len() implies (
                        #[trigger] self.folders[j])@.path != path@ by {
                            self.index.lemma_nothing_from_none(j);
                        }
                    }
                    return None;
                },
                Some(at) => {
                    if *self.folders[at].path() == *path {
                        return Some(at);
                    }
                    current = self.index.after(at);
                },
            }
        }
    }

    /// Adds `by` bytes to the total of the folder at `at`.
    pub(crate) fn grow(&mut self, at: usize, by: u64)
        requires
            old(self).wf(),
            at < old(self).items().len(),
            old(self).items()[at as int]@.size + by <= u64::MAX,
        ensures
            final(self).wf(),
            final(self).items().len() == old(self).items().len(),
            forall|j: int|
                0 <= j < old(self).items().len() && j != at ==> final(self).items()[j] == old(
                    self,
                ).items()[j],
            final(self).items()[at as int]@ == (PathSize {
                path: old(self).items()[at as int]@.path,
                size: (old(self).items()[at as int]@.size + by) as nat,
            }),
    {
        self.folders[at].grow(by);
    }

    /// Takes in one more folder.
    pub(crate) fn push(&mut self, folder: FolderInfo)
        requires
            old(self).wf(),
        ensures
            final(self).wf(),
            final(self).items() == old(self).items().push(folder),
    {
        self.index.add(key_of_text(folder.path().as_str()));
        self.folders.push(folder);
    }
}

/// The size buckets, and an index by which the bucket of a size is found
/// without walking the list.
pub struct BucketList {
    buckets: Vec<SizeBucket>,
    index: KeyIndex,
}

impl BucketList {
    /// The buckets, in the order in which they came in.
    pub closed spec fn items(&self) -> Seq<SizeBucket> {
        self.buckets@
    }

    /// The index holds the size of every bucket, in order.
    pub closed spec fn wf(&self) -> bool {
        &&& self.index.wf()
        &&& self.index.keys() =~= Seq::new(
            self.buckets.len() as nat,
            |i: int| self.buckets[i]@.size as u64,
        )
        &&& forall|i: int|
            0 <= i < self.buckets.len() ==> (#[trigger] self.buckets[i])@.size <= u64::MAX
    }

    pub(crate) fn new() -> (list: Self)
        ensures
            list.wf(),
            list.items() == Seq::<SizeBucket>::empty(),
    {
        BucketList { buckets: Vec::new(), index: KeyIndex::new() }
    }

    /// The buckets as a list.
    pub(crate) fn as_vec(&self) -> (buckets: &Vec<SizeBucket>)
        ensures
            buckets@ == self.items(),
    {
        &self.buckets
    }

    /// The place of the bucket for `size`, if there is one.
    pub(crate) fn find(&self, size: u64) -> (found: Option<usize>)
        requires
            self.wf(),
        ensures
            match found {
                Some(i) => i < self.items().len() && self.items()[i as int]@.size == size,
                None => forall|j: int|
                    0 <= j < self.items().len() ==> (#[trigger] self.items()[j])@.size != size,
            },
    {
        let found = self.index.first(size);
        proof {
            if found is None {
                assert forall|j: int| 0 <= j < self.buckets.len() implies (
                #[trigger] self.buckets[j])@.size != size by {
                    if self.buckets[j]@.size == size {
                        assert(self.index.keys()[j] == size);
                        self.index.lemma_nothing_from_none(j);
                    }
                }
            }
        }
        found
    }

    /// Adds one more file to the bucket at `at`.
    pub(crate) fn add_to(&mut self, at: usize, path: String)
        requires
            old(self).wf(),
            at < old(self).items().len(),
        ensures
            final(self).wf(),
            final(self).items().len() == old(self).items().len(),
            forall|j: int|
                0 <= j < old(self).items().len() && j != at ==> final(self).items()[j] == old(
                    self,
                ).items()[j],
            final(self).items()[at as int]@ == (BucketView {
                size: old(self).items()[at as int]@.size,
                paths: old(self).items()[at as int]@.paths.push(path@),
            }),
    {
        self.buckets[at].add(path);
    }

    /// Takes in one more bucket.
    pub(crate) fn push(&mut self, bucket: SizeBucket)
        requires
            old(self).wf(),
        ensures
            final(self).wf(),
            final(self).items() == old(self).items().push(bucket),
    {
        self.index.add(bucket.size());
        self.buckets.push(bucket);
    }
}

/// The folder totals while the ancestors of one new file are being credited:
/// the first `done` of them have the file's size added, the others not yet.
pub(crate) open spec fn credited(
    folders: Seq<FolderInfo>,
    root: Seq<char>,
    front: Seq<EntryView>,
    min: nat,
    chain: Seq<Seq<char>>,
    size: nat,
    done: int,
) -> bool {
    let known = add_fresh(seen_folders(root, front, min), chain.take(done));
    &&& folders.len() == known.len()
    &&& forall|i: int|
        0 <= i < folders.len() ==> (#[trigger] folders[i])@.path == known[i]
    &&& forall|i: int|
        0 <= i < folders.len() ==> (#[trigger] folders[i])@.size == subtree_total(
            root,
            front,
            min,
            known[i],
        ) + if chain.take(done).contains(known[i]) {
            size
        } else {
            0
        }
}

/// Adds the size of one counted file to each of its ancestor folders.
pub(crate) fn credit_chain(
    folders: &mut FolderTally,
    chain: &Vec<String>,
    size: u64,
    Ghost(root): Ghost<Seq<char>>,
    Ghost(front): Ghost<Seq<EntryView>>,
    Ghost(min): Ghost<nat>,
    Ghost(entry): Ghost<EntryView>,
)
    requires
        old(folders).wf(),
        views(old(folders).items()) == folder_tally(root, front, min),
        counted(entry, min),
        entry.size == size,
        texts(chain@) == ancestors(root, entry.path),
        counted_total(front, min) + size <= u64::MAX,
    ensures
        final(folders).wf(),
        views(final(folders).items()) == folder_tally(root, front.push(entry), min),
{
    let ghost links = ancestors(root, entry.path);
    let ghost before = seen_folders(root, front, min);
    proof {
        lemma_climb_distinct(root, start_folder(entry.path));
        lemma_seen_folders(root, front, min);
        assert(links.take(0) =~= Seq::<Seq<char>>::empty());
        assert(folders.items().len() == views(folders.items()).len());
        assert(folder_tally(root, front, min).len() == before.len());
        assert forall|i: int| 0 <= i < folders.items().len() implies (
        #[trigger] folders.items()[i])@.path == before[i] && folders.items()[i]@.size
            == subtree_total(root, front, min, before[i]) by {
            assert(views(folders.items())[i] == folder_tally(root, front, min)[i]);
        }
        assert forall|x: Seq<char>| !links.take(0).contains(x) by {
            if links.take(0).contains(x) {
                let i = choose|i: int| 0 <= i < links.take(0).len() && links.take(0)[i] == x;
            }
        }
    }
    let mut k: usize = 0;
    while k < chain.len()
        invariant
            k <= chain.len(),
            texts(chain@) == links,
            links == ancestors(root, entry.path),
            links.no_duplicates(),
            before == seen_folders(root, front, min),
            before.no_duplicates(),
            folders.wf(),
            credited(folders.items(), root, front, min, links, size as nat, k as int),
            counted_total(front, min) + size <= u64::MAX,
        decreases chain.len() - k,
    {
        let folder: String = chain[k].clone();
        let ghost done = links.take(k as int);
        let ghost next = links.take(k + 1);
        let ghost known = add_fresh(before, done);
        let ghost earlier = folders.items();
        proof {
            assert(folder@ == links[k as int]);
            assert(next.drop_last() =~= done);
            assert(next.last() == folder@);
            lemma_add_fresh(before, done);
            assert(!done.contains(folder@)) by {
                if done.contains(folder@) {
                    let i = choose|i: int| 0 <= i < done.len() && done[i] == folder@;
                    assert(links[i] == links[k as int]);
                }
            }
            lemma_subtree_within_total(root, front, min, folder@);
            assert forall|x: Seq<char>| next.contains(x) <==> done.contains(x) || x
                == folder@ by {
                if next.contains(x) {
                    let i = choose|i: int| 0 <= i < next.len() && next[i] == x;
                    if i < k {
                        assert(done[i] == x);
                    }
                }
                if done.contains(x) {
                    let i = choose|i: int| 0 <= i < done.len() && done[i] == x;
                    assert(next[i] == x);
                }
                assert(next[k as int] == folder@);
            }
        }
        match folders.find(&folder) {
            Some(i) => {
                proof {
                    assert(earlier[i as int]@.path == known[i as int]);
                    assert(known.contains(folder@));
                    assert(add_fresh(before, next) == known);
                }
                folders.grow(i, size);
                proof {
                    let now = folders.items();
                    assert forall|j: int| 0 <= j < now.len() implies (#[trigger] now[j])@.path
                        == known[j] by {
                        if j != i {
                            assert(now[j] == earlier[j]);
                        }
                    }
                    assert forall|j: int| 0 <= j < now.len() implies (#[trigger] now[j])@.size
                        == subtree_total(root, front, min, known[j]) + if next.contains(known[j]) {
                        size as nat
                    } else {
                        0
                    } by {
                        if j != i {
                            assert(now[j] == earlier[j]);
                            assert(known[j] != known[i as int]);
                        }
                    }
                }
            },
            None => {
                proof {
                    assert(!known.contains(folder@)) by {
                        if known.contains(folder@) {
                            let j = choose|j: int| 0 <= j < known.len() && known[j] == folder@;
                            assert(earlier[j]@.path == folder@);
                        }
                    }
                    assert(add_fresh(before, next) == known.push(folder@));
                    assert(!before.contains(folder@));
                    lemma_seen_folders(root, front, min);
                    assert(subtree_total(root, front, min, folder@) == 0);
                }
                folders.push(FolderInfo::new(folder, size));
                proof {
                    let now = folders.items();
                    let grown = known.push(folder@);
                    assert forall|j: int| 0 <= j < now.len() implies (#[trigger] now[j])@.path
                        == grown[j] by {
                        if j < earlier.len() {
                            assert(now[j] == earlier[j]);
                        }
                    }
                    assert forall|j: int| 0 <= j < now.len() implies (#[trigger] now[j])@.size
                        == subtree_total(root, front, min, grown[j]) + if next.contains(grown[j]) {
                        size as nat
                    } else {
                        0
                    } by {
                        if j < earlier.len() {
                            assert(now[j] == earlier[j]);
                            assert(known.contains(known[j]));
                        }
                    }
                }
            },
        }
        k = k + 1;
    }
    proof {
        let all = front.push(entry);
        assert(all.drop_last() =~= front);
        assert(all.last() == entry);
        assert(links.take(k as int) =~= links);
        assert(seen_folders(root, all, min) == add_fresh(before, links));
        assert(views(folders.items()) =~= folder_tally(root, all, min));
    }
}

/// Puts one counted file into the bucket of its size.
pub(crate) fn add_to_bucket(
    buckets: &mut BucketList,
    path: String,
    size: u64,
    Ghost(front): Ghost<Seq<EntryView>>,
    Ghost(min): Ghost<nat>,
    Ghost(entry): Ghost<EntryView>,
)
    requires
        old(buckets).wf(),
        views(old(buckets).items()) == size_buckets(front, min),
        counted(entry, min),
        entry.size == size,
        entry.path == path@,
    ensures
        final(buckets).wf(),
        views(final(buckets).items()) == size_buckets(front.push(entry), min),
{
    let ghost before = seen_sizes(front, min);
    let ghost all = front.push(entry);
    let ghost one = seq![entry.size];
    let ghost earlier = buckets.items();
    proof {
        lemma_seen_sizes(front, min);
        assert(all.drop_last() =~= front);
        assert(all.last() == entry);
        assert(one.drop_last() =~= Seq::<nat>::empty());
        assert(one.last() == entry.size);
        assert(add_fresh(before, one.drop_last()) == before);
        assert(earlier.len() == views(earlier).len());
        assert forall|i: int| 0 <= i < earlier.len() implies (#[trigger] earlier[i])@
            == size_buckets(front, min)[i] by {
            assert(views(earlier)[i] == size_buckets(front, min)[i]);
        }
    }
    match buckets.find(size) {
        Some(i) => {
            proof {
                assert(before[i as int] == size);
                assert(before.contains(size as nat));
                assert(seen_sizes(all, min) == before);
            }
            buckets.add_to(i, path);
            proof {
                let now = buckets.items();
                assert forall|j: int| 0 <= j < now.len() implies (#[trigger] now[j])@
                    == size_buckets(all, min)[j] by {
                    if j != i {
                        assert(now[j] == earlier[j]);
                        assert(before[j] != before[i as int]);
                    }
                }
                assert(views(now) =~= size_buckets(all, min));
            }
        },
        None => {
            proof {
                assert(!before.contains(size as nat)) by {
                    if before.contains(size as nat) {
                        let j = choose|j: int| 0 <= j < before.len() && before[j] == size;
                        assert(earlier[j]@.size == size);
                    }
                }
                assert(seen_sizes(all, min) == before.push(size as nat));
                assert(files_of_size(front, min, size as nat) == Seq::<Seq<char>>::empty());
            }
            let mut paths: Vec<String> = Vec::new();
            paths.push(path);
            proof {
                assert(texts(paths@) =~= Seq::<Seq<char>>::empty().push(entry.path));
            }
            buckets.push(SizeBucket::new(size, paths));
            proof {
                let now = buckets.items();
                assert forall|j: int| 0 <= j < now.len() implies (#[trigger] now[j])@
                    == size_buckets(all, min)[j] by {
                    if j < earlier.len() {
                        assert(now[j] == earlier[j]);
                        assert(before.contains(before[j]));
                    }
                }
                assert(views(now) =~= size_buckets(all, min));
            }
        },
    }
}

} // verus!
