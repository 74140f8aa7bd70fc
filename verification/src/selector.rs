//! A bounded selection of the largest entries of a stream.

use vstd::prelude::*;
use crate::model::{views, FileInfoDirectory, FolderInfo, PathSize};
use crate::ranking::{
    descending, first_up_to, largest, lemma_largest_step, lemma_leading_index,
    lemma_ranked_descending, place,
};

verus! {

/// Keeps the `limit` largest of the entries pushed so far, largest first, in
/// memory proportional to `limit`.
pub struct TopSelector {
    limit: usize,
    kept: Vec<FileInfoDirectory>,
    offered: Ghost<Seq<PathSize>>,
}

impl TopSelector {
    /// Every entry pushed so far, in the order of the pushes.
    pub closed spec fn offered(&self) -> Seq<PathSize> {
        self.offered@
    }

    /// The number of entries the selector keeps at most.
    pub closed spec fn limit(&self) -> nat {
        self.limit as nat
    }

    /// The selector holds the `limit` largest of what was pushed, largest first.
    pub closed spec fn wf(&self) -> bool {
        views(self.kept@) == largest(self.offered@, self.limit as nat)
    }

    /// A selector that keeps at most `limit` entries and was offered none yet.
    pub fn new(limit: usize) -> (selector: Self)
        ensures
            selector.wf(),
            selector.limit() == limit,
            selector.offered() == Seq::<PathSize>::empty(),
    {
        let selector = TopSelector { limit, kept: Vec::new(), offered: Ghost(Seq::empty()) };
        assert(views(selector.kept@) =~= largest(Seq::empty(), limit as nat));
        selector
    }

    /// The number of entries the selector keeps at most.
    pub fn capacity(&self) -> (limit: usize)
        ensures
            limit == self.limit(),
    {
        self.limit
    }

    /// The number of entries held, never more than the limit.
    pub fn len(&self) -> (count: usize)
        requires
            self.wf(),
        ensures
            count == largest(self.offered(), self.limit()).len(),
            count <= self.limit(),
    {
        proof {
            lemma_ranked_descending(self.offered@);
            assert(views(self.kept@).len() == self.kept@.len());
        }
        self.kept.len()
    }

    /// Takes one more entry in; if that makes one too many, the smallest leaves.
    pub fn push(&mut self, path: String, size: u64)
        requires
            old(self).wf(),
        ensures
            final(self).wf(),
            final(self).limit() == old(self).limit(),
            final(self).offered() == old(self).offered().push(
                PathSize { path: path@, size: size as nat },
            ),
    {
        let ghost item = PathSize { path: path@, size: size as nat };
        let ghost before = views(self.kept@);
        proof {
            lemma_ranked_descending(self.offered@);
            lemma_largest_step(self.offered@, item, self.limit as nat);
        }
        // the place is found by halving: before it no element is smaller
        // than the new one, from it on every element is
        let mut at: usize = 0;
        let mut end: usize = self.kept.len();
        while at < end
            invariant
                at <= end <= self.kept.len(),
                before == views(self.kept@),
                descending(before),
                forall|i: int| 0 <= i < at ==> before[i].size >= size,
                forall|i: int| end <= i < self.kept.len() ==> before[i].size < size,
            decreases end - at,
        {
            let middle: usize = at + (end - at) / 2;
            if *self.kept[middle].size() >= size {
                assert forall|i: int| 0 <= i < middle + 1 implies before[i].size >= size by {
                    assert(before[i].size >= before[middle as int].size);
                }
                at = middle + 1;
            } else {
                assert forall|i: int| middle <= i < self.kept.len() implies before[i].size
                    < size by {
                    assert(before[middle as int].size >= before[i].size);
                }
                end = middle;
            }
        }
        proof {
            lemma_leading_index(before, size as nat, at as int);
        }
        if at < self.limit {
            self.kept.insert(at, FileInfoDirectory::new(path, size));
            assert(views(self.kept@) =~= place(before, item));
            if self.kept.len() > self.limit {
                self.kept.pop();
                assert(views(self.kept@) =~= first_up_to(place(before, item), self.limit as nat));
            }
        } else {
            assert(before =~= first_up_to(place(before, item), self.limit as nat));
        }
        self.offered = Ghost(self.offered@.push(item));
    }

    /// The entries held, largest first.
    pub fn into_sorted_vec(self) -> (files: Vec<FileInfoDirectory>)
        requires
            self.wf(),
        ensures
            views(files@) == largest(self.offered(), self.limit()),
    {
        self.kept
    }

    /// The entries held, largest first, as folders.
    pub fn into_folders(self) -> (folders: Vec<FolderInfo>)
        requires
            self.wf(),
        ensures
            views(folders@) == largest(self.offered(), self.limit()),
    {
        let mut folders: Vec<FolderInfo> = Vec::new();
        let kept = self.kept;
        let mut i: usize = 0;
        while i < kept.len()
            invariant
                i <= kept.len(),
                folders.len() == i,
                forall|j: int| 0 <= j < i ==> folders[j]@ == kept[j]@,
            decreases kept.len() - i,
        {
            let path: String = kept[i].path().clone();
            folders.push(FolderInfo::new(path, *kept[i].size()));
            i = i + 1;
        }
        assert(views(folders@) =~= views(kept@));
        folders
    }
}

} // verus!
