//! What an analysis reports, stated over the sequence of entries of a walk.

use vstd::prelude::*;
use crate::model::{BucketView, EntryView, FileType, PathSize};
use crate::paths::ancestors;

verus! {

/// A regular file of at least `min` bytes: the only entries whose size counts.
pub open spec fn counted(entry: EntryView, min: nat) -> bool {
    entry.kind == Some(FileType::File) && entry.size >= min
}

/// The sum of the sizes of the counted files.
pub open spec fn counted_total(entries: Seq<EntryView>, min: nat) -> nat
    decreases entries.len(),
{
    if entries.len() == 0 {
        0
    } else if counted(entries.last(), min) {
        counted_total(entries.drop_last(), min) + entries.last().size
    } else {
        counted_total(entries.drop_last(), min)
    }
}

/// The counted files with their sizes, in the order of the walk.
pub open spec fn counted_files(entries: Seq<EntryView>, min: nat) -> Seq<PathSize>
    decreases entries.len(),
{
    if entries.len() == 0 {
        Seq::empty()
    } else if counted(entries.last(), min) {
        counted_files(entries.drop_last(), min).push(
            PathSize { path: entries.last().path, size: entries.last().size },
        )
    } else {
        counted_files(entries.drop_last(), min)
    }
}

/// How many entries are of the given kind.
pub open spec fn kind_count(entries: Seq<EntryView>, kind: FileType) -> nat
    decreases entries.len(),
{
    if entries.len() == 0 {
        0
    } else if entries.last().kind == Some(kind) {
        kind_count(entries.drop_last(), kind) + 1
    } else {
        kind_count(entries.drop_last(), kind)
    }
}

/// The sum of the sizes of the counted files that have `folder` among their
/// ancestors within `root`.
pub open spec fn subtree_total(
    root: Seq<char>,
    entries: Seq<EntryView>,
    min: nat,
    folder: Seq<char>,
) -> nat
    decreases entries.len(),
{
    if entries.len() == 0 {
        0
    } else if counted(entries.last(), min) && ancestors(root, entries.last().path).contains(
        folder,
    ) {
        subtree_total(root, entries.drop_last(), min, folder) + entries.last().size
    } else {
        subtree_total(root, entries.drop_last(), min, folder)
    }
}

/// `known`, followed by each element of `more` that did not occur before it.
pub open spec fn add_fresh<T>(known: Seq<T>, more: Seq<T>) -> Seq<T>
    decreases more.len(),
{
    if more.len() == 0 {
        known
    } else {
        let so_far = add_fresh(known, more.drop_last());
        if so_far.contains(more.last()) {
            so_far
        } else {
            so_far.push(more.last())
        }
    }
}

/// The folders that hold a counted file, each once, in the order in which the
/// walk first reached them.
pub open spec fn seen_folders(root: Seq<char>, entries: Seq<EntryView>, min: nat) -> Seq<
    Seq<char>,
>
    decreases entries.len(),
{
    if entries.len() == 0 {
        Seq::empty()
    } else if counted(entries.last(), min) {
        add_fresh(
            seen_folders(root, entries.drop_last(), min),
            ancestors(root, entries.last().path),
        )
    } else {
        seen_folders(root, entries.drop_last(), min)
    }
}

/// Every folder that holds a counted file, with the total of the counted
/// files below it.
pub open spec fn folder_tally(root: Seq<char>, entries: Seq<EntryView>, min: nat) -> Seq<
    PathSize,
> {
    Seq::new(
        seen_folders(root, entries, min).len(),
        |i: int|
            PathSize {
                path: seen_folders(root, entries, min)[i],
                size: subtree_total(root, entries, min, seen_folders(root, entries, min)[i]),
            },
    )
}

/// The paths of the counted files of exactly `size` bytes, in the order of the walk.
pub open spec fn files_of_size(entries: Seq<EntryView>, min: nat, size: nat) -> Seq<Seq<char>>
    decreases entries.len(),
{
    if entries.len() == 0 {
        Seq::empty()
    } else if counted(entries.last(), min) && entries.last().size == size {
        files_of_size(entries.drop_last(), min, size).push(entries.last().path)
    } else {
        files_of_size(entries.drop_last(), min, size)
    }
}

/// The sizes of the counted files, each once, in the order in which the walk
/// first met them.
pub open spec fn seen_sizes(entries: Seq<EntryView>, min: nat) -> Seq<nat>
    decreases entries.len(),
{
    if entries.len() == 0 {
        Seq::empty()
    } else if counted(entries.last(), min) {
        add_fresh(seen_sizes(entries.drop_last(), min), seq![entries.last().size])
    } else {
        seen_sizes(entries.drop_last(), min)
    }
}

/// The counted files grouped by exact size: one bucket for each size.
pub open spec fn size_buckets(entries: Seq<EntryView>, min: nat) -> Seq<BucketView> {
    Seq::new(
        seen_sizes(entries, min).len(),
        |i: int|
            BucketView {
                size: seen_sizes(entries, min)[i],
                paths: files_of_size(entries, min, seen_sizes(entries, min)[i]),
            },
    )
}

/// The buckets that hold more than one file: only they can hold duplicates.
pub open spec fn crowded(buckets: Seq<BucketView>) -> Seq<BucketView>
    decreases buckets.len(),
{
    if buckets.len() == 0 {
        Seq::empty()
    } else if buckets.last().paths.len() > 1 {
        crowded(buckets.drop_last()).push(buckets.last())
    } else {
        crowded(buckets.drop_last())
    }
}

/// An entry that is not counted changes no total, no ranking, no folder and
/// no bucket.
pub proof fn lemma_uncounted(root: Seq<char>, entries: Seq<EntryView>, entry: EntryView, min: nat)
    requires
        !counted(entry, min),
    ensures
        counted_total(entries.push(entry), min) == counted_total(entries, min),
        counted_files(entries.push(entry), min) == counted_files(entries, min),
        folder_tally(root, entries.push(entry), min) == folder_tally(root, entries, min),
        size_buckets(entries.push(entry), min) == size_buckets(entries, min),
{
    let all = entries.push(entry);
    assert(all.drop_last() =~= entries);
    assert(all.last() == entry);
    assert(folder_tally(root, all, min) =~= folder_tally(root, entries, min));
    assert(size_buckets(all, min) =~= size_buckets(entries, min));
}

/// `add_fresh` keeps `known` in front, holds what `known` or `more` hold, and
/// repeats nothing that `known` did not repeat.
pub proof fn lemma_add_fresh<T>(known: Seq<T>, more: Seq<T>)
    ensures
        add_fresh(known, more).len() >= known.len(),
        add_fresh(known, more).take(known.len() as int) == known,
        forall|x: T| #[trigger]
            add_fresh(known, more).contains(x) <==> known.contains(x) || more.contains(x),
        known.no_duplicates() ==> add_fresh(known, more).no_duplicates(),
    decreases more.len(),
{
    let all = add_fresh(known, more);
    if more.len() == 0 {
        assert(all.take(known.len() as int) =~= known);
        assert forall|x: T| #[trigger] all.contains(x) <==> known.contains(x) || more.contains(
            x,
        ) by {
            if more.contains(x) {
                let i = choose|i: int| 0 <= i < more.len() && more[i] == x;
            }
        }
    } else {
        let front = more.drop_last();
        let so_far = add_fresh(known, front);
        lemma_add_fresh(known, front);
        assert(all.take(known.len() as int) =~= so_far.take(known.len() as int));
        assert forall|x: T| #[trigger] all.contains(x) <==> known.contains(x) || more.contains(
            x,
        ) by {
            if more.contains(x) {
                let i = choose|i: int| 0 <= i < more.len() && more[i] == x;
                if i < front.len() {
                    assert(front[i] == x);
                    assert(front.contains(x));
                    assert(so_far.contains(x));
                    let j = choose|j: int| 0 <= j < so_far.len() && so_far[j] == x;
                    assert(all[j] == x);
                } else {
                    assert(x == more.last());
                    if so_far.contains(x) {
                    } else {
                        assert(all[so_far.len() as int] == x);
                    }
                }
            }
            if known.contains(x) {
                assert(so_far.contains(x));
                let j = choose|j: int| 0 <= j < so_far.len() && so_far[j] == x;
                assert(all[j] == x);
            }
            if all.contains(x) {
                let j = choose|j: int| 0 <= j < all.len() && all[j] == x;
                if j < so_far.len() {
                    assert(so_far[j] == x);
                    assert(so_far.contains(x));
                    if front.contains(x) {
                        let i = choose|i: int| 0 <= i < front.len() && front[i] == x;
                        assert(more[i] == x);
                    }
                } else {
                    assert(more[more.len() - 1] == x);
                }
            }
        }
        if known.no_duplicates() && !so_far.contains(more.last()) {
            assert forall|i: int, j: int|
                0 <= i < all.len() && 0 <= j < all.len() && i != j implies all[i] != all[j] by {
                if i < so_far.len() {
                    assert(so_far.contains(all[i]));
                }
                if j < so_far.len() {
                    assert(so_far.contains(all[j]));
                }
            }
        }
    }
}

/// The total of a prefix of the walk is no more than the total of the walk.
pub proof fn lemma_counted_total_prefix(entries: Seq<EntryView>, min: nat, upto: int)
    requires
        0 <= upto <= entries.len(),
    ensures
        counted_total(entries.take(upto), min) <= counted_total(entries, min),
    decreases entries.len() - upto,
{
    if upto < entries.len() {
        lemma_counted_total_prefix(entries, min, upto + 1);
        let longer = entries.take(upto + 1);
        assert(longer.drop_last() =~= entries.take(upto));
    } else {
        assert(entries.take(upto) =~= entries);
    }
}

/// There are as many counted files as `counted_files` lists, and no more than entries.
pub proof fn lemma_counts_bounded(entries: Seq<EntryView>, min: nat)
    ensures
        counted_files(entries, min).len() <= entries.len(),
        kind_count(entries, FileType::Dir) <= entries.len(),
        kind_count(entries, FileType::Sym) <= entries.len(),
    decreases entries.len(),
{
    if entries.len() > 0 {
        lemma_counts_bounded(entries.drop_last(), min);
    }
}

/// A folder's total is part of the total of all counted files.
pub proof fn lemma_subtree_within_total(
    root: Seq<char>,
    entries: Seq<EntryView>,
    min: nat,
    folder: Seq<char>,
)
    ensures
        subtree_total(root, entries, min, folder) <= counted_total(entries, min),
    decreases entries.len(),
{
    if entries.len() > 0 {
        lemma_subtree_within_total(root, entries.drop_last(), min, folder);
    }
}

/// The seen folders are exactly the ancestors of the counted files, each once.
pub proof fn lemma_seen_folders(root: Seq<char>, entries: Seq<EntryView>, min: nat)
    ensures
        seen_folders(root, entries, min).no_duplicates(),
        forall|folder: Seq<char>| #[trigger]
            seen_folders(root, entries, min).contains(folder) <==> exists|i: int|
                0 <= i < entries.len() && counted(entries[i], min) && #[trigger] ancestors(
                    root,
                    entries[i].path,
                ).contains(folder),
        forall|folder: Seq<char>|
            !seen_folders(root, entries, min).contains(folder) ==> #[trigger] subtree_total(
                root,
                entries,
                min,
                folder,
            ) == 0,
    decreases entries.len(),
{
    let seen = seen_folders(root, entries, min);
    if entries.len() == 0 {
        assert forall|folder: Seq<char>| !(#[trigger] seen.contains(folder)) by {
            if seen.contains(folder) {
                let i = choose|i: int| 0 <= i < seen.len() && seen[i] == folder;
            }
        }
    } else {
        let front = entries.drop_last();
        let last = entries.last();
        let before = seen_folders(root, front, min);
        lemma_seen_folders(root, front, min);
        if counted(last, min) {
            lemma_add_fresh(before, ancestors(root, last.path));
        }
        assert forall|folder: Seq<char>| #[trigger]
            seen.contains(folder) <==> exists|i: int|
                0 <= i < entries.len() && counted(entries[i], min) && #[trigger] ancestors(
                    root,
                    entries[i].path,
                ).contains(folder) by {
            if seen.contains(folder) {
                if before.contains(folder) {
                    let i = choose|i: int|
                        0 <= i < front.len() && counted(front[i], min) && #[trigger] ancestors(
                            root,
                            front[i].path,
                        ).contains(folder);
                    assert(entries[i] == front[i]);
                } else {
                    assert(counted(last, min) && ancestors(root, last.path).contains(folder));
                    assert(entries[entries.len() - 1] == last);
                }
            }
            if exists|i: int|
                0 <= i < entries.len() && counted(entries[i], min) && #[trigger] ancestors(
                    root,
                    entries[i].path,
                ).contains(folder) {
                let i = choose|i: int|
                    0 <= i < entries.len() && counted(entries[i], min) && #[trigger] ancestors(
                        root,
                        entries[i].path,
                    ).contains(folder);
                if i < front.len() {
                    assert(front[i] == entries[i]);
                    assert(before.contains(folder));
                }
            }
        }
        assert forall|folder: Seq<char>| !seen.contains(folder) implies #[trigger] subtree_total(
            root,
            entries,
            min,
            folder,
        ) == 0 by {
            if before.contains(folder) {
                let j = choose|j: int| 0 <= j < before.len() && before[j] == folder;
                if counted(last, min) {
                    assert(seen.take(before.len() as int)[j] == folder);
                    assert(seen[j] == folder);
                }
            }
            assert(subtree_total(root, front, min, folder) == 0);
        }
    }
}

/// The seen sizes are exactly the sizes of the counted files, each once.
pub proof fn lemma_seen_sizes(entries: Seq<EntryView>, min: nat)
    ensures
        seen_sizes(entries, min).no_duplicates(),
        forall|size: nat| #[trigger]
            seen_sizes(entries, min).contains(size) <==> exists|i: int|
                0 <= i < entries.len() && counted(#[trigger] entries[i], min) && entries[i].size
                    == size,
        forall|size: nat|
            !seen_sizes(entries, min).contains(size) ==> #[trigger] files_of_size(
                entries,
                min,
                size,
            ) == Seq::<Seq<char>>::empty(),
    decreases entries.len(),
{
    let seen = seen_sizes(entries, min);
    if entries.len() == 0 {
        assert forall|size: nat| !(#[trigger] seen.contains(size)) by {
            if seen.contains(size) {
                let i = choose|i: int| 0 <= i < seen.len() && seen[i] == size;
            }
        }
    } else {
        let front = entries.drop_last();
        let last = entries.last();
        let before = seen_sizes(front, min);
        lemma_seen_sizes(front, min);
        let one = seq![last.size];
        if counted(last, min) {
            lemma_add_fresh(before, one);
        }
        assert forall|size: nat| #[trigger]
            seen.contains(size) <==> exists|i: int|
                0 <= i < entries.len() && counted(#[trigger] entries[i], min) && entries[i].size
                    == size by {
            if seen.contains(size) {
                if before.contains(size) {
                    let i = choose|i: int|
                        0 <= i < front.len() && counted(#[trigger] front[i], min)
                            && front[i].size == size;
                    assert(entries[i] == front[i]);
                } else {
                    assert(one.contains(size));
                    let k = choose|k: int| 0 <= k < one.len() && one[k] == size;
                    assert(entries[entries.len() - 1] == last);
                }
            }
            if exists|i: int|
                0 <= i < entries.len() && counted(#[trigger] entries[i], min) && entries[i].size
                    == size {
                let i = choose|i: int|
                    0 <= i < entries.len() && counted(#[trigger] entries[i], min)
                        && entries[i].size == size;
                if i < front.len() {
                    assert(front[i] == entries[i]);
                    assert(before.contains(size));
                } else {
                    assert(one[0] == size);
                    assert(one.contains(size));
                }
            }
        }
        assert forall|size: nat| !seen.contains(size) implies #[trigger] files_of_size(
            entries,
            min,
            size,
        ) == Seq::<Seq<char>>::empty() by {
            if counted(last, min) && last.size == size {
                assert(one[0] == size);
                assert(one.contains(size));
            }
            if before.contains(size) {
                let j = choose|j: int| 0 <= j < before.len() && before[j] == size;
                if counted(last, min) {
                    assert(seen.take(before.len() as int)[j] == size);
                    assert(seen[j] == size);
                }
            }
            assert(files_of_size(front, min, size) == Seq::<Seq<char>>::empty());
        }
    }
}

} // verus!
