//! What holds of every analysis and of every search.

use vstd::prelude::*;
use vstd::seq_lib::{
    to_multiset_build, to_multiset_contains, to_multiset_insert, to_multiset_len,
    to_multiset_remove,
};
use std::time::Duration;
use crate::analyzer::summary_of;
use crate::census::{
    counted, counted_total, folder_tally, lemma_seen_folders, seen_folders, subtree_total,
};
use crate::model::{EntryView, PathSize, SummaryView};
use crate::paths::{ancestors, lies_under};
use crate::ranking::{descending, largest, lemma_ranked_descending, not_selected, ranked};
use crate::search::{
    accepts, found_files, match_of, search_of, MatchView, SearchView, VisitedView,
};

verus! {

/// What one entry adds to the total.
pub open spec fn counted_size(entry: EntryView, min: nat) -> nat {
    if counted(entry, min) {
        entry.size
    } else {
        0
    }
}

/// Taking one entry out of a walk lowers the total by what that entry added.
pub proof fn lemma_total_without(entries: Seq<EntryView>, min: nat, index: int)
    requires
        0 <= index < entries.len(),
    ensures
        counted_total(entries, min) == counted_total(entries.remove(index), min) + counted_size(
            entries[index],
            min,
        ),
    decreases entries.len(),
{
    if index == entries.len() - 1 {
        assert(entries.remove(index) =~= entries.drop_last());
    } else {
        let rest = entries.remove(index);
        assert(rest.drop_last() =~= entries.drop_last().remove(index));
        assert(rest.last() == entries.last());
        lemma_total_without(entries.drop_last(), min, index);
    }
}

/// The total size of the counted files does not depend on the order in which
/// the walk meets the entries: two walks with the same entries, in any order,
/// have the same total.
pub proof fn total_is_order_independent(first: Seq<EntryView>, second: Seq<EntryView>, min: nat)
    requires
        first.to_multiset() == second.to_multiset(),
    ensures
        counted_total(first, min) == counted_total(second, min),
    decreases first.len(),
{
    to_multiset_len(first);
    to_multiset_len(second);
    if first.len() > 0 {
        let last = first.last();
        let front = first.drop_last();
        assert(first =~= front.push(last));
        to_multiset_build(front, last);
        to_multiset_contains(second, last);
        assert(second.to_multiset().count(last) > 0);
        let index = choose|index: int| 0 <= index < second.len() && second[index] == last;
        to_multiset_remove(second, index);
        assert(second.remove(index).to_multiset() =~= front.to_multiset());
        total_is_order_independent(front, second.remove(index), min);
        lemma_total_without(second, min, index);
    }
}

/// What one entry adds to the total of `folder`.
pub open spec fn credited_size(
    root: Seq<char>,
    entry: EntryView,
    min: nat,
    folder: Seq<char>,
) -> nat {
    if counted(entry, min) && ancestors(root, entry.path).contains(folder) {
        entry.size
    } else {
        0
    }
}

/// Taking one entry out of a walk lowers the total of a folder by what that
/// entry added to it.
pub proof fn lemma_subtree_without(
    root: Seq<char>,
    entries: Seq<EntryView>,
    min: nat,
    folder: Seq<char>,
    index: int,
)
    requires
        0 <= index < entries.len(),
    ensures
        subtree_total(root, entries, min, folder) == subtree_total(
            root,
            entries.remove(index),
            min,
            folder,
        ) + credited_size(root, entries[index], min, folder),
    decreases entries.len(),
{
    if index == entries.len() - 1 {
        assert(entries.remove(index) =~= entries.drop_last());
    } else {
        let rest = entries.remove(index);
        assert(rest.drop_last() =~= entries.drop_last().remove(index));
        assert(rest.last() == entries.last());
        lemma_subtree_without(root, entries.drop_last(), min, folder, index);
    }
}

/// The total of a folder does not depend on the order in which the walk
/// meets the entries either.
pub proof fn folder_total_is_order_independent(
    root: Seq<char>,
    first: Seq<EntryView>,
    second: Seq<EntryView>,
    min: nat,
    folder: Seq<char>,
)
    requires
        first.to_multiset() == second.to_multiset(),
    ensures
        subtree_total(root, first, min, folder) == subtree_total(root, second, min, folder),
    decreases first.len(),
{
    to_multiset_len(first);
    to_multiset_len(second);
    if first.len() > 0 {
        let last = first.last();
        let front = first.drop_last();
        assert(first =~= front.push(last));
        to_multiset_build(front, last);
        to_multiset_contains(second, last);
        assert(second.to_multiset().count(last) > 0);
        let index = choose|index: int| 0 <= index < second.len() && second[index] == last;
        to_multiset_remove(second, index);
        assert(second.remove(index).to_multiset() =~= front.to_multiset());
        folder_total_is_order_independent(root, front, second.remove(index), min, folder);
        lemma_subtree_without(root, second, min, folder, index);
    }
}

/// Whether a size is recorded for `folder`.
pub open spec fn is_recorded(tally: Seq<PathSize>, folder: Seq<char>) -> bool {
    exists|i: int| 0 <= i < tally.len() && (#[trigger] tally[i]).path == folder
}

/// Whether some counted file has `folder` among its ancestors within `root`.
pub open spec fn holds_counted_file(
    root: Seq<char>,
    entries: Seq<EntryView>,
    min: nat,
    folder: Seq<char>,
) -> bool {
    exists|k: int|
        0 <= k < entries.len() && counted(entries[k], min) && #[trigger] ancestors(
            root,
            entries[k].path,
        ).contains(folder)
}

/// The size recorded for a folder is the sum of the sizes of the counted
/// files that have the folder among their ancestors; every folder with such a
/// file is recorded, once, and no other.
pub proof fn folder_totals_are_subtree_sums(root: Seq<char>, entries: Seq<EntryView>, min: nat)
    ensures
        forall|i: int|
            0 <= i < folder_tally(root, entries, min).len() ==> (#[trigger] folder_tally(
                root,
                entries,
                min,
            )[i]).size == subtree_total(
                root,
                entries,
                min,
                folder_tally(root, entries, min)[i].path,
            ),
        forall|i: int, j: int|
            0 <= i < j < folder_tally(root, entries, min).len() ==> folder_tally(
                root,
                entries,
                min,
            )[i].path != folder_tally(root, entries, min)[j].path,
        forall|folder: Seq<char>| #[trigger]
            is_recorded(folder_tally(root, entries, min), folder) <==> holds_counted_file(
                root,
                entries,
                min,
                folder,
            ),
{
    lemma_seen_folders(root, entries, min);
    let seen = seen_folders(root, entries, min);
    let tally = folder_tally(root, entries, min);
    assert forall|folder: Seq<char>| #[trigger]
        is_recorded(tally, folder) <==> holds_counted_file(root, entries, min, folder) by {
        if is_recorded(tally, folder) {
            let i = choose|i: int| 0 <= i < tally.len() && (#[trigger] tally[i]).path == folder;
            assert(seen[i] == folder);
            assert(seen.contains(folder));
        }
        if seen.contains(folder) {
            let i = choose|i: int| 0 <= i < seen.len() && seen[i] == folder;
            assert(tally[i].path == folder);
        }
    }
}

/// Where every counted file lies under the root, the size recorded for the
/// root is the total size.
pub proof fn root_total_is_total(root: Seq<char>, entries: Seq<EntryView>, min: nat)
    requires
        forall|i: int|
            0 <= i < entries.len() && counted(#[trigger] entries[i], min) ==> lies_under(
                root,
                entries[i].path,
            ),
    ensures
        subtree_total(root, entries, min, root) == counted_total(entries, min),
    decreases entries.len(),
{
    if entries.len() > 0 {
        let front = entries.drop_last();
        assert forall|i: int|
            0 <= i < front.len() && counted(#[trigger] front[i], min) implies lies_under(
            root,
            front[i].path,
        ) by {
            assert(front[i] == entries[i]);
        }
        root_total_is_total(root, front, min);
        assert(entries.last() == entries[entries.len() - 1]);
    }
}

/// Placing an element adds it to what a sequence holds.
proof fn lemma_ranked_holds_all(items: Seq<PathSize>)
    ensures
        ranked(items).to_multiset() == items.to_multiset(),
    decreases items.len(),
{
    if items.len() == 0 {
        assert(ranked(items) =~= items);
    } else {
        let front = items.drop_last();
        let last = items.last();
        lemma_ranked_holds_all(front);
        crate::ranking::lemma_leading_bounds(ranked(front), last.size);
        to_multiset_insert(
            ranked(front),
            crate::ranking::leading_at_least(ranked(front), last.size) as int,
            last,
        );
        assert(items =~= front.push(last));
        to_multiset_build(front, last);
    }
}

/// The list of the largest has at most `limit` elements and is sorted
/// descending by size; together with the elements not selected it holds
/// exactly the elements offered; and none of those not selected is larger
/// than any that was selected.
pub proof fn largest_are_optimal(items: Seq<PathSize>, limit: nat)
    ensures
        largest(items, limit).len() <= limit,
        largest(items, limit).len() <= items.len(),
        descending(largest(items, limit)),
        (largest(items, limit) + not_selected(items, limit)).to_multiset() == items.to_multiset(),
        forall|i: int, j: int|
            0 <= i < largest(items, limit).len() && 0 <= j < not_selected(items, limit).len()
                ==> largest(items, limit)[i].size >= not_selected(items, limit)[j].size,
{
    lemma_ranked_descending(items);
    lemma_ranked_holds_all(items);
    let all = ranked(items);
    let top = largest(items, limit);
    let rest = not_selected(items, limit);
    assert(top + rest =~= all);
    assert forall|i: int, j: int| 0 <= i < top.len() && 0 <= j < rest.len() implies top[i].size
        >= rest[j].size by {
        assert(top[i] == all[i]);
        assert(rest[j] == all[limit + j]);
    }
    assert forall|i: int, j: int| 0 <= i <= j < top.len() implies top[i].size >= top[j].size by {
        assert(top[i] == all[i]);
        assert(top[j] == all[j]);
    }
}

/// Two analyses of the same walk with the same options and the same digests
/// agree in every count, total, ranking and duplicate group; only the
/// duration may differ.
pub proof fn analysis_is_repeatable(
    first: SummaryView,
    second: SummaryView,
    root: Seq<char>,
    entries: Seq<EntryView>,
    min: nat,
    limit: nat,
    detect: bool,
    digests: Seq<Seq<Option<Seq<char>>>>,
)
    requires
        first == summary_of(root, entries, min, limit, detect, digests, first.duration),
        second == summary_of(root, entries, min, limit, detect, digests, second.duration),
    ensures
        first == (SummaryView { duration: first.duration, ..second }),
{
}

/// Whether `found` is the report of one of `files` that passes every filter.
pub open spec fn reports_passing_file(
    options: SearchView,
    files: Seq<VisitedView>,
    found: MatchView,
) -> bool {
    exists|i: int|
        0 <= i < files.len() && accepts(options, #[trigger] files[i]) && found == match_of(
            options,
            files[i],
        )
}

/// Every file that a search reports passed every filter, and it is reported
/// as the file that was visited.
pub proof fn found_files_pass(options: SearchView, files: Seq<VisitedView>)
    ensures
        forall|k: int|
            0 <= k < found_files(options, files).len() ==> reports_passing_file(
                options,
                files,
                #[trigger] found_files(options, files)[k],
            ),
    decreases files.len(),
{
    if files.len() > 0 {
        let front = files.drop_last();
        found_files_pass(options, front);
        let found = found_files(options, files);
        assert forall|k: int| 0 <= k < found.len() implies reports_passing_file(
            options,
            files,
            #[trigger] found[k],
        ) by {
            if k < found_files(options, front).len() {
                assert(reports_passing_file(options, front, found_files(options, front)[k]));
                let i = choose|i: int|
                    0 <= i < front.len() && accepts(options, #[trigger] front[i]) && found_files(
                        options,
                        front,
                    )[k] == match_of(options, front[i]);
                assert(files[i] == front[i]);
            } else {
                assert(files[files.len() - 1] == files.last());
            }
        }
    }
}

/// A search looks at no fewer files than it reports.
pub proof fn searched_covers_found(options: SearchView, files: Seq<VisitedView>, duration: Duration)
    ensures
        search_of(options, files, duration).file_searched >= search_of(
            options,
            files,
            duration,
        ).files_result.len(),
    decreases files.len(),
{
    if files.len() > 0 {
        searched_covers_found(options, files.drop_last(), duration);
    }
}

/// A filter that restricts nothing: no name pattern, no text, no bounds.
pub open spec fn unrestricted(options: SearchView) -> bool {
    &&& options.name_pattern.len() == 0
    &&& options.content_pattern is None
    &&& options.modified_after is None
    &&& options.modified_before is None
    &&& options.min_size is None
    &&& options.max_size is None
}

/// With a filter that restricts nothing, every regular file of the walk is
/// reported exactly once: the report lists the files visited, one for one
/// and in order.
pub proof fn unrestricted_search_finds_all(options: SearchView, files: Seq<VisitedView>)
    requires
        unrestricted(options),
    ensures
        found_files(options, files).len() == files.len(),
        forall|i: int|
            0 <= i < files.len() ==> (#[trigger] found_files(options, files)[i]) == match_of(
                options,
                files[i],
            ),
        forall|i: int|
            0 <= i < files.len() ==> (#[trigger] found_files(options, files)[i]).path
                == files[i].path,
    decreases files.len(),
{
    if files.len() > 0 {
        let front = files.drop_last();
        unrestricted_search_finds_all(options, front);
        assert(accepts(options, files.last()));
        let found = found_files(options, files);
        assert forall|i: int| 0 <= i < files.len() implies (#[trigger] found[i]) == match_of(
            options,
            files[i],
        ) by {
            if i < front.len() {
                assert(found_files(options, files)[i] == found_files(options, front)[i]);
                assert(front[i] == files[i]);
            }
        }
    }
}

} // verus!
