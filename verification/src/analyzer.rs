//! The analysis of a walk: one pass over its entries that counts, sums, ranks
//! and buckets, and a finish that adds the duplicate groups.

use vstd::prelude::*;
use std::time::Duration;
use crate::census::{
    counted, counted_files, counted_total, crowded, folder_tally, kind_count,
    lemma_counted_total_prefix, lemma_counts_bounded, lemma_uncounted, size_buckets,
};
use crate::duplicates::{all_duplicates, digest_at, digest_lists, find_duplicates};
use crate::group_laws::{distinct_sizes, lemma_crowded, lemma_size_buckets};
use crate::keyindex::KeyIndex;
use crate::model::{
    digest_texts, texts, views, BucketView, DirectorySummary, DuplicateGroup, EntryView,
    FileType, GroupView, PathSize, ScanEntry, SizeBucket, SummaryView,
};
use crate::options::AnalyzeOptions;
use crate::paths::ancestor_folders;
use crate::ranking::largest;
use crate::selector::TopSelector;
use crate::tally::{add_to_bucket, credit_chain, BucketList, FolderTally};

verus! {

/// `Duration::default` of std: some duration; nothing is claimed of it.
pub assume_specification[ <Duration as core::default::Default>::default ]() -> Duration;

/// The size below which a file does not count: zero where none was asked for.
pub open spec fn threshold_of(min_size: Option<u64>) -> nat {
    match min_size {
        Some(size) => size as nat,
        None => 0,
    }
}

/// The buckets an analysis keeps: those of the counted files where duplicate
/// detection was asked for, none where it was not.
pub open spec fn kept_buckets(entries: Seq<EntryView>, min: nat, detect: bool) -> Seq<BucketView> {
    if detect {
        size_buckets(entries, min)
    } else {
        Seq::empty()
    }
}

/// The summary of a walk of `entries` below `root`: totals and counts of the
/// counted files, the `limit` largest files and folders, and, where asked
/// for, the duplicate groups that the given digests make of the crowded
/// buckets.
pub open spec fn summary_of(
    root: Seq<char>,
    entries: Seq<EntryView>,
    min: nat,
    limit: nat,
    detect: bool,
    digests: Seq<Seq<Option<Seq<char>>>>,
    duration: Duration,
) -> SummaryView {
    SummaryView {
        total_size: counted_total(entries, min),
        file_count: counted_files(entries, min).len(),
        folder_count: kind_count(entries, FileType::Dir),
        symlink_count: kind_count(entries, FileType::Sym),
        duration,
        largest_files: largest(counted_files(entries, min), limit),
        largest_folders: largest(folder_tally(root, entries, min), limit),
        duplicates: if detect {
            Some(all_duplicates(crowded(size_buckets(entries, min)), digests))
        } else {
            None
        },
    }
}

/// The state of an analysis while the walk goes on. It holds the running
/// totals, the largest files so far, the total of every folder and, where
/// duplicates are looked for, the size buckets; it does not hold the entries.
pub struct Aggregator {
    root: String,
    min_size: u64,
    detect: bool,
    summary: DirectorySummary,
    top_files: TopSelector,
    folders: FolderTally,
    buckets: BucketList,
    seen: Ghost<Seq<EntryView>>,
}

impl Aggregator {
    /// The entries taken in so far, in order.
    pub closed spec fn entries(&self) -> Seq<EntryView> {
        self.seen@
    }

    /// The root of the walk.
    pub closed spec fn root(&self) -> Seq<char> {
        self.root@
    }

    /// The size below which a file does not count.
    pub closed spec fn threshold(&self) -> nat {
        self.min_size as nat
    }

    /// How many of the largest files and folders are reported.
    pub closed spec fn limit(&self) -> nat {
        self.top_files.limit()
    }

    /// Whether duplicates are looked for.
    pub closed spec fn detects(&self) -> bool {
        self.detect
    }

    /// The running totals and counts.
    pub closed spec fn totals(&self) -> SummaryView {
        self.summary@
    }

    /// Every part of the state is what the entries taken in so far make it.
    pub closed spec fn wf(&self) -> bool {
        let min = self.min_size as nat;
        &&& self.summary@.total_size == counted_total(self.seen@, min)
        &&& self.summary@.file_count == counted_files(self.seen@, min).len()
        &&& self.summary@.folder_count == kind_count(self.seen@, FileType::Dir)
        &&& self.summary@.symlink_count == kind_count(self.seen@, FileType::Sym)
        &&& self.summary@.largest_files == Seq::<PathSize>::empty()
        &&& self.summary@.largest_folders == Seq::<PathSize>::empty()
        &&& self.summary@.duplicates == if self.detect {
            Some(Seq::<GroupView>::empty())
        } else {
            None
        }
        &&& self.top_files.wf()
        &&& self.top_files.offered() == counted_files(self.seen@, min)
        &&& self.folders.wf()
        &&& self.buckets.wf()
        &&& views(self.folders.items()) == folder_tally(self.root@, self.seen@, min)
        &&& views(self.buckets.items()) == kept_buckets(self.seen@, min, self.detect)
    }

    /// The totals of a well-formed state are those of its entries.
    pub proof fn lemma_totals(&self)
        requires
            self.wf(),
        ensures
            self.totals().total_size == counted_total(self.entries(), self.threshold()),
            self.totals().file_count == counted_files(self.entries(), self.threshold()).len(),
            self.totals().folder_count == kind_count(self.entries(), FileType::Dir),
            self.totals().symlink_count == kind_count(self.entries(), FileType::Sym),
    {
    }

    /// Whether `entry` can be taken in without a total or a count leaving the
    /// range of `u64`.
    pub open spec fn has_room_for(&self, entry: EntryView) -> bool {
        &&& counted(entry, self.threshold()) ==> self.totals().total_size + entry.size <= u64::MAX
            && self.totals().file_count < u64::MAX
        &&& entry.kind == Some(FileType::Dir) ==> self.totals().folder_count < u64::MAX
        &&& entry.kind == Some(FileType::Sym) ==> self.totals().symlink_count < u64::MAX
    }

    /// The state before the first entry of a walk below `root`.
    pub fn new(options: &AnalyzeOptions, root: String) -> (state: Self)
        ensures
            state.wf(),
            state.entries() == Seq::<EntryView>::empty(),
            state.root() == root@,
            state.threshold() == threshold_of(options@.min_size),
            state.limit() == options@.top_n,
            state.detects() == options@.detect_duplicates,
    {
        let detect = options.detect_duplicates();
        let min_size: u64 = match options.min_size() {
            Some(size) => size,
            None => 0,
        };
        let found: Option<Vec<DuplicateGroup>> = if detect {
            let none: Vec<DuplicateGroup> = Vec::new();
            assert(views(none@) =~= Seq::<GroupView>::empty());
            Some(none)
        } else {
            None
        };
        let summary = DirectorySummary::new(
            0,
            0,
            0,
            0,
            Duration::default(),
            Vec::new(),
            Vec::new(),
            found,
        );
        let state = Aggregator {
            root,
            min_size,
            detect,
            summary,
            top_files: TopSelector::new(options.top_n()),
            folders: FolderTally::new(),
            buckets: BucketList::new(),
            seen: Ghost(Seq::empty()),
        };
        proof {
            let min = min_size as nat;
            assert(state.summary@.largest_files =~= Seq::<PathSize>::empty());
            assert(state.summary@.largest_folders =~= Seq::<PathSize>::empty());
            assert(views(state.folders.items()) =~= folder_tally(state.root@, state.seen@, min));
            assert(views(state.buckets.items()) =~= kept_buckets(state.seen@, min, detect));
        }
        state
    }

    /// Takes in the next entry of the walk. A regular file of at least the
    /// threshold adds its size to the total and to each of its ancestor
    /// folders within the root, competes for the largest files and, where
    /// duplicates are looked for, joins the bucket of its size; a smaller one
    /// changes nothing. A folder or a symlink adds one to its count.
    pub fn observe(&mut self, entry: &ScanEntry)
        requires
            old(self).wf(),
            old(self).has_room_for(entry@),
        ensures
            final(self).wf(),
            final(self).entries() == old(self).entries().push(entry@),
            final(self).root() == old(self).root(),
            final(self).threshold() == old(self).threshold(),
            final(self).limit() == old(self).limit(),
            final(self).detects() == old(self).detects(),
    {
        let ghost front = self.seen@;
        let ghost all = front.push(entry@);
        let ghost min = self.min_size as nat;
        proof {
            assert(all.drop_last() =~= front);
            assert(all.last() == entry@);
        }
        let size = entry.size();
        if entry.kind() == Some(FileType::File) && size >= self.min_size {
            self.summary.add_to_total_size(size);
            self.summary.increment_file_count();
            if self.detect {
                add_to_bucket(
                    &mut self.buckets,
                    entry.path().clone(),
                    size,
                    Ghost(front),
                    Ghost(min),
                    Ghost(entry@),
                );
            }
            self.top_files.push(entry.path().clone(), size);
            let chain = ancestor_folders(self.root.as_str(), entry.path().as_str());
            credit_chain(
                &mut self.folders,
                &chain,
                size,
                Ghost(self.root@),
                Ghost(front),
                Ghost(min),
                Ghost(entry@),
            );
        } else {
            proof {
                lemma_uncounted(self.root@, front, entry@, min);
            }
            match entry.kind() {
                Some(FileType::Dir) => {
                    self.summary.increment_folder_count();
                },
                Some(FileType::Sym) => {
                    self.summary.increment_symlink_count();
                },
                _ => {},
            }
        }
        self.seen = Ghost(all);
    }

    /// Takes in the next entry if no total or count would leave the range of
    /// `u64`, and says whether it did; if not, the state is unchanged.
    pub fn try_observe(&mut self, entry: &ScanEntry) -> (taken: bool)
        requires
            old(self).wf(),
        ensures
            final(self).wf(),
            taken == old(self).has_room_for(entry@),
            taken ==> final(self).entries() == old(self).entries().push(entry@),
            !taken ==> final(self).entries() == old(self).entries(),
            final(self).root() == old(self).root(),
            final(self).threshold() == old(self).threshold(),
            final(self).limit() == old(self).limit(),
            final(self).detects() == old(self).detects(),
    {
        let room = match entry.kind() {
            Some(FileType::File) => entry.size() < self.min_size || (entry.size() <= u64::MAX
                - *self.summary.total_size() && *self.summary.file_count() < u64::MAX),
            Some(FileType::Dir) => *self.summary.folder_count() < u64::MAX,
            Some(FileType::Sym) => *self.summary.symlink_count() < u64::MAX,
            None => true,
        };
        if room {
            self.observe(entry);
        }
        room
    }

    /// The buckets that hold more than one file: the files whose content has
    /// to be read. There are none where duplicates are not looked for.
    pub fn candidates(&self) -> (buckets: Vec<SizeBucket>)
        requires
            self.wf(),
        ensures
            views(buckets@) == crowded(
                kept_buckets(self.entries(), self.threshold(), self.detects()),
            ),
    {
        let mut chosen: Vec<SizeBucket> = Vec::new();
        let buckets = self.buckets.as_vec();
        let ghost all = views(buckets@);
        let mut i: usize = 0;
        proof {
            assert(all.take(0) =~= Seq::<BucketView>::empty());
            assert(views(chosen@) =~= crowded(all.take(0)));
        }
        while i < buckets.len()
            invariant
                i <= buckets.len(),
                all == views(buckets@),
                views(chosen@) == crowded(all.take(i as int)),
            decreases buckets.len() - i,
        {
            let bucket = &buckets[i];
            let paths = bucket.paths();
            proof {
                assert(all.take(i + 1).drop_last() =~= all.take(i as int));
                assert(all.take(i + 1).last() == bucket@);
                assert(paths@.len() == texts(paths@).len());
            }
            if paths.len() > 1 {
                let ghost before = views(chosen@);
                chosen.push(SizeBucket::new(bucket.size(), copy_texts(paths)));
                assert(views(chosen@) =~= before.push(bucket@));
            }
            i = i + 1;
        }
        proof {
            assert(all.take(i as int) =~= all);
        }
        chosen
    }

    /// Ends the analysis: ranks the folders, groups the candidates by the
    /// digests given for them (one list for each candidate bucket, one digest
    /// for each of its files, in their order; a missing digest stands for a
    /// file that could not be read) and stamps the duration.
    pub fn finish(self, digests: &Vec<Vec<Option<String>>>, duration: Duration) -> (summary:
        DirectorySummary)
        requires
            self.wf(),
        ensures
            summary@ == summary_of(
                self.root(),
                self.entries(),
                self.threshold(),
                self.limit(),
                self.detects(),
                digest_lists(digests@),
                duration,
            ),
    {
        let found: Option<Vec<DuplicateGroup>> = if self.detect {
            let chosen = self.candidates();
            Some(find_duplicates(&chosen, digests))
        } else {
            None
        };
        let Aggregator { summary, top_files, folders, .. } = self;
        let limit: usize = top_files.capacity();
        let folders = folders.as_vec();
        let mut top_folders = TopSelector::new(limit);
        let mut i: usize = 0;
        proof {
            assert(views(folders@).take(0) =~= Seq::<PathSize>::empty());
        }
        while i < folders.len()
            invariant
                i <= folders.len(),
                top_folders.wf(),
                top_folders.limit() == limit,
                top_folders.offered() == views(folders@).take(i as int),
            decreases folders.len() - i,
        {
            top_folders.push(folders[i].path().clone(), *folders[i].size());
            assert(top_folders.offered() =~= views(folders@).take(i + 1)) by {
                assert(views(folders@)[i as int] == folders[i as int]@);
            }
            i = i + 1;
        }
        proof {
            assert(views(folders@).take(i as int) =~= views(folders@));
        }
        let mut summary = summary;
        summary.set_largest_files(top_files.into_sorted_vec());
        summary.set_largest_folders(top_folders.into_folders());
        summary.set_duration(duration);
        let slot = summary.duplicates_mut();
        *slot = found;
        summary
    }
}

/// A copy of a list of texts.
fn copy_texts(items: &Vec<String>) -> (copy: Vec<String>)
    ensures
        texts(copy@) == texts(items@),
{
    let mut copy: Vec<String> = Vec::new();
    let mut i: usize = 0;
    while i < items.len()
        invariant
            i <= items.len(),
            copy.len() == i,
            forall|j: int| 0 <= j < i ==> copy[j]@ == items[j]@,
        decreases items.len() - i,
    {
        copy.push(items[i].clone());
        i = i + 1;
    }
    assert(texts(copy@) =~= texts(items@));
    copy
}

/// Takes in all the entries of a walk below `root`, in order.
pub fn scan_entries(options: &AnalyzeOptions, root: String, entries: &Vec<ScanEntry>) -> (state:
    Aggregator)
    requires
        entries.len() < u64::MAX,
        counted_total(views(entries@), threshold_of(options@.min_size)) <= u64::MAX,
    ensures
        state.wf(),
        state.entries() == views(entries@),
        state.root() == root@,
        state.threshold() == threshold_of(options@.min_size),
        state.limit() == options@.top_n,
        state.detects() == options@.detect_duplicates,
{
    let mut state = Aggregator::new(options, root);
    let ghost all = views(entries@);
    let ghost min = threshold_of(options@.min_size);
    let mut i: usize = 0;
    proof {
        assert(all.take(0) =~= Seq::<EntryView>::empty());
    }
    while i < entries.len()
        invariant
            i <= entries.len(),
            entries.len() < u64::MAX,
            all == views(entries@),
            counted_total(all, min) <= u64::MAX,
            state.wf(),
            state.entries() == all.take(i as int),
            state.root() == root@,
            state.threshold() == min,
            state.limit() == options@.top_n,
            state.detects() == options@.detect_duplicates,
        decreases entries.len() - i,
    {
        proof {
            state.lemma_totals();
            lemma_counts_bounded(all.take(i as int), min);
            lemma_counted_total_prefix(all, min, i + 1);
            assert(all.take(i + 1).drop_last() =~= all.take(i as int));
            assert(all.take(i + 1).last() == entries[i as int]@);
            assert(all.take(i + 1) =~= all.take(i as int).push(entries[i as int]@));
        }
        state.observe(&entries[i]);
        i = i + 1;
    }
    proof {
        assert(all.take(i as int) =~= all);
    }
    state
}

/// The digests of the counted files of `size` bytes, in the order of the
/// walk, where the digest of an entry stands at the entry's place in
/// `digests`; an entry beyond the end of the list has none.
pub open spec fn digests_of_size(
    entries: Seq<EntryView>,
    min: nat,
    digests: Seq<Option<Seq<char>>>,
    size: nat,
) -> Seq<Option<Seq<char>>>
    decreases entries.len(),
{
    if entries.len() == 0 {
        Seq::empty()
    } else if counted(entries.last(), min) && entries.last().size == size {
        digests_of_size(entries.drop_last(), min, digests, size).push(
            digest_at(digests, entries.len() - 1),
        )
    } else {
        digests_of_size(entries.drop_last(), min, digests, size)
    }
}

/// For each crowded bucket the digests of its files, taken from a list that
/// holds a digest for every entry of the walk.
pub open spec fn candidate_digests(
    entries: Seq<EntryView>,
    min: nat,
    digests: Seq<Option<Seq<char>>>,
) -> Seq<Seq<Option<Seq<char>>>> {
    Seq::new(
        crowded(size_buckets(entries, min)).len(),
        |b: int|
            digests_of_size(entries, min, digests, crowded(size_buckets(entries, min))[b].size),
    )
}

/// Sorts the digests of the entries into one list for each of the chosen
/// buckets.
fn digest_rows(
    entries: &Vec<ScanEntry>,
    digests: &Vec<Option<String>>,
    chosen: &Vec<SizeBucket>,
    min_size: u64,
) -> (rows: Vec<Vec<Option<String>>>)
    requires
        distinct_sizes(views(chosen@)),
    ensures
        rows.len() == chosen.len(),
        forall|b: int|
            0 <= b < chosen.len() ==> digest_texts((#[trigger] rows[b])@) == digests_of_size(
                views(entries@),
                min_size as nat,
                digest_texts(digests@),
                chosen[b]@.size,
            ),
{
    let ghost all = views(entries@);
    let ghost given = digest_texts(digests@);
    let ghost min = min_size as nat;
    let mut index = KeyIndex::new();
    let mut rows: Vec<Vec<Option<String>>> = Vec::new();
    let mut b: usize = 0;
    while b < chosen.len()
        invariant
            b <= chosen.len(),
            index.wf(),
            index.keys().len() == b,
            forall|c: int| 0 <= c < b ==> #[trigger] index.keys()[c] == chosen[c]@.size,
            rows.len() == b,
            forall|c: int| 0 <= c < b ==> (#[trigger] rows[c])@.len() == 0,
        decreases chosen.len() - b,
    {
        index.add(chosen[b].size());
        rows.push(Vec::new());
        b = b + 1;
    }
    let mut i: usize = 0;
    proof {
        assert(all.take(0) =~= Seq::<EntryView>::empty());
        assert forall|c: int| 0 <= c < chosen.len() implies digest_texts((#[trigger] rows[c])@)
            == digests_of_size(all.take(0), min, given, chosen[c]@.size) by {
            assert(digest_texts(rows[c]@) =~= Seq::<Option<Seq<char>>>::empty());
        }
    }
    while i < entries.len()
        invariant
            i <= entries.len(),
            all == views(entries@),
            given == digest_texts(digests@),
            min == min_size as nat,
            distinct_sizes(views(chosen@)),
            index.wf(),
            index.keys().len() == chosen.len(),
            forall|c: int| 0 <= c < chosen.len() ==> #[trigger] index.keys()[c] == chosen[c]@.size,
            rows.len() == chosen.len(),
            forall|c: int|
                0 <= c < chosen.len() ==> digest_texts((#[trigger] rows[c])@) == digests_of_size(
                    all.take(i as int),
                    min,
                    given,
                    chosen[c]@.size,
                ),
        decreases entries.len() - i,
    {
        let entry = &entries[i];
        let ghost before = rows@;
        proof {
            assert(all.take(i + 1).drop_last() =~= all.take(i as int));
            assert(all.take(i + 1).last() == entry@);
        }
        let mut at: Option<usize> = None;
        if entry.kind() == Some(FileType::File) && entry.size() >= min_size {
            at = index.first(entry.size());
            proof {
                if at is None {
                    assert forall|c: int| 0 <= c < chosen.len() implies chosen[c]@.size
                        != entry@.size by {
                        if chosen[c]@.size == entry@.size {
                            assert(index.keys()[c] == entry@.size);
                            index.lemma_nothing_from_none(c);
                        }
                    }
                }
            }
        }
        match at {
            Some(place) => {
                let digest: Option<String> = if i < digests.len() {
                    match &digests[i] {
                        Some(text) => Some(text.clone()),
                        None => None,
                    }
                } else {
                    None
                };
                let ghost row = rows[place as int]@;
                rows[place].push(digest);
                proof {
                    assert(digest_texts(rows[place as int]@) =~= digest_texts(row).push(
                        digest_at(given, i as int),
                    ));
                    assert forall|c: int| 0 <= c < chosen.len() implies digest_texts(
                        (#[trigger] rows[c])@,
                    ) == digests_of_size(all.take(i + 1), min, given, chosen[c]@.size) by {
                        if c != place {
                            assert(rows[c] == before[c]);
                            assert(views(chosen@)[c].size != views(chosen@)[place as int].size);
                        }
                    }
                }
            },
            None => {},
        }
        i = i + 1;
    }
    proof {
        assert(all.take(i as int) =~= all);
    }
    rows
}

/// Analyses a walk in one go: takes in the entries below `root`, groups the
/// candidates for duplicates by the digests given, one for each entry of the
/// walk and at its place (a missing digest stands for a file that could not
/// be read), and reports the summary.
pub fn directory_analyzer(
    option: &AnalyzeOptions,
    root: String,
    entries: &Vec<ScanEntry>,
    digests: &Vec<Option<String>>,
    duration: Duration,
) -> (summary: DirectorySummary)
    requires
        entries.len() < u64::MAX,
        counted_total(views(entries@), threshold_of(option@.min_size)) <= u64::MAX,
    ensures
        summary@ == summary_of(
            root@,
            views(entries@),
            threshold_of(option@.min_size),
            option@.top_n as nat,
            option@.detect_duplicates,
            candidate_digests(
                views(entries@),
                threshold_of(option@.min_size),
                digest_texts(digests@),
            ),
            duration,
        ),
{
    let min_size: u64 = match option.min_size() {
        Some(size) => size,
        None => 0,
    };
    let state = scan_entries(option, root, entries);
    let rows: Vec<Vec<Option<String>>> = if option.detect_duplicates() {
        let chosen = state.candidates();
        proof {
            lemma_size_buckets(views(entries@), min_size as nat);
            lemma_crowded(size_buckets(views(entries@), min_size as nat));
        }
        let rows = digest_rows(entries, digests, &chosen, min_size);
        proof {
            assert(digest_lists(rows@) =~= candidate_digests(
                views(entries@),
                min_size as nat,
                digest_texts(digests@),
            )) by {
                let wanted = candidate_digests(
                    views(entries@),
                    min_size as nat,
                    digest_texts(digests@),
                );
                assert forall|b: int| 0 <= b < chosen.len() implies digest_lists(rows@)[b]
                    == wanted[b] by {
                    assert(views(chosen@)[b] == chosen[b]@);
                }
            }
        }
        rows
    } else {
        Vec::new()
    };
    state.finish(&rows, duration)
}

} // verus!
