use std::time::Duration;

use fs_analyzer::analyzer::{directory_analyzer, scan_entries, Aggregator};
use fs_analyzer::digest::calculate_file_hash;
use fs_analyzer::model::{DirectorySummary, FileType, ScanEntry, SizeBucket};
use fs_analyzer::options::AnalyzeOptions;

fn options(top_n: usize, min_size: Option<u64>, duplicates: bool) -> AnalyzeOptions {
    AnalyzeOptions::new("/R".to_string(), None, top_n, false, min_size, duplicates, Vec::new())
        .unwrap()
}

fn file(path: &str, size: u64) -> ScanEntry {
    ScanEntry::new(path.to_string(), Some(FileType::File), size)
}

fn folder(path: &str) -> ScanEntry {
    ScanEntry::new(path.to_string(), Some(FileType::Dir), 4096)
}

fn symlink(path: &str) -> ScanEntry {
    ScanEntry::new(path.to_string(), Some(FileType::Sym), 7)
}

fn content_of(path: &str) -> Option<Vec<u8>> {
    match path {
        "/R/a" | "/R/b" => Some(vec![7u8; 100]),
        "/R/c" => Some(vec![1u8; 50]),
        _ => None,
    }
}

fn digests_for(candidates: &Vec<SizeBucket>) -> Vec<Vec<Option<String>>> {
    let mut all = Vec::new();
    for bucket in candidates {
        let mut row = Vec::new();
        for path in bucket.paths() {
            row.push(content_of(path).map(|bytes| calculate_file_hash(&vec![bytes])));
        }
        all.push(row);
    }
    all
}

fn analyze(options: &AnalyzeOptions, entries: &Vec<ScanEntry>) -> DirectorySummary {
    let state = scan_entries(options, "/R".to_string(), entries);
    let candidates = state.candidates();
    let digests = digests_for(&candidates);
    state.finish(&digests, Duration::from_millis(5))
}

fn names(summary: &DirectorySummary) -> Vec<(String, u64)> {
    summary.largest_files().iter().map(|f| (f.path().clone(), *f.size())).collect()
}

fn folders(summary: &DirectorySummary) -> Vec<(String, u64)> {
    summary.largest_folders().iter().map(|f| (f.path().clone(), *f.size())).collect()
}

#[test]
fn two_identical_files_and_a_third() {
    let entries = vec![folder("/R"), file("/R/a", 100), file("/R/b", 100), file("/R/c", 50)];
    let summary = analyze(&options(2, None, true), &entries);
    assert_eq!(*summary.file_count(), 3);
    assert_eq!(*summary.total_size(), 250);
    assert_eq!(*summary.folder_count(), 1);
    assert_eq!(*summary.symlink_count(), 0);
    assert_eq!(names(&summary), vec![("/R/a".to_string(), 100), ("/R/b".to_string(), 100)]);
    let groups = summary.duplicates().as_ref().unwrap();
    assert_eq!(groups.len(), 1);
    assert_eq!(groups[0].files(), &vec!["/R/a".to_string(), "/R/b".to_string()]);
    assert_eq!(*groups[0].size(), 100);
    assert_eq!(groups[0].hash(), calculate_file_hash(&vec![vec![7u8; 100]]));
    assert_eq!(summary.duration(), Duration::from_millis(5));
}

#[test]
fn total_is_the_sum_of_the_counted_files() {
    let entries = vec![
        file("/R/a", 10),
        folder("/R/d"),
        file("/R/d/b", 20),
        symlink("/R/l"),
        file("/R/d/c", 5),
        ScanEntry::new("/R/socket".to_string(), None, 99),
    ];
    let summary = analyze(&options(5, None, false), &entries);
    assert_eq!(*summary.total_size(), 35);
    assert_eq!(*summary.file_count(), 3);
    assert_eq!(*summary.folder_count(), 1);
    assert_eq!(*summary.symlink_count(), 1);
}

#[test]
fn files_below_the_minimum_are_left_out() {
    let entries = vec![file("/R/a", 9), file("/R/b", 10), file("/R/c", 11), folder("/R/d")];
    let summary = analyze(&options(5, Some(10), true), &entries);
    assert_eq!(*summary.total_size(), 21);
    assert_eq!(*summary.file_count(), 2);
    assert_eq!(*summary.folder_count(), 1);
    assert_eq!(names(&summary), vec![("/R/c".to_string(), 11), ("/R/b".to_string(), 10)]);
    assert_eq!(folders(&summary), vec![("/R".to_string(), 21)]);
}

#[test]
fn total_does_not_depend_on_the_order() {
    let forward = vec![file("/R/a", 1), file("/R/x/b", 20), folder("/R/x"), file("/R/c", 300)];
    let backward = vec![file("/R/c", 300), folder("/R/x"), file("/R/x/b", 20), file("/R/a", 1)];
    let first = analyze(&options(3, None, false), &forward);
    let second = analyze(&options(3, None, false), &backward);
    assert_eq!(*first.total_size(), 321);
    assert_eq!(*second.total_size(), 321);
    assert_eq!(*first.file_count(), *second.file_count());
}

#[test]
fn folders_hold_the_sum_of_their_subtrees() {
    let entries = vec![
        file("/R/a", 1),
        file("/R/x/b", 20),
        file("/R/x/y/c", 300),
        file("/R/z/d", 4000),
        file("/R/x/y/e", 50000),
    ];
    let summary = analyze(&options(10, None, false), &entries);
    assert_eq!(
        folders(&summary),
        vec![
            ("/R".to_string(), 54321),
            ("/R/x".to_string(), 50320),
            ("/R/x/y".to_string(), 50300),
            ("/R/z".to_string(), 4000),
        ]
    );
    assert_eq!(*summary.total_size(), 54321);
}

#[test]
fn folders_outside_the_root_get_nothing() {
    let entries = vec![file("/R/a", 5), file("/elsewhere/b", 7), file("/Rx/c", 11)];
    let summary = analyze(&options(10, None, false), &entries);
    assert_eq!(*summary.total_size(), 23);
    assert_eq!(folders(&summary), vec![("/R".to_string(), 5)]);
}

#[test]
fn a_folder_without_counted_files_is_not_ranked() {
    let entries = vec![folder("/R"), folder("/R/empty"), file("/R/full/a", 3)];
    let summary = analyze(&options(10, None, false), &entries);
    assert_eq!(*summary.folder_count(), 2);
    assert_eq!(folders(&summary), vec![("/R/full".to_string(), 3), ("/R".to_string(), 3)]);
}

#[test]
fn top_files_are_the_largest_in_descending_order() {
    let entries = vec![
        file("/R/a", 5),
        file("/R/b", 50),
        file("/R/c", 7),
        file("/R/d", 50),
        file("/R/e", 49),
        file("/R/f", 1),
    ];
    let summary = analyze(&options(3, None, false), &entries);
    assert_eq!(
        names(&summary),
        vec![("/R/b".to_string(), 50), ("/R/d".to_string(), 50), ("/R/e".to_string(), 49)]
    );
    let kept = names(&summary);
    for entry in &entries {
        if !kept.iter().any(|(path, _)| path == entry.path()) {
            assert!(kept.iter().all(|(_, size)| *size >= entry.size()));
        }
    }
}

#[test]
fn a_limit_of_zero_ranks_nothing() {
    let entries = vec![file("/R/a", 5), file("/R/b", 50)];
    let summary = analyze(&options(0, None, true), &entries);
    assert!(summary.largest_files().is_empty());
    assert!(summary.largest_folders().is_empty());
    assert_eq!(*summary.total_size(), 55);
    assert_eq!(*summary.file_count(), 2);
}

#[test]
fn fewer_files_than_the_limit_are_all_ranked() {
    let entries = vec![file("/R/a", 5), file("/R/b", 50)];
    let summary = analyze(&options(10, None, false), &entries);
    assert_eq!(names(&summary), vec![("/R/b".to_string(), 50), ("/R/a".to_string(), 5)]);
}

#[test]
fn without_detection_there_is_no_list_of_duplicates() {
    let entries = vec![file("/R/a", 100), file("/R/b", 100)];
    let summary = analyze(&options(2, None, false), &entries);
    assert!(summary.duplicates().is_none());
    let state = scan_entries(&options(2, None, false), "/R".to_string(), &entries);
    assert!(state.candidates().is_empty());
}

#[test]
fn detection_without_duplicates_gives_an_empty_list() {
    let entries = vec![file("/R/a", 100), file("/R/c", 50)];
    let summary = analyze(&options(2, None, true), &entries);
    assert_eq!(summary.duplicates().as_ref().unwrap().len(), 0);
}

#[test]
fn only_sizes_seen_twice_are_candidates() {
    let entries = vec![
        file("/R/a", 100),
        file("/R/c", 50),
        file("/R/b", 100),
        file("/R/d", 7),
        file("/R/e", 7),
        file("/R/f", 100),
    ];
    let state = scan_entries(&options(2, None, true), "/R".to_string(), &entries);
    let candidates = state.candidates();
    assert_eq!(candidates.len(), 2);
    assert_eq!(candidates[0].size(), 100);
    assert_eq!(
        candidates[0].paths(),
        &vec!["/R/a".to_string(), "/R/b".to_string(), "/R/f".to_string()]
    );
    assert_eq!(candidates[1].size(), 7);
    assert_eq!(candidates[1].paths(), &vec!["/R/d".to_string(), "/R/e".to_string()]);
}

#[test]
fn same_size_with_other_content_is_no_duplicate() {
    let entries = vec![file("/R/a", 100), file("/R/other", 100)];
    let state = scan_entries(&options(2, None, true), "/R".to_string(), &entries);
    let digests = vec![vec![Some("one".to_string()), Some("two".to_string())]];
    let summary = state.finish(&digests, Duration::default());
    assert_eq!(summary.duplicates().as_ref().unwrap().len(), 0);
}

#[test]
fn a_file_that_cannot_be_read_leaves_its_group() {
    let entries = vec![file("/R/a", 100), file("/R/b", 100), file("/R/gone", 100)];
    let state = scan_entries(&options(2, None, true), "/R".to_string(), &entries);
    let digests = vec![vec![Some("h".to_string()), Some("h".to_string()), None]];
    let summary = state.finish(&digests, Duration::default());
    let groups = summary.duplicates().as_ref().unwrap();
    assert_eq!(groups.len(), 1);
    assert_eq!(groups[0].files(), &vec!["/R/a".to_string(), "/R/b".to_string()]);
    assert_eq!(groups[0].hash(), "h");
}

#[test]
fn a_group_reduced_to_one_is_not_reported() {
    let entries = vec![file("/R/a", 100), file("/R/gone", 100)];
    let state = scan_entries(&options(2, None, true), "/R".to_string(), &entries);
    let digests = vec![vec![Some("h".to_string()), None]];
    let summary = state.finish(&digests, Duration::default());
    assert_eq!(summary.duplicates().as_ref().unwrap().len(), 0);
}

#[test]
fn missing_digests_stand_for_unreadable_files() {
    let entries = vec![file("/R/a", 100), file("/R/b", 100), file("/R/c", 9), file("/R/d", 9)];
    let state = scan_entries(&options(2, None, true), "/R".to_string(), &entries);
    let digests = vec![vec![Some("h".to_string()), Some("h".to_string())]];
    let summary = state.finish(&digests, Duration::default());
    let groups = summary.duplicates().as_ref().unwrap();
    assert_eq!(groups.len(), 1);
    assert_eq!(*groups[0].size(), 100);
}

#[test]
fn no_two_groups_share_a_member() {
    let entries = vec![
        file("/R/a", 100),
        file("/R/b", 100),
        file("/R/c", 100),
        file("/R/d", 100),
        file("/R/e", 9),
        file("/R/f", 9),
    ];
    let state = scan_entries(&options(2, None, true), "/R".to_string(), &entries);
    let digests = vec![
        vec![
            Some("x".to_string()),
            Some("y".to_string()),
            Some("x".to_string()),
            Some("y".to_string()),
        ],
        vec![Some("x".to_string()), Some("x".to_string())],
    ];
    let summary = state.finish(&digests, Duration::default());
    let groups = summary.duplicates().as_ref().unwrap();
    assert_eq!(groups.len(), 3);
    assert_eq!(groups[0].files(), &vec!["/R/a".to_string(), "/R/c".to_string()]);
    assert_eq!(groups[1].files(), &vec!["/R/b".to_string(), "/R/d".to_string()]);
    assert_eq!(groups[2].files(), &vec!["/R/e".to_string(), "/R/f".to_string()]);
    let mut seen: Vec<&String> = Vec::new();
    for group in groups {
        assert!(group.files().len() >= 2);
        for path in group.files() {
            assert!(!seen.contains(&path));
            seen.push(path);
        }
    }
}

#[test]
fn two_runs_agree() {
    let entries = vec![
        folder("/R"),
        file("/R/a", 100),
        file("/R/b", 100),
        file("/R/c", 50),
        symlink("/R/l"),
    ];
    let first = analyze(&options(2, None, true), &entries);
    let second = analyze(&options(2, None, true), &entries);
    assert_eq!(*first.total_size(), *second.total_size());
    assert_eq!(*first.file_count(), *second.file_count());
    assert_eq!(*first.folder_count(), *second.folder_count());
    assert_eq!(*first.symlink_count(), *second.symlink_count());
    assert_eq!(first.largest_files(), second.largest_files());
    assert_eq!(first.largest_folders(), second.largest_folders());
    let one = first.duplicates().as_ref().unwrap();
    let two = second.duplicates().as_ref().unwrap();
    assert_eq!(one.len(), two.len());
    assert_eq!(one[0].files(), two[0].files());
    assert_eq!(one[0].hash(), two[0].hash());
}

#[test]
fn observing_step_by_step_matches_the_batch() {
    let entries = vec![file("/R/a", 3), folder("/R/x"), file("/R/x/b", 4)];
    let mut state = Aggregator::new(&options(5, None, false), "/R".to_string());
    for entry in &entries {
        assert!(state.try_observe(entry));
    }
    let summary = state.finish(&Vec::new(), Duration::default());
    assert_eq!(*summary.total_size(), 7);
    assert_eq!(folders(&summary), vec![("/R".to_string(), 7), ("/R/x".to_string(), 4)]);
}

#[test]
fn an_entry_that_would_overflow_is_not_taken() {
    let mut state = Aggregator::new(&options(5, None, false), "/R".to_string());
    assert!(state.try_observe(&file("/R/a", u64::MAX - 1)));
    assert!(!state.try_observe(&file("/R/b", 2)));
    assert!(state.try_observe(&file("/R/c", 1)));
    assert!(state.try_observe(&folder("/R/d")));
    let summary = state.finish(&Vec::new(), Duration::default());
    assert_eq!(*summary.total_size(), u64::MAX);
    assert_eq!(*summary.file_count(), 2);
    assert_eq!(*summary.folder_count(), 1);
}

#[test]
fn summary_counters_move_by_one() {
    let mut summary =
        DirectorySummary::new(1, 2, 3, 4, Duration::from_secs(1), Vec::new(), Vec::new(), None);
    summary.add_to_total_size(10);
    summary.increment_file_count();
    summary.increment_folder_count();
    summary.increment_symlink_count();
    summary.set_duration(Duration::from_secs(9));
    assert_eq!(*summary.total_size(), 11);
    assert_eq!(*summary.file_count(), 3);
    assert_eq!(*summary.folder_count(), 4);
    assert_eq!(*summary.symlink_count(), 5);
    assert_eq!(summary.duration(), Duration::from_secs(9));
    assert!(summary.duplicates().is_none());
    *summary.duplicates_mut() = Some(Vec::new());
    assert_eq!(summary.duplicates().as_ref().unwrap().len(), 0);
}

#[test]
fn analysis_in_one_call() {
    let entries = vec![folder("/R"), file("/R/a", 100), file("/R/b", 100), file("/R/c", 50)];
    let same = calculate_file_hash(&vec![vec![7u8; 100]]);
    let other = calculate_file_hash(&vec![vec![1u8; 50]]);
    let digests = vec![None, Some(same.clone()), Some(same.clone()), Some(other)];
    let summary = directory_analyzer(
        &options(2, None, true),
        "/R".to_string(),
        &entries,
        &digests,
        Duration::from_secs(1),
    );
    assert_eq!(*summary.file_count(), 3);
    assert_eq!(*summary.total_size(), 250);
    assert_eq!(names(&summary), vec![("/R/a".to_string(), 100), ("/R/b".to_string(), 100)]);
    assert_eq!(folders(&summary), vec![("/R".to_string(), 250)]);
    let groups = summary.duplicates().as_ref().unwrap();
    assert_eq!(groups.len(), 1);
    assert_eq!(groups[0].files(), &vec!["/R/a".to_string(), "/R/b".to_string()]);
    assert_eq!(*groups[0].size(), 100);
    assert_eq!(groups[0].hash(), same);
    assert_eq!(summary.duration(), Duration::from_secs(1));
}

#[test]
fn digests_are_sorted_to_their_buckets() {
    let entries = vec![
        file("/R/a", 10),
        file("/R/small", 1),
        file("/R/b", 20),
        folder("/R/d"),
        file("/R/c", 10),
        file("/R/e", 20),
        file("/R/f", 20),
        file("/R/g", 30),
    ];
    let digests = vec![
        Some("x".to_string()),
        Some("x".to_string()),
        Some("y".to_string()),
        Some("x".to_string()),
        Some("x".to_string()),
        None,
        Some("y".to_string()),
    ];
    let summary = directory_analyzer(
        &options(1, Some(5), true),
        "/R".to_string(),
        &entries,
        &digests,
        Duration::default(),
    );
    let groups = summary.duplicates().as_ref().unwrap();
    assert_eq!(groups.len(), 2);
    assert_eq!(groups[0].files(), &vec!["/R/a".to_string(), "/R/c".to_string()]);
    assert_eq!(groups[0].hash(), "x");
    assert_eq!(*groups[0].size(), 10);
    assert_eq!(groups[1].files(), &vec!["/R/b".to_string(), "/R/f".to_string()]);
    assert_eq!(groups[1].hash(), "y");
    assert_eq!(*groups[1].size(), 20);
    assert_eq!(*summary.file_count(), 6);
    let plain = directory_analyzer(
        &options(1, Some(5), false),
        "/R".to_string(),
        &entries,
        &digests,
        Duration::default(),
    );
    assert!(plain.duplicates().is_none());
}

#[test]
fn many_folders_and_sizes_are_found_again() {
    let mut entries = Vec::new();
    for round in 0..3u64 {
        for folder in 0..40u64 {
            entries.push(file(&format!("/R/d{}/f{}", folder, round), folder + 1));
        }
    }
    let state = scan_entries(&options(100, None, true), "/R".to_string(), &entries);
    let candidates = state.candidates();
    assert_eq!(candidates.len(), 40);
    for (place, bucket) in candidates.iter().enumerate() {
        assert_eq!(bucket.size(), place as u64 + 1);
        assert_eq!(bucket.paths().len(), 3);
    }
    let summary = state.finish(&Vec::new(), Duration::default());
    let ranked = folders(&summary);
    assert_eq!(ranked.len(), 41);
    assert_eq!(ranked[0], ("/R".to_string(), 3 * 820));
    assert_eq!(ranked[1], ("/R/d39".to_string(), 120));
    assert_eq!(ranked[40], ("/R/d0".to_string(), 3));
}

#[test]
fn a_folder_of_empty_files_has_size_zero() {
    let entries = vec![file("/R/x/empty", 0), file("/R/x/void", 0), file("/R/y/full", 4)];
    let summary = analyze(&options(10, None, true), &entries);
    assert_eq!(*summary.file_count(), 3);
    assert_eq!(*summary.total_size(), 4);
    assert_eq!(
        folders(&summary),
        vec![("/R".to_string(), 4), ("/R/y".to_string(), 4), ("/R/x".to_string(), 0)]
    );
    let candidates =
        scan_entries(&options(10, None, true), "/R".to_string(), &entries).candidates();
    assert_eq!(candidates.len(), 1);
    assert_eq!(candidates[0].size(), 0);
}

#[test]
fn the_root_holds_the_total_when_all_files_lie_under_it() {
    let entries = vec![
        file("/R/a", 1),
        file("/R/x/b", 2),
        file("/R/x/y/z/c", 4),
        folder("/R/x"),
        symlink("/R/s"),
    ];
    let summary = analyze(&options(10, None, false), &entries);
    let ranked = folders(&summary);
    let root = ranked.iter().find(|(path, _)| path == "/R").unwrap();
    assert_eq!(root.1, *summary.total_size());
    assert_eq!(root.1, 7);
}
