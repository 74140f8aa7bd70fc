use std::time::Duration;

use fs_analyzer::search::{
    file_finder, FileInfoSearch, FileTime, SearchOptions, SearchResult, SearchRun, VisitedFile,
};

fn filter(
    names: &[&str],
    content: Option<&str>,
    after: Option<FileTime>,
    before: Option<FileTime>,
    min: Option<u64>,
    max: Option<u64>,
) -> SearchOptions {
    SearchOptions::new(
        "/R".to_string(),
        names.iter().map(|n| n.to_string()).collect(),
        content.map(|c| c.to_string()),
        after,
        before,
        min,
        max,
    )
    .unwrap()
}

fn visited(path: &str, size: u64, seconds: i64, lines: &[&str]) -> VisitedFile {
    VisitedFile::new(
        path.to_string(),
        size,
        FileTime::new(seconds, 0),
        lines.iter().map(|l| l.to_string()).collect(),
    )
}

fn paths(result: &SearchResult) -> Vec<(String, u64)> {
    result.files_result().iter().map(|f| (f.path().clone(), *f.size())).collect()
}

#[test]
fn log_files_above_a_kilobyte() {
    let options = filter(&["*.log"], None, None, None, Some(1024), None);
    let files = vec![
        visited("/R/big/app.log", 2048, 0, &[]),
        visited("/R/small/app.log", 500, 0, &[]),
        visited("/R/readme.txt", 4096, 0, &[]),
    ];
    let result = file_finder(&options, &files, Duration::from_millis(3));
    assert_eq!(paths(&result), vec![("/R/big/app.log".to_string(), 2048)]);
    assert_eq!(*result.file_searched(), 3);
    assert_eq!(*result.total_size(), 2048);
    assert_eq!(*result.search_time(), Duration::from_millis(3));
}

#[test]
fn the_seventh_line_holds_the_text() {
    let options = filter(&[], Some("ERROR"), None, None, None, None);
    let lines =
        ["one", "two", "three", "four", "five", "six", "an ERROR here", "eight", "ERROR", "ten"];
    let files = vec![visited("/R/app.log", 10, 0, &lines)];
    let result = file_finder(&options, &files, Duration::default());
    assert_eq!(result.files_result().len(), 1);
    let content = result.files_result()[0].content().as_ref().unwrap();
    assert_eq!(content.0, 7);
    assert_eq!(content.1, "an ERROR here");
}

#[test]
fn a_long_line_is_shown_as_an_excerpt() {
    let options = filter(&[], Some("ERROR"), None, None, None, None);
    let long = format!("{}ERROR{}", "a".repeat(40), "b".repeat(40));
    let files = vec![visited("/R/app.log", 10, 0, &["nothing", long.as_str()])];
    let result = file_finder(&options, &files, Duration::default());
    let content = result.files_result()[0].content().as_ref().unwrap();
    assert_eq!(content.0, 2);
    let expected = format!("...{}ERROR{}...", "a".repeat(22), "b".repeat(23));
    assert_eq!(content.1, expected);
    let window = &content.1[3..content.1.len() - 3];
    assert_eq!(window.len(), 50);
    assert!(window.contains("ERROR"));
}

#[test]
fn a_file_without_the_text_is_not_found() {
    let options = filter(&[], Some("ERROR"), None, None, None, None);
    let files = vec![
        visited("/R/quiet.log", 10, 0, &["all is well", "error in lower case"]),
        visited("/R/unreadable.bin", 10, 0, &[]),
    ];
    let result = file_finder(&options, &files, Duration::default());
    assert!(result.files_result().is_empty());
    assert_eq!(*result.file_searched(), 2);
    assert_eq!(*result.total_size(), 0);
}

#[test]
fn without_a_text_no_line_is_reported() {
    let options = filter(&[], None, None, None, None, None);
    let files = vec![visited("/R/a", 1, 0, &["ERROR"])];
    let result = file_finder(&options, &files, Duration::default());
    assert!(result.files_result()[0].content().is_none());
}

#[test]
fn an_unrestricted_search_finds_every_file_once() {
    let options = filter(&[], None, None, None, None, None);
    let files = vec![
        visited("/R/a", 1, 5, &[]),
        visited("/R/b", 0, 6, &[]),
        visited("/R/c/d", 3, 7, &["text"]),
    ];
    let result = file_finder(&options, &files, Duration::default());
    assert_eq!(
        paths(&result),
        vec![("/R/a".to_string(), 1), ("/R/b".to_string(), 0), ("/R/c/d".to_string(), 3)]
    );
    assert_eq!(*result.file_searched(), 3);
    assert_eq!(*result.total_size(), 4);
    assert_eq!(*result.files_result()[2].modified_date(), FileTime::new(7, 0));
}

#[test]
fn every_found_file_passes_every_filter() {
    let options = filter(
        &["*.rs", "*.toml"],
        Some("fn"),
        Some(FileTime::new(100, 0)),
        Some(FileTime::new(200, 0)),
        Some(10),
        Some(1000),
    );
    let files = vec![
        visited("/R/a.rs", 50, 150, &["fn main"]),
        visited("/R/b.txt", 50, 150, &["fn main"]),
        visited("/R/c.rs", 50, 150, &["nothing"]),
        visited("/R/d.rs", 50, 100, &["fn main"]),
        visited("/R/e.rs", 50, 200, &["fn main"]),
        visited("/R/f.rs", 10, 150, &["fn main"]),
        visited("/R/g.rs", 1000, 150, &["fn main"]),
        visited("/R/h.toml", 999, 199, &["[x]", "fn"]),
    ];
    let result = file_finder(&options, &files, Duration::default());
    assert_eq!(paths(&result), vec![("/R/a.rs".to_string(), 50), ("/R/h.toml".to_string(), 999)]);
    assert_eq!(*result.file_searched(), 8);
    assert_eq!(*result.total_size(), 1049);
    assert!(*result.file_searched() >= result.files_result().len() as u64);
    for found in result.files_result() {
        assert!(options.match_name_pattern(found.path()));
        assert!(options.match_modified_date(found.modified_date()));
        assert!(options.match_size(found.size()));
        assert!(found.content().is_some());
    }
}

#[test]
fn size_bounds_are_exclusive() {
    let options = filter(&[], None, None, None, Some(10), Some(20));
    assert!(!options.match_size(&10));
    assert!(options.match_size(&11));
    assert!(options.match_size(&19));
    assert!(!options.match_size(&20));
    let open = filter(&[], None, None, None, None, None);
    assert!(open.match_size(&0));
    assert!(open.match_size(&u64::MAX));
    let lower = filter(&[], None, None, None, Some(5), None);
    assert!(!lower.match_size(&5));
    assert!(lower.match_size(&u64::MAX));
    let upper = filter(&[], None, None, None, None, Some(5));
    assert!(upper.match_size(&0));
    assert!(!upper.match_size(&5));
}

#[test]
fn time_bounds_are_exclusive() {
    let options = filter(
        &[],
        None,
        Some(FileTime::new(10, 500)),
        Some(FileTime::new(20, 0)),
        None,
        None,
    );
    assert!(!options.match_modified_date(&FileTime::new(10, 500)));
    assert!(options.match_modified_date(&FileTime::new(10, 501)));
    assert!(!options.match_modified_date(&FileTime::new(10, 499)));
    assert!(options.match_modified_date(&FileTime::new(19, 999_999_999)));
    assert!(!options.match_modified_date(&FileTime::new(20, 0)));
    assert!(!options.match_modified_date(&FileTime::new(-5, 0)));
    let open = filter(&[], None, None, None, None, None);
    assert!(open.match_modified_date(&FileTime::new(i64::MIN, 0)));
}

#[test]
fn times_compare_by_seconds_then_nanos() {
    assert!(FileTime::new(1, 999_999_999).is_before(&FileTime::new(2, 0)));
    assert!(FileTime::new(-2, 5).is_before(&FileTime::new(-1, 0)));
    assert!(!FileTime::new(3, 4).is_before(&FileTime::new(3, 4)));
    assert!(FileTime::new(3, 4).is_before(&FileTime::new(3, 5)));
    assert!(FileTime::new(i64::MIN, 0).is_before(&FileTime::new(i64::MAX, u32::MAX)));
}

#[test]
fn name_patterns_are_alternatives() {
    let options = filter(&["*.log", "*.txt"], None, None, None, None, None);
    assert!(options.match_name_pattern("/R/app.log"));
    assert!(options.match_name_pattern("/R/notes.txt"));
    assert!(!options.match_name_pattern("/R/main.rs"));
    let open = filter(&[], None, None, None, None, None);
    assert!(open.match_name_pattern("/R/main.rs"));
    let question = filter(&["/R/?.rs"], None, None, None, None, None);
    assert!(question.match_name_pattern("/R/a.rs"));
    assert!(!question.match_name_pattern("/R/ab.rs"));
}

#[test]
fn a_pattern_that_does_not_compile_is_refused() {
    let built = SearchOptions::new(
        "/R".to_string(),
        vec!["*.log".to_string(), "a[".to_string(), "***".to_string()],
        None,
        None,
        None,
        None,
        None,
    );
    let message = built.err().unwrap();
    assert_eq!(
        message,
        "Invalid name pattern 'a[': Pattern syntax error near position 1: invalid range pattern"
    );
}

#[test]
fn content_is_needed_only_where_it_can_decide() {
    let options = filter(&["*.log"], Some("x"), None, None, None, None);
    assert!(options.needs_content("/R/a.log"));
    assert!(!options.needs_content("/R/a.txt"));
    let plain = filter(&["*.log"], None, None, None, None, None);
    assert!(!plain.needs_content("/R/a.log"));
}

#[test]
fn content_filter_reports_the_first_line() {
    let options = filter(&[], Some("b"), None, None, None, None);
    let lines: Vec<String> = vec!["a".to_string(), "abc".to_string(), "b".to_string()];
    let (matched, content) = options.match_content_pattern(&lines);
    assert!(matched);
    assert_eq!(content, Some((2, "abc".to_string())));
    let (missing, nothing) = options.match_content_pattern(&vec!["a".to_string()]);
    assert!(!missing);
    assert!(nothing.is_none());
    let open = filter(&[], None, None, None, None, None);
    assert_eq!(open.match_content_pattern(&lines), (true, None));
}

#[test]
fn options_hand_back_what_they_were_given() {
    let options = filter(
        &["*.a"],
        Some("text"),
        Some(FileTime::new(1, 2)),
        Some(FileTime::new(3, 4)),
        Some(5),
        Some(6),
    );
    assert_eq!(options.path(), "/R");
    assert_eq!(options.name_pattern(), &vec!["*.a".to_string()]);
    assert_eq!(options.content_pattern(), &Some("text".to_string()));
    assert_eq!(options.modified_after(), &Some(FileTime::new(1, 2)));
    assert_eq!(options.modified_before(), &Some(FileTime::new(3, 4)));
    assert_eq!(options.min_size(), &Some(5));
    assert_eq!(options.max_size(), &Some(6));
}

#[test]
fn a_run_counts_every_file_it_visits() {
    let options = filter(&["*.log"], None, None, None, None, None);
    let mut run = SearchRun::new(&options);
    assert!(run.try_visit(&options, &visited("/R/a.log", 5, 0, &[])));
    assert!(run.try_visit(&options, &visited("/R/b.txt", 7, 0, &[])));
    run.visit(&options, &visited("/R/c.log", 11, 0, &[]));
    let result = run.finish(Duration::from_secs(2));
    assert_eq!(*result.file_searched(), 3);
    assert_eq!(*result.total_size(), 16);
    assert_eq!(paths(&result), vec![("/R/a.log".to_string(), 5), ("/R/c.log".to_string(), 11)]);
    assert_eq!(*result.search_time(), Duration::from_secs(2));
}

#[test]
fn a_file_that_would_overflow_the_total_is_not_taken() {
    let options = filter(&["*.log"], None, None, None, None, None);
    let mut run = SearchRun::new(&options);
    assert!(run.try_visit(&options, &visited("/R/a.log", u64::MAX, 0, &[])));
    assert!(!run.try_visit(&options, &visited("/R/b.log", 1, 0, &[])));
    assert!(run.try_visit(&options, &visited("/R/c.txt", 1, 0, &[])));
    let result = run.finish(Duration::default());
    assert_eq!(*result.file_searched(), 2);
    assert_eq!(*result.total_size(), u64::MAX);
}

#[test]
fn result_counters_move_by_one() {
    let mut result = SearchResult::new(1, 2, Duration::from_secs(3), Vec::new());
    result.add_to_total_size(4);
    result.increment_file_searched();
    result.set_duration(Duration::from_secs(5));
    result.set_files_result(vec![FileInfoSearch::new(
        "p".to_string(),
        6,
        Some((7, "line".to_string())),
        FileTime::new(8, 9),
    )]);
    assert_eq!(*result.total_size(), 5);
    assert_eq!(*result.file_searched(), 3);
    assert_eq!(*result.search_time(), Duration::from_secs(5));
    let found = &result.files_result()[0];
    assert_eq!(found.path(), "p");
    assert_eq!(*found.size(), 6);
    assert_eq!(found.content(), &Some((7, "line".to_string())));
    assert_eq!(*found.modified_date(), FileTime::new(8, 9));
}

#[test]
fn times_are_made_from_offsets() {
    assert_eq!(FileTime::from_offset(true, 5, 7), Some(FileTime::new(5, 7)));
    assert_eq!(FileTime::from_offset(true, 0, 0), Some(FileTime::new(0, 0)));
    assert_eq!(FileTime::from_offset(false, 0, 0), Some(FileTime::new(0, 0)));
    assert_eq!(FileTime::from_offset(false, 5, 0), Some(FileTime::new(-5, 0)));
    assert_eq!(FileTime::from_offset(false, 5, 7), Some(FileTime::new(-6, 999_999_993)));
    assert_eq!(FileTime::from_offset(false, 0, 1), Some(FileTime::new(-1, 999_999_999)));
    assert_eq!(
        FileTime::from_offset(true, i64::MAX as u64, 999_999_999),
        Some(FileTime::new(i64::MAX, 999_999_999))
    );
    assert_eq!(FileTime::from_offset(false, i64::MAX as u64, 0), Some(FileTime::new(-i64::MAX, 0)));
    assert_eq!(FileTime::from_offset(true, i64::MAX as u64 + 1, 0), None);
    assert_eq!(FileTime::from_offset(true, 1, 1_000_000_000), None);
}

#[test]
fn times_give_their_offsets_back() {
    assert_eq!(FileTime::new(5, 7).to_offset(), (true, 5, 7));
    assert_eq!(FileTime::new(0, 0).to_offset(), (true, 0, 0));
    assert_eq!(FileTime::new(-5, 0).to_offset(), (false, 5, 0));
    assert_eq!(FileTime::new(-6, 999_999_993).to_offset(), (false, 5, 7));
    assert_eq!(FileTime::new(-1, 999_999_999).to_offset(), (false, 0, 1));
    assert_eq!(FileTime::new(i64::MIN, 0).to_offset(), (false, 1u64 << 63, 0));
    assert_eq!(FileTime::new(i64::MIN, 1).to_offset(), (false, i64::MAX as u64, 999_999_999));
    assert!(FileTime::new(-6, 999_999_993).is_before(&FileTime::new(-5, 0)));
}
