use fs_analyzer::model::{parse_file_type, FileType};
use fs_analyzer::options::{read_size, SizeText};
use fs_analyzer::search::FileTime;
use fs_analyzer::utils::{
    content_exists_in_file, find_first, format_number, match_in_line, parse_date, to_chars,
    truncate_around_substring, truncate_path,
};

fn lines(text: &[&str]) -> Vec<String> {
    text.iter().map(|l| l.to_string()).collect()
}

#[test]
fn first_occurrence_is_found() {
    let line = to_chars("abcabc");
    assert_eq!(find_first(&line, &to_chars("bc")), Some(1));
    assert_eq!(find_first(&line, &to_chars("abcabc")), Some(0));
    assert_eq!(find_first(&line, &to_chars("c")), Some(2));
    assert_eq!(find_first(&line, &to_chars("cb")), None);
    assert_eq!(find_first(&line, &to_chars("abcabcd")), None);
    assert_eq!(find_first(&line, &to_chars("")), Some(0));
    assert_eq!(find_first(&to_chars(""), &to_chars("")), Some(0));
    assert_eq!(find_first(&to_chars(""), &to_chars("a")), None);
    assert_eq!(find_first(&to_chars("aab"), &to_chars("ab")), Some(1));
}

#[test]
fn characters_not_bytes_are_counted() {
    assert_eq!(to_chars("héllo"), vec!['h', 'é', 'l', 'l', 'o']);
    assert_eq!(find_first(&to_chars("ééx"), &to_chars("x")), Some(2));
}

#[test]
fn short_lines_are_shown_whole() {
    assert_eq!(match_in_line("an ERROR", "ERROR"), Some("an ERROR".to_string()));
    let twenty = "0123456789ERROR56789";
    assert_eq!(twenty.len(), 20);
    assert_eq!(match_in_line(twenty, "ERROR"), Some(twenty.to_string()));
    assert_eq!(match_in_line("nothing here", "ERROR"), None);
}

#[test]
fn lines_up_to_fifty_are_shown_whole() {
    let line = format!("{}ERROR{}", "a".repeat(20), "b".repeat(25));
    assert_eq!(line.len(), 50);
    assert_eq!(match_in_line(&line, "ERROR"), Some(line.clone()));
    assert_eq!(truncate_around_substring(&line, "ERROR", 20, 50), line);
}

#[test]
fn longer_lines_are_cut_around_the_match() {
    let line = format!("{}ERROR{}", "a".repeat(40), "b".repeat(40));
    let excerpt = truncate_around_substring(&line, "ERROR", 40, 50);
    assert_eq!(excerpt, format!("...{}ERROR{}...", "a".repeat(22), "b".repeat(23)));
}

#[test]
fn a_match_near_the_start_keeps_the_start() {
    let line = format!("abERROR{}", "c".repeat(60));
    let excerpt = truncate_around_substring(&line, "ERROR", 2, 50);
    assert_eq!(excerpt, format!("abERROR{}...", "c".repeat(43)));
    assert_eq!(match_in_line(&line, "ERROR"), Some(excerpt));
}

#[test]
fn a_match_near_the_end_keeps_the_end() {
    let line = format!("{}ERRORxy", "c".repeat(60));
    let excerpt = truncate_around_substring(&line, "ERROR", 60, 50);
    assert_eq!(excerpt, format!("...{}ERRORxy", "c".repeat(43)));
}

#[test]
fn a_match_longer_than_the_window_is_shown_whole() {
    let pattern = "p".repeat(60);
    let line = format!("ab{}cd", pattern);
    let excerpt = truncate_around_substring(&line, &pattern, 2, 50);
    assert_eq!(excerpt, format!("...{}...", pattern));
}

#[test]
fn other_windows_than_fifty() {
    assert_eq!(truncate_around_substring("0123456789", "45", 4, 4), "...3456...");
    assert_eq!(truncate_around_substring("0123456789", "45", 4, 10), "0123456789");
    assert_eq!(truncate_around_substring("0123456789", "01", 0, 3), "012...");
    assert_eq!(truncate_around_substring("0123456789", "89", 8, 3), "...789");
    assert_eq!(truncate_around_substring("0123456789", "", 5, 0), "......");
}

#[test]
fn the_first_matching_line_wins() {
    let text = lines(&["alpha", "beta gamma", "gamma", ""]);
    assert_eq!(content_exists_in_file(&text, "gamma"), Some((2, "beta gamma".to_string())));
    assert_eq!(content_exists_in_file(&text, "alpha"), Some((1, "alpha".to_string())));
    assert_eq!(content_exists_in_file(&text, "delta"), None);
    assert_eq!(content_exists_in_file(&Vec::new(), "x"), None);
    assert_eq!(content_exists_in_file(&text, ""), Some((1, "alpha".to_string())));
}

#[test]
fn numbers_are_grouped_by_three() {
    assert_eq!(format_number(&0), "0");
    assert_eq!(format_number(&7), "7");
    assert_eq!(format_number(&42), "42");
    assert_eq!(format_number(&999), "999");
    assert_eq!(format_number(&1000), "1 000");
    assert_eq!(format_number(&1234), "1 234");
    assert_eq!(format_number(&12005), "12 005");
    assert_eq!(format_number(&1234567), "1 234 567");
    assert_eq!(format_number(&1000000), "1 000 000");
    assert_eq!(format_number(&u64::MAX), "18 446 744 073 709 551 615");
}

#[test]
fn paths_are_fitted_to_a_width() {
    assert_eq!(truncate_path("abc", 6), "abc   ");
    assert_eq!(truncate_path("abcdef", 6), "abcdef");
    assert_eq!(truncate_path("", 2), "  ");
    assert_eq!(truncate_path("", 0), "");
    assert_eq!(truncate_path("0123456789", 7), "01...89");
    assert_eq!(truncate_path("0123456789", 8), "01...789");
    assert_eq!(truncate_path("0123456789", 3), "...");
    assert_eq!(truncate_path("0123456789", 4), "...9");
    let long = "/a/very/long/path/that/does/not/fit/into/the/column/of/the/report/file.txt";
    let fitted = truncate_path(long, 60);
    assert_eq!(fitted.len(), 60);
    assert_eq!(&fitted[..28], &long[..28]);
    assert_eq!(&fitted[28..31], "...");
    assert_eq!(&fitted[31..], &long[long.len() - 29..]);
}

#[test]
fn dates_are_read_as_midnight() {
    assert_eq!(parse_date(None, "modified_after"), Ok(None));
    assert_eq!(
        parse_date(Some("1970-01-01".to_string()), "modified_after"),
        Ok(Some(FileTime::new(0, 0)))
    );
    assert_eq!(
        parse_date(Some("1970-01-02".to_string()), "modified_after"),
        Ok(Some(FileTime::new(86400, 0)))
    );
    assert_eq!(
        parse_date(Some("2024-03-01".to_string()), "modified_before"),
        Ok(Some(FileTime::new(1709251200, 0)))
    );
    assert_eq!(
        parse_date(Some("1969-12-31".to_string()), "modified_before"),
        Ok(Some(FileTime::new(-86400, 0)))
    );
}

#[test]
fn texts_that_are_no_dates_are_refused() {
    assert_eq!(
        parse_date(Some("yesterday".to_string()), "modified_after"),
        Err(format!(
            "Invalid modified_after date: {}. Expected format: YYYY-MM-DD",
            "input contains invalid characters"
        ))
    );
    assert_eq!(
        parse_date(Some("2024-02-30".to_string()), "modified_before"),
        Err("Invalid modified_before date: input is out of range. Expected format: YYYY-MM-DD"
            .to_string())
    );
    assert!(parse_date(Some("".to_string()), "x").is_err());
}

#[test]
fn sizes_are_read_as_written() {
    assert!(matches!(read_size("4096"), SizeText::Bytes(4096)));
    assert!(matches!(read_size("  17 "), SizeText::Bytes(17)));
    assert!(matches!(read_size("0"), SizeText::Bytes(0)));
    match read_size("1.5MB") {
        SizeText::Scaled { number, unit } => {
            assert_eq!(number, "1.5");
            assert_eq!(unit, 1024 * 1024);
        }
        _ => panic!("a scaled size was expected"),
    }
    match read_size(" 10 KB ") {
        SizeText::Scaled { number, unit } => {
            assert_eq!(number, "10");
            assert_eq!(unit, 1024);
        }
        _ => panic!("a scaled size was expected"),
    }
    match read_size("2GB") {
        SizeText::Scaled { number, unit } => {
            assert_eq!(number, "2");
            assert_eq!(unit, 1024 * 1024 * 1024);
        }
        _ => panic!("a scaled size was expected"),
    }
    match read_size("xTB") {
        SizeText::Scaled { number, unit } => {
            assert_eq!(number, "x");
            assert_eq!(unit, 1024u64 * 1024 * 1024 * 1024);
        }
        _ => panic!("a scaled size was expected"),
    }
    assert!(matches!(read_size("5XB"), SizeText::Malformed));
    assert!(matches!(read_size("12 bytes"), SizeText::Malformed));
    assert!(matches!(read_size(""), SizeText::Malformed));
    assert!(matches!(read_size("B"), SizeText::Malformed));
    assert!(matches!(read_size("5kb"), SizeText::Malformed));
    assert!(matches!(read_size("99999999999999999999"), SizeText::Malformed));
}

#[test]
fn kinds_are_read_in_any_case() {
    assert_eq!(parse_file_type("file"), Ok(FileType::File));
    assert_eq!(parse_file_type("FILE"), Ok(FileType::File));
    assert_eq!(parse_file_type("dir"), Ok(FileType::Dir));
    assert_eq!(parse_file_type("Directory"), Ok(FileType::Dir));
    assert_eq!(parse_file_type("sym"), Ok(FileType::Sym));
    assert_eq!(parse_file_type("SymLink"), Ok(FileType::Sym));
    assert_eq!(parse_file_type("link"), Ok(FileType::Sym));
    assert_eq!("dir".parse::<FileType>(), Ok(FileType::Dir));
    assert_eq!(
        parse_file_type("Pipe"),
        Err("Invalid file type: 'Pipe'. Valid values are: file, dir, sym".to_string())
    );
}
