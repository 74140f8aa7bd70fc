use fs_analyzer::error::{resolve_root, AnalysisError};
use fs_analyzer::options::AnalyzeOptions;
use fs_analyzer::paths::ancestor_folders;
use fs_analyzer::pattern::{check_globs, matches_any};

#[test]
fn ancestors_go_up_to_the_root() {
    assert_eq!(
        ancestor_folders("/R", "/R/x/y/file"),
        vec!["/R/x/y".to_string(), "/R/x".to_string(), "/R".to_string()]
    );
    assert_eq!(ancestor_folders("/R", "/R/file"), vec!["/R".to_string()]);
    assert_eq!(ancestor_folders("/R/x", "/R/x/file"), vec!["/R/x".to_string()]);
}

#[test]
fn ancestors_stop_outside_the_root() {
    assert!(ancestor_folders("/R", "/other/file").is_empty());
    assert!(ancestor_folders("/R", "/Rx/file").is_empty());
    assert!(ancestor_folders("/R", "/R").is_empty());
    assert!(ancestor_folders("/R", "file").is_empty());
    assert!(ancestor_folders("/R", "").is_empty());
}

#[test]
fn ancestors_of_a_file_below_the_top() {
    assert_eq!(ancestor_folders("/", "/a/b"), vec!["/a".to_string(), "/".to_string()]);
    assert_eq!(ancestor_folders("/", "/a"), vec!["/".to_string()]);
    assert_eq!(ancestor_folders("rel", "rel/a/b"), vec!["rel/a".to_string(), "rel".to_string()]);
}

fn compiles(pattern: &str) -> bool {
    check_globs(&vec![pattern.to_string()], "name").is_ok()
}

#[test]
fn patterns_compile_or_not() {
    assert!(compiles("*.log"));
    assert!(compiles("**/target"));
    assert!(compiles("[a-z]?"));
    assert!(compiles(""));
    assert!(!compiles("a["));
    assert!(!compiles("***"));
    assert!(!compiles("a**"));
}

#[test]
fn one_matching_pattern_is_enough() {
    let patterns = vec!["*.log".to_string(), "/tmp/*".to_string()];
    assert!(matches_any(&patterns, "/var/app.log"));
    assert!(matches_any(&patterns, "/tmp/x"));
    assert!(!matches_any(&patterns, "/var/app.txt"));
    assert!(!matches_any(&Vec::new(), "/var/app.txt"));
    assert!(!matches_any(&vec!["a[".to_string()], "a["));
}

#[test]
fn ignore_patterns_prune_what_they_match() {
    let options = AnalyzeOptions::new(
        "/R".to_string(),
        Some(3),
        5,
        true,
        Some(1024),
        true,
        vec!["*/target".to_string(), "*.tmp".to_string()],
    )
    .unwrap();
    assert_eq!(options.path(), "/R");
    assert_eq!(options.max_depth(), Some(3));
    assert_eq!(options.top_n(), 5);
    assert!(options.follow_symlinks());
    assert_eq!(options.min_size(), Some(1024));
    assert!(options.detect_duplicates());
    assert!(options.should_ignore("/R/project/target"));
    assert!(options.should_ignore("/R/x.tmp"));
    assert!(!options.should_ignore("/R/project/src"));
}

#[test]
fn an_ignore_pattern_that_does_not_compile_is_refused() {
    let built = AnalyzeOptions::new(
        "/R".to_string(),
        None,
        5,
        false,
        None,
        false,
        vec!["*/target".to_string(), "a**".to_string(), "b[".to_string()],
    );
    assert_eq!(
        built.err().unwrap(),
        format!(
            "Invalid ignore pattern 'a**': Pattern syntax error near position 0: {}",
            "recursive wildcards must form a single path component"
        )
    );
}

#[test]
fn no_ignore_patterns_ignore_nothing() {
    let options =
        AnalyzeOptions::new("/R".to_string(), None, 0, false, None, false, Vec::new()).unwrap();
    assert!(!options.should_ignore("/R/anything"));
    assert_eq!(options.max_depth(), None);
    assert_eq!(options.min_size(), None);
    assert!(!options.follow_symlinks());
    assert!(!options.detect_duplicates());
}

#[test]
fn patterns_are_checked_in_order() {
    let good = vec!["*.log".to_string(), "**/x".to_string()];
    assert_eq!(check_globs(&good, "name"), Ok(()));
    assert_eq!(check_globs(&Vec::new(), "name"), Ok(()));
    let bad = vec!["*.log".to_string(), "a[".to_string(), "***".to_string()];
    assert_eq!(
        check_globs(&bad, "name"),
        Err(format!(
            "Invalid name pattern 'a[': Pattern syntax error near position 1: {}",
            "invalid range pattern"
        ))
    );
}

#[test]
fn a_resolved_root_that_is_there_starts_the_run() {
    let root = resolve_root(Ok("/R".to_string()), true);
    assert_eq!(root.ok(), Some("/R".to_string()));
}

#[test]
fn a_root_that_is_not_there_is_not_found() {
    match resolve_root(Ok("/R".to_string()), false) {
        Err(AnalysisError::PathNotFound(path)) => {
            assert_eq!(path, "/R");
            assert_eq!(AnalysisError::PathNotFound(path).message(), "Path not found: /R");
        }
        _ => panic!("the root should not be found"),
    }
}

#[test]
fn a_root_that_cannot_be_resolved_fails_with_the_cause() {
    let cause = std::io::Error::new(std::io::ErrorKind::NotFound, "no such directory");
    match resolve_root(Err(cause), true) {
        Err(AnalysisError::IoError(error)) => {
            assert_eq!(error.kind(), std::io::ErrorKind::NotFound);
            assert_eq!(AnalysisError::IoError(error).message(), "IO Error: no such directory");
        }
        _ => panic!("the run should fail with the cause"),
    }
}
