use fs_analyzer::digest::{calculate_file_hash, ContentHasher};
use fs_analyzer::duplicates::{find_duplicates, group_by_digest};
use fs_analyzer::model::{DuplicateGroup, SizeBucket};

fn bucket(size: u64, paths: &[&str]) -> SizeBucket {
    SizeBucket::new(size, paths.iter().map(|p| p.to_string()).collect())
}

fn given(digests: &[Option<&str>]) -> Vec<Option<String>> {
    digests.iter().map(|d| d.map(|s| s.to_string())).collect()
}

fn shape(groups: &Vec<DuplicateGroup>) -> Vec<(Vec<String>, u64, String)> {
    groups.iter().map(|g| (g.files().clone(), *g.size(), g.hash().to_string())).collect()
}

#[test]
fn digest_of_known_content() {
    let hex = calculate_file_hash(&vec![b"hello world".to_vec()]);
    assert_eq!(hex, "b94d27b9934d3e08a52e52d7da7dabfac484efe37a5380ee9088f7ace2efcde9");
}

#[test]
fn digest_of_nothing() {
    let empty = "e3b0c44298fc1c149afbf4c8996fb92427ae41e4649b934ca495991b7852b855";
    assert_eq!(calculate_file_hash(&Vec::new()), empty);
    assert_eq!(calculate_file_hash(&vec![Vec::new(), Vec::new()]), empty);
    assert_eq!(ContentHasher::new().finalize(), empty);
}

#[test]
fn digest_does_not_depend_on_the_cut() {
    let whole = calculate_file_hash(&vec![b"hello world".to_vec()]);
    let pieces = vec![b"hel".to_vec(), b"lo wor".to_vec(), Vec::new(), b"ld".to_vec()];
    let cut = calculate_file_hash(&pieces);
    assert_eq!(whole, cut);
    let mut hasher = ContentHasher::new();
    hasher.update(b"hello ");
    hasher.update(b"world");
    assert_eq!(hasher.finalize(), whole);
}

#[test]
fn digest_tells_contents_apart() {
    let one = calculate_file_hash(&vec![vec![0u8; 8192], vec![1u8; 10]]);
    let two = calculate_file_hash(&vec![vec![0u8; 8192], vec![2u8; 10]]);
    assert_ne!(one, two);
    assert_eq!(one.len(), 64);
}

#[test]
fn groups_follow_the_order_of_the_bucket() {
    let groups = group_by_digest(
        &bucket(10, &["a", "b", "c", "d", "e"]),
        &given(&[Some("x"), Some("y"), Some("x"), Some("z"), Some("y")]),
    );
    assert_eq!(
        shape(&groups),
        vec![
            (vec!["a".to_string(), "c".to_string()], 10, "x".to_string()),
            (vec!["b".to_string(), "e".to_string()], 10, "y".to_string()),
        ]
    );
}

#[test]
fn single_digests_make_no_group() {
    let groups = group_by_digest(&bucket(10, &["a", "b"]), &given(&[Some("x"), Some("y")]));
    assert!(groups.is_empty());
}

#[test]
fn files_without_digest_join_no_group() {
    let groups = group_by_digest(
        &bucket(10, &["a", "b", "c"]),
        &given(&[None, Some("x"), Some("x")]),
    );
    assert_eq!(shape(&groups), vec![(vec!["b".to_string(), "c".to_string()], 10, "x".to_string())]);
    let short = group_by_digest(&bucket(10, &["a", "b", "c"]), &given(&[Some("x")]));
    assert!(short.is_empty());
    let none = group_by_digest(&bucket(10, &["a", "b"]), &given(&[None, None]));
    assert!(none.is_empty());
}

#[test]
fn three_of_a_kind_make_one_group() {
    let groups = group_by_digest(
        &bucket(3, &["a", "b", "c"]),
        &given(&[Some("x"), Some("x"), Some("x")]),
    );
    assert_eq!(
        shape(&groups),
        vec![(vec!["a".to_string(), "b".to_string(), "c".to_string()], 3, "x".to_string())]
    );
}

#[test]
fn buckets_are_taken_one_after_the_other() {
    let buckets =
        vec![bucket(10, &["a", "b", "c"]), bucket(20, &["d", "e"]), bucket(30, &["f", "g"])];
    let digests = vec![
        given(&[Some("x"), Some("y"), Some("y")]),
        given(&[Some("x"), Some("q")]),
        given(&[Some("x"), Some("x")]),
    ];
    let groups = find_duplicates(&buckets, &digests);
    assert_eq!(
        shape(&groups),
        vec![
            (vec!["b".to_string(), "c".to_string()], 10, "y".to_string()),
            (vec!["f".to_string(), "g".to_string()], 30, "x".to_string()),
        ]
    );
}

#[test]
fn buckets_without_digests_give_nothing() {
    let buckets = vec![bucket(10, &["a", "b"]), bucket(20, &["d", "e"])];
    let digests = vec![given(&[Some("x"), Some("x")])];
    let groups = find_duplicates(&buckets, &digests);
    assert_eq!(shape(&groups), vec![(vec!["a".to_string(), "b".to_string()], 10, "x".to_string())]);
    assert!(find_duplicates(&Vec::new(), &digests).is_empty());
}

#[test]
fn many_digests_are_found_again() {
    let names: Vec<String> = (0..60).map(|i| format!("f{}", i)).collect();
    let digests: Vec<Option<String>> = (0..60).map(|i| Some(format!("d{}", i % 20))).collect();
    let groups = group_by_digest(&SizeBucket::new(5, names), &digests);
    assert_eq!(groups.len(), 20);
    for (place, group) in groups.iter().enumerate() {
        assert_eq!(group.hash(), format!("d{}", place));
        assert_eq!(
            group.files(),
            &vec![format!("f{}", place), format!("f{}", place + 20), format!("f{}", place + 40)]
        );
    }
}
