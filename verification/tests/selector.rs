use fs_analyzer::model::{FileInfoDirectory, FolderInfo};
use fs_analyzer::selector::TopSelector;

fn pairs(files: &Vec<FileInfoDirectory>) -> Vec<(String, u64)> {
    files.iter().map(|f| (f.path().clone(), *f.size())).collect()
}

#[test]
fn selector_keeps_the_largest() {
    let mut selector = TopSelector::new(2);
    selector.push("a".to_string(), 10);
    selector.push("b".to_string(), 30);
    selector.push("c".to_string(), 20);
    assert_eq!(selector.len(), 2);
    assert_eq!(selector.capacity(), 2);
    let kept = selector.into_sorted_vec();
    assert_eq!(pairs(&kept), vec![("b".to_string(), 30), ("c".to_string(), 20)]);
}

#[test]
fn selector_keeps_earlier_of_equal_sizes_first() {
    let mut selector = TopSelector::new(3);
    selector.push("first".to_string(), 5);
    selector.push("second".to_string(), 5);
    selector.push("big".to_string(), 9);
    selector.push("third".to_string(), 5);
    let kept = selector.into_sorted_vec();
    assert_eq!(
        pairs(&kept),
        vec![("big".to_string(), 9), ("first".to_string(), 5), ("second".to_string(), 5)]
    );
}

#[test]
fn selector_with_no_room_keeps_nothing() {
    let mut selector = TopSelector::new(0);
    selector.push("a".to_string(), 10);
    selector.push("b".to_string(), 30);
    assert_eq!(selector.len(), 0);
    assert!(selector.into_sorted_vec().is_empty());
}

#[test]
fn selector_drops_the_smallest_when_full() {
    let mut selector = TopSelector::new(1);
    selector.push("small".to_string(), 1);
    selector.push("large".to_string(), 2);
    selector.push("tiny".to_string(), 0);
    let kept = selector.into_sorted_vec();
    assert_eq!(pairs(&kept), vec![("large".to_string(), 2)]);
}

#[test]
fn selector_hands_out_folders() {
    let mut selector = TopSelector::new(2);
    selector.push("/x".to_string(), 1);
    selector.push("/y".to_string(), 2);
    let folders = selector.into_folders();
    assert_eq!(
        folders,
        vec![FolderInfo::new("/y".to_string(), 2), FolderInfo::new("/x".to_string(), 1)]
    );
}

#[test]
fn records_compare_by_path_and_size() {
    let one = FileInfoDirectory::new("a".to_string(), 1);
    assert_eq!(one, FileInfoDirectory::new("a".to_string(), 1));
    assert_ne!(one, FileInfoDirectory::new("a".to_string(), 2));
    assert_ne!(FolderInfo::new("a".to_string(), 1), FolderInfo::new("b".to_string(), 1));
}
