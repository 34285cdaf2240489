use retree::error::IoFault;
use retree::listing::{
    collect_with_filelimit, read_sorted_children, sort_items, DirItem, EntryCollector, FileKind,
    ReadDirResult,
};
use retree::path::{FsPath, PathPart};

fn names(count: usize) -> Vec<Result<String, String>> {
    (0..count).map(|i| Ok(format!("f{i}.txt"))).collect()
}

fn ranked(name: &str, rank: u64) -> DirItem {
    DirItem {
        path: FsPath::from_parts(vec![PathPart::Normal(name.as_bytes().to_vec())]),
        name: name.as_bytes().to_vec(),
        kind: Some(FileKind::File),
        link_to_dir: false,
        rank,
        reserved: false,
        excluded: false,
        included: true,
        dir_included: false,
    }
}

fn order(items: &[DirItem]) -> String {
    items.iter().map(|item| String::from_utf8(item.name.clone()).unwrap()).collect()
}

#[test]
fn filelimit_none_collects_all() {
    let result = collect_with_filelimit(names(5), None);
    assert_eq!(result.unwrap().len(), 5);
}

#[test]
fn filelimit_within_limit() {
    let result = collect_with_filelimit(names(3), Some(10));
    assert_eq!(result.unwrap().len(), 3);
}

#[test]
fn filelimit_exact_boundary() {
    assert_eq!(collect_with_filelimit(names(5), Some(5)).unwrap().len(), 5);
}

#[test]
fn filelimit_exceeded_returns_total() {
    assert_eq!(collect_with_filelimit(names(10), Some(5)).unwrap_err(), 10);
}

#[test]
fn filelimit_exceeded_by_one() {
    assert_eq!(collect_with_filelimit(names(6), Some(5)).unwrap_err(), 6);
}

#[test]
fn filelimit_empty_dir() {
    assert!(collect_with_filelimit(names(0), Some(5)).unwrap().is_empty());
}

#[test]
fn filelimit_one_single_file_ok() {
    let only: Vec<Result<&str, ()>> = vec![Ok("only.txt")];
    assert_eq!(collect_with_filelimit(only, Some(1)).unwrap().len(), 1);
}

#[test]
fn filelimit_one_two_files_exceeded() {
    let two: Vec<Result<&str, ()>> = vec![Ok("a.txt"), Ok("b.txt")];
    assert_eq!(collect_with_filelimit(two, Some(1)).unwrap_err(), 2);
}

#[test]
fn unreadable_entries_are_skipped() {
    let mixed: Vec<Result<u8, &str>> = vec![Ok(1), Err("gone"), Ok(2), Err("gone")];
    assert_eq!(collect_with_filelimit(mixed, Some(2)).unwrap(), vec![1, 2]);
    let mixed: Vec<Result<u8, &str>> = vec![Ok(1), Err("gone"), Ok(2), Ok(3)];
    assert_eq!(collect_with_filelimit(mixed, Some(1)).unwrap_err(), 3);
    let any: Vec<Result<u8, &str>> = vec![Ok(1)];
    assert_eq!(collect_with_filelimit(any, Some(0)).unwrap_err(), 1);
}

#[test]
fn collector_agrees_with_collecting_at_once() {
    for limit in [None, Some(0), Some(2), Some(3), Some(4)] {
        let mut collector = EntryCollector::new(limit);
        for entry in names(3) {
            collector.offer(entry);
        }
        assert_eq!(collector.count(), 3);
        assert_eq!(collector.finish(), collect_with_filelimit(names(3), limit));
    }
}

#[test]
fn sorting_is_by_rank_and_stable() {
    let items = vec![ranked("c", 2), ranked("a", 1), ranked("d", 2), ranked("b", 1), ranked("e", 0)];
    assert_eq!(order(&sort_items(items)), "eabcd");
    assert_eq!(order(&sort_items(vec![])), "");
    assert_eq!(order(&sort_items(vec![ranked("x", 9)])), "x");
}

#[test]
fn read_order_does_not_show_where_ranks_differ() {
    let one = vec![ranked("a", 1), ranked("b", 2), ranked("c", 3)];
    let other = vec![ranked("c", 3), ranked("a", 1), ranked("b", 2)];
    assert_eq!(sort_items(one), sort_items(other));
}

#[test]
fn reading_a_directory_has_three_outcomes() {
    let fault = IoFault::Other("no".to_string());
    assert_eq!(read_sorted_children(Err(fault.clone())), ReadDirResult::ReadError(fault));
    assert_eq!(read_sorted_children(Ok(Err(12))), ReadDirResult::FilelimitExceeded(12));
    let items = vec![ranked("b", 2), ranked("a", 1)];
    match read_sorted_children(Ok(Ok(items))) {
        ReadDirResult::Entries(sorted) => assert_eq!(order(&sorted), "ab"),
        _ => panic!("entries expected"),
    }
}
