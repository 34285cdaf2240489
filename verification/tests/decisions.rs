use retree::config::{needs_file_id, Config};
use retree::descend::{
    absolute_root, check_descend, check_one_fs, check_root_device, compute_root_device,
    needs_volume, resolve_long_root, should_prune, DescendCheck, OnefsCheck,
};
use retree::entry::{
    collect_ads_children, leaf_node, make_file_node, make_recursive_link_node, Entry, EntryType,
    FileIdInfo, StreamInfo, Tree,
};
use retree::error::{push_error, IoFault, TreeError};
use retree::filter::{filter_entry, needs_link_targets, FilterResult};
use retree::ignoring::{IgnoreFiles, IgnoreMatcher};
use retree::listing::{DirItem, FileKind};
use retree::node::{check_depth, plan_child, ChildPlan};
use retree::path::{FsPath, PathPart};

fn fs(text: &str) -> FsPath {
    let mut parts = Vec::new();
    if text.starts_with('/') {
        parts.push(PathPart::RootDir);
    }
    for name in text.split('/') {
        if !name.is_empty() {
            parts.push(PathPart::Normal(name.as_bytes().to_vec()));
        }
    }
    FsPath::from_parts(parts)
}

fn entry(path: &str, entry_type: EntryType, depth: usize) -> Entry {
    Entry {
        path: fs(path),
        name: path.rsplit('/').next().unwrap().as_bytes().to_vec(),
        entry_type,
        metadata: None,
        depth,
        is_last: false,
        ancestors_last: vec![],
        filelimit_exceeded: None,
        recursive_link: false,
    }
}

fn item(path: &str, kind: FileKind) -> DirItem {
    DirItem {
        path: fs(path),
        name: path.rsplit('/').next().unwrap().as_bytes().to_vec(),
        kind: Some(kind),
        link_to_dir: false,
        rank: 0,
        reserved: false,
        excluded: false,
        included: true,
        dir_included: false,
    }
}

fn on_volume(volume_serial: u64) -> Option<FileIdInfo> {
    Some(FileIdInfo { volume_serial, file_id: 5 })
}

#[test]
fn leaf_node_empty_children() {
    let node = leaf_node(entry("test", EntryType::File, 0));
    assert!(node.children.is_empty());
    assert_eq!(node.entry.name, b"test");
}

#[test]
fn check_one_fs_none_always_proceed() {
    assert!(matches!(check_one_fs(None, None), OnefsCheck::Proceed));
    assert!(matches!(check_one_fs(None, on_volume(3)), OnefsCheck::Proceed));
}

#[test]
fn check_one_fs_same_device() {
    assert!(matches!(check_one_fs(Some(3), on_volume(3)), OnefsCheck::Proceed));
}

#[test]
fn check_one_fs_different_device() {
    let fake = 3u64.wrapping_add(999);
    assert!(matches!(check_one_fs(Some(fake), on_volume(3)), OnefsCheck::DifferentDevice));
}

#[test]
fn check_one_fs_nonexistent() {
    let missing = std::path::Path::new("/no/such/path/42");
    let identity = if missing.exists() { on_volume(1) } else { None };
    let result = check_one_fs(Some(1), identity);
    assert!(!matches!(result, OnefsCheck::Proceed));
    assert_eq!(result, OnefsCheck::Unknown);
}

#[test]
fn resolve_long_root_disabled_passthrough() {
    let p = fs("/tmp/test");
    assert_eq!(resolve_long_root(&p, false, true, None, None), p);
}

#[test]
fn resolve_long_root_absolute() {
    let p = fs("/tmp");
    let resolved = resolve_long_root(&p, true, true, Some(fs("/private/tmp")), None);
    assert_eq!(resolved, p);
}

#[test]
fn resolve_long_root_relative_disabled() {
    let p = fs("relative/path");
    assert_eq!(resolve_long_root(&p, false, false, Some(fs("/x")), None), p);
}

#[test]
fn resolve_long_root_relative_falls_back() {
    let p = fs("relative/path");
    let canonical = fs("/real/path");
    let below = fs("/cwd/relative/path");
    assert_eq!(
        resolve_long_root(&p, true, false, Some(canonical.clone()), Some(below.clone())),
        canonical
    );
    assert_eq!(resolve_long_root(&p, true, false, None, Some(below.clone())), below);
    assert_eq!(resolve_long_root(&p, true, false, None, None), p);
    assert_eq!(absolute_root(&p, false, None, Some(below.clone())), below);
    assert_eq!(absolute_root(&p, true, None, Some(below)), p);
}

#[test]
fn collect_ads_children_regular_file_empty() {
    let ads = collect_ads_children(&fs("/d/plain.txt"), &vec![], 1);
    assert!(ads.is_empty());
}

#[test]
fn collect_ads_children_lists_streams_in_order() {
    let streams = vec![
        StreamInfo { name: b"one".to_vec(), size: 3 },
        StreamInfo { name: b"two".to_vec(), size: 4 },
    ];
    let ads = collect_ads_children(&fs("/d/f"), &streams, 7);
    assert_eq!(ads.len(), 2);
    assert_eq!(ads[0].entry.name, b"one");
    assert_eq!(ads[1].entry.name, b"two");
    assert_eq!(ads[1].entry.entry_type, EntryType::Stream);
    assert_eq!(ads[1].entry.depth, 7);
    assert_eq!(ads[1].entry.metadata.as_ref().unwrap().size, 4);
    assert_eq!(ads[0].entry.path, fs("/d/f"));
    assert!(ads[0].children.is_empty());
}

#[test]
fn make_file_node_basic() {
    let described = Ok(entry("/d/file.txt", EntryType::File, 1));
    let node = make_file_node(described, &fs("/d/file.txt"), 1, false, &vec![]).unwrap();
    assert_eq!(node.entry.name, b"file.txt");
    assert!(node.children.is_empty());
    assert!(matches!(node.entry.entry_type, EntryType::File));
}

#[test]
fn make_file_node_with_streams_and_errors() {
    let streams = vec![StreamInfo { name: b"s".to_vec(), size: 1 }];
    let described = Ok(entry("/d/f", EntryType::File, 1));
    let node = make_file_node(described, &fs("/d/f"), 1, true, &streams).unwrap();
    assert_eq!(node.children.len(), 1);
    assert_eq!(node.children[0].entry.depth, 2);
    let described = Ok(entry("/d/f", EntryType::File, 1));
    let node = make_file_node(described, &fs("/d/f"), 1, false, &streams).unwrap();
    assert!(node.children.is_empty());
    let error = TreeError::AccessDenied(fs("/d/f"));
    let failed = make_file_node(Err(error.clone()), &fs("/d/f"), 1, true, &streams);
    assert_eq!(failed.err().unwrap(), error);
}

#[test]
fn make_recursive_link_node_sets_flag() {
    let described = Ok(entry("/d/link_target.txt", EntryType::File, 2));
    let node = make_recursive_link_node(described).unwrap();
    assert!(node.entry.recursive_link);
    assert!(node.children.is_empty());
    let error = TreeError::Generic("gone".to_string());
    assert_eq!(make_recursive_link_node(Err(error.clone())).err().unwrap(), error);
}

#[test]
fn count_nodes_counts_every_level() {
    let file = leaf_node(entry("/r/d/f", EntryType::File, 2));
    let dir = Tree { entry: entry("/r/d", EntryType::Directory, 1), children: vec![file] };
    let other = leaf_node(entry("/r/g", EntryType::File, 1));
    let root = Tree { entry: entry("/r", EntryType::Directory, 0), children: vec![dir, other] };
    assert_eq!(root.count_nodes(), 4);
}

#[test]
fn push_error_basic() {
    let mut errors = Vec::new();
    push_error(&mut errors, TreeError::Generic("a".into()));
    push_error(&mut errors, TreeError::Generic("b".into()));
    assert_eq!(errors.len(), 2);
    assert_eq!(errors[1], TreeError::Generic("b".to_string()));
}

#[test]
fn io_faults_become_errors() {
    let p = fs("/x");
    assert_eq!(
        TreeError::from_io(p.clone(), IoFault::AccessDenied),
        TreeError::AccessDenied(p.clone())
    );
    assert_eq!(
        TreeError::from_io(p.clone(), IoFault::PathTooLong),
        TreeError::PathTooLong(p.clone())
    );
    let other = IoFault::Other("disk on fire".to_string());
    assert_eq!(TreeError::from_io(p.clone(), other.clone()), TreeError::Io(p, other.clone()));
    assert_eq!(other.message(), "disk on fire");
    assert_eq!(IoFault::UnknownVolume.message(), "cannot determine volume for --one-fs");
    assert_eq!(
        IoFault::UnknownRootVolume.message(),
        "--one-fs: cannot determine root volume; cross-device check skipped"
    );
}

#[test]
fn file_ids_are_needed_for_three_options() {
    let none = Config::default();
    assert!(!needs_file_id(&none));
    assert!(needs_file_id(&Config { one_fs: true, ..none }));
    assert!(needs_file_id(&Config { show_inodes: true, ..none }));
    assert!(needs_file_id(&Config { show_device: true, ..none }));
}

#[test]
fn root_device_only_with_one_fs() {
    let config = Config::default();
    let one_fs = Config { one_fs: true, ..config };
    assert_eq!(compute_root_device(&config, on_volume(8)), None);
    assert_eq!(compute_root_device(&one_fs, on_volume(8)), Some(8));
    assert_eq!(compute_root_device(&one_fs, None), None);
    assert_eq!(check_root_device(&config, &fs("/r"), None), None);
    assert_eq!(check_root_device(&one_fs, &fs("/r"), Some(8)), None);
    assert_eq!(
        check_root_device(&one_fs, &fs("/r"), None),
        Some(TreeError::Io(fs("/r"), IoFault::UnknownRootVolume))
    );
}

#[test]
fn descend_checks_in_turn() {
    let config = Config::default();
    let dir = entry("/r/d", EntryType::Directory, 1);
    let junction = entry("/r/j", EntryType::Junction { target: fs("/t") }, 1);
    let p = fs("/r/d");
    assert_eq!(check_descend(&dir, &p, 1, &config, None, None), DescendCheck::Proceed);
    assert_eq!(check_descend(&junction, &p, 1, &config, None, None), DescendCheck::Leaf);
    let shown = Config { show_junctions: true, ..config };
    assert_eq!(check_descend(&junction, &p, 1, &shown, None, None), DescendCheck::Proceed);
    let limited = Config { max_depth: Some(1), ..config };
    assert_eq!(check_descend(&dir, &p, 0, &limited, None, None), DescendCheck::Proceed);
    assert_eq!(check_descend(&dir, &p, 1, &limited, None, None), DescendCheck::Leaf);
    assert!(!needs_volume(&dir, 1, &limited, Some(4)));
    assert!(needs_volume(&dir, 0, &limited, Some(4)));
    assert!(!needs_volume(&dir, 0, &limited, None));
    assert_eq!(check_descend(&dir, &p, 1, &config, Some(4), on_volume(4)), DescendCheck::Proceed);
    assert_eq!(check_descend(&dir, &p, 1, &config, Some(4), on_volume(5)), DescendCheck::Leaf);
    assert_eq!(
        check_descend(&dir, &p, 1, &config, Some(4), None),
        DescendCheck::LeafWithError(TreeError::Io(fs("/r/d"), IoFault::UnknownVolume))
    );
}

#[test]
fn prune_spares_the_root_and_matching_directories() {
    let config = Config { prune: true, ..Config::default() };
    assert!(should_prune(&config, false, 1, true));
    assert!(!should_prune(&config, false, 0, true));
    assert!(!should_prune(&config, true, 1, true));
    assert!(!should_prune(&config, false, 1, false));
    assert!(!should_prune(&Config::default(), false, 1, true));
}

#[test]
fn depth_is_limited() {
    assert_eq!(check_depth(&fs("/x"), 4095), None);
    assert_eq!(check_depth(&fs("/x"), 4096), Some(TreeError::MaxDepthExceeded(fs("/x"))));
}

#[test]
fn filter_rules_one_by_one() {
    let config = Config::default();
    let ignore = IgnoreMatcher::new(true);
    let file = item("/r/f", FileKind::File);
    let include_file = FilterResult::Include { is_dir: false };
    let include_dir = FilterResult::Include { is_dir: true };
    assert_eq!(filter_entry(&config, &file, false, &ignore), include_file);
    let dir = item("/r/d", FileKind::Dir);
    assert_eq!(filter_entry(&config, &dir, false, &ignore), include_dir);

    let hidden = item("/r/.h", FileKind::File);
    assert_eq!(filter_entry(&config, &hidden, false, &ignore), FilterResult::Exclude);
    let all = Config { show_all: true, ..config };
    assert_eq!(filter_entry(&all, &hidden, false, &ignore), include_file);

    let unknown = DirItem { kind: None, ..file.clone() };
    assert_eq!(filter_entry(&config, &unknown, false, &ignore), FilterResult::Exclude);

    let dirs = Config { dirs_only: true, ..config };
    assert_eq!(filter_entry(&dirs, &file, false, &ignore), FilterResult::Exclude);
    assert_eq!(filter_entry(&dirs, &dir, false, &ignore), include_dir);
    let link = DirItem { link_to_dir: true, ..item("/r/l", FileKind::Symlink) };
    assert_eq!(filter_entry(&dirs, &link, false, &ignore), include_file);
    let followed = Config { follow_symlinks: true, ..config };
    assert_eq!(filter_entry(&followed, &link, false, &ignore), include_dir);
    let pruned = Config { prune: true, ..config };
    assert_eq!(filter_entry(&pruned, &link, false, &ignore), FilterResult::Exclude);
    let both = Config { prune: true, ..followed };
    assert_eq!(filter_entry(&both, &link, false, &ignore), include_dir);

    let reserved = DirItem { reserved: true, excluded: true, included: false, ..file.clone() };
    assert_eq!(filter_entry(&config, &reserved, false, &ignore), FilterResult::Reserved);
    let excluded = DirItem { excluded: true, ..dir.clone() };
    assert_eq!(filter_entry(&config, &excluded, true, &ignore), FilterResult::Exclude);
    let unmatched = DirItem { included: false, ..file.clone() };
    assert_eq!(filter_entry(&config, &unmatched, false, &ignore), FilterResult::Exclude);
    assert_eq!(filter_entry(&config, &unmatched, true, &ignore), include_file);
    let unmatched_dir = DirItem { included: false, ..dir.clone() };
    assert_eq!(filter_entry(&config, &unmatched_dir, false, &ignore), include_dir);

    let mut rules = IgnoreMatcher::new(true);
    let files = IgnoreFiles { gitignore: vec!["f".to_string()], rtignore: vec![] };
    rules.push_dir(&fs("/r"), &files);
    assert_eq!(filter_entry(&config, &file, false, &rules), FilterResult::Exclude);
    assert_eq!(filter_entry(&config, &dir, false, &rules), include_dir);
}

#[test]
fn link_targets_matter_only_for_some_options() {
    let config = Config::default();
    assert!(!needs_link_targets(&config));
    assert!(needs_link_targets(&Config { follow_symlinks: true, ..config }));
    assert!(needs_link_targets(&Config { dirs_only: true, ..config }));
    assert!(needs_link_targets(&Config { prune: true, ..config }));
    let ignore = IgnoreMatcher::new(false);
    let link = item("/r/l", FileKind::Symlink);
    let to_dir = DirItem { link_to_dir: true, ..link.clone() };
    assert_eq!(
        filter_entry(&config, &link, false, &ignore),
        filter_entry(&config, &to_dir, false, &ignore)
    );
}

#[test]
fn entries_are_planned() {
    let config = Config::default();
    let followed = Config { follow_symlinks: true, ..config };
    let ignore = IgnoreMatcher::new(false);
    let file = item("/r/f", FileKind::File);
    let dir = item("/r/d", FileKind::Dir);
    let link = DirItem { link_to_dir: true, ..item("/r/l", FileKind::Symlink) };
    assert_eq!(plan_child(&config, &file, false, &ignore), ChildPlan::File);
    assert_eq!(plan_child(&config, &dir, false, &ignore), ChildPlan::Descend);
    assert_eq!(plan_child(&followed, &dir, false, &ignore), ChildPlan::Descend);
    assert_eq!(plan_child(&config, &link, false, &ignore), ChildPlan::File);
    assert_eq!(plan_child(&followed, &link, false, &ignore), ChildPlan::CheckLink);
    let hidden = item("/r/.h", FileKind::Dir);
    assert_eq!(plan_child(&config, &hidden, false, &ignore), ChildPlan::Skip);
    let reserved = DirItem { reserved: true, ..file };
    assert_eq!(plan_child(&config, &reserved, false, &ignore), ChildPlan::Reserved);
}
