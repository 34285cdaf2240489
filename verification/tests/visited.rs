use retree::entry::FileIdInfo;
use retree::path::{FsPath, PathPart};
use retree::visited::{check_visited, make_visited_key, VisitedKey, VisitedSet};
use std::collections::HashSet;
use std::path::{Component, Path};

fn fs(text: &str) -> FsPath {
    let mut parts = Vec::new();
    for part in Path::new(text).components() {
        parts.push(match part {
            Component::Prefix(prefix) => {
                PathPart::Prefix(prefix.as_os_str().as_encoded_bytes().to_vec())
            }
            Component::RootDir => PathPart::RootDir,
            Component::CurDir => PathPart::CurDir,
            Component::ParentDir => PathPart::ParentDir,
            Component::Normal(name) => PathPart::Normal(name.as_encoded_bytes().to_vec()),
        });
    }
    FsPath::from_parts(parts)
}

/// The canonical form of a path, where it exists.
fn canonical(text: &str) -> Option<FsPath> {
    match Path::new(text).canonicalize() {
        Ok(path) => path.to_str().map(fs),
        Err(_) => None,
    }
}

fn text(path: &FsPath) -> String {
    String::from_utf8(path.render()).unwrap()
}

#[test]
fn visited_key_file_id_equal() {
    let a = VisitedKey::FileId { volume: 1, file_id: 100 };
    let b = VisitedKey::FileId { volume: 1, file_id: 100 };
    assert_eq!(a, b);
}

#[test]
fn visited_key_file_id_diff_volume() {
    let a = VisitedKey::FileId { volume: 1, file_id: 100 };
    let b = VisitedKey::FileId { volume: 2, file_id: 100 };
    assert_ne!(a, b);
}

#[test]
fn visited_key_file_id_diff_id() {
    let a = VisitedKey::FileId { volume: 1, file_id: 100 };
    let b = VisitedKey::FileId { volume: 1, file_id: 200 };
    assert_ne!(a, b);
}

#[test]
fn visited_key_path_equal() {
    let a = VisitedKey::Path(fs("/tmp/a"));
    let b = VisitedKey::Path(fs("/tmp/a"));
    assert_eq!(a, b);
}

#[test]
fn visited_key_path_diff() {
    let a = VisitedKey::Path(fs("/tmp/a"));
    let b = VisitedKey::Path(fs("/tmp/b"));
    assert_ne!(a, b);
}

#[test]
fn visited_key_variants_never_equal() {
    let a = VisitedKey::FileId { volume: 0, file_id: 0 };
    let b = VisitedKey::Path(FsPath::from_parts(vec![]));
    assert_ne!(a, b);
}

#[test]
fn visited_key_hashset_dedup() {
    let mut set = HashSet::new();
    let k = VisitedKey::FileId { volume: 1, file_id: 42 };
    assert!(set.insert(k.clone()));
    assert!(!set.insert(k), "duplicate must not be inserted");
    assert_eq!(set.len(), 1);
}

#[test]
fn visited_key_hashset_distinct() {
    let mut set = HashSet::new();
    set.insert(VisitedKey::FileId { volume: 1, file_id: 1 });
    set.insert(VisitedKey::FileId { volume: 1, file_id: 2 });
    set.insert(VisitedKey::Path(fs("/x")));
    assert_eq!(set.len(), 3);
}

#[test]
fn make_visited_key_real_dir() {
    let key = make_visited_key(&fs("/tmp"), None, canonical("/tmp"));
    match &key {
        VisitedKey::FileId { .. } => {}
        VisitedKey::Path(p) => assert!(Path::new(&text(p)).exists()),
    }
}

#[test]
fn make_visited_key_stable() {
    let k1 = make_visited_key(&fs("/tmp"), None, canonical("/tmp"));
    let k2 = make_visited_key(&fs("/tmp"), None, canonical("/tmp"));
    assert_eq!(k1, k2);
}

#[test]
fn make_visited_key_nonexistent_returns_path() {
    let path = "/no/such/path/99999";
    let key = make_visited_key(&fs(path), None, canonical(path));
    assert!(matches!(key, VisitedKey::Path(_)));
    assert_eq!(key, VisitedKey::Path(fs("/no/such/path/99999")));
}

#[test]
fn make_visited_key_different_dirs_differ() {
    let k1 = make_visited_key(&fs("/tmp"), None, canonical("/tmp"));
    let k2 = make_visited_key(&fs("/"), None, canonical("/"));
    assert_ne!(k1, k2);
}

#[test]
fn make_visited_key_prefers_the_identity() {
    let info = FileIdInfo { volume_serial: 7, file_id: 9 };
    let key = make_visited_key(&fs("/a"), Some(info), Some(fs("/b")));
    assert_eq!(key, VisitedKey::FileId { volume: 7, file_id: 9 });
    let key = make_visited_key(&fs("/a"), None, Some(fs("/b")));
    assert_eq!(key, VisitedKey::Path(fs("/b")));
}

#[test]
fn check_visited_new_returns_false() {
    let mut visited = VisitedSet::new();
    let key = VisitedKey::Path(fs("/a"));
    assert!(!check_visited(&mut visited, key), "first insert → false");
}

#[test]
fn check_visited_duplicate_returns_true() {
    let mut visited = VisitedSet::new();
    let k1 = VisitedKey::Path(fs("/a"));
    let k2 = VisitedKey::Path(fs("/a"));
    assert!(!check_visited(&mut visited, k1));
    assert!(check_visited(&mut visited, k2), "duplicate → true");
}

#[test]
fn visited_set_tells_keys_apart() {
    let mut visited = VisitedSet::new();
    assert!(visited.insert(VisitedKey::FileId { volume: 1, file_id: 0 }));
    assert!(visited.insert(VisitedKey::FileId { volume: 0, file_id: 1 }));
    assert!(visited.insert(VisitedKey::FileId { volume: u64::MAX, file_id: u64::MAX }));
    assert!(!visited.insert(VisitedKey::FileId { volume: 1, file_id: 0 }));
    assert!(visited.insert(VisitedKey::Path(fs("/a/b"))));
    assert!(!visited.insert(VisitedKey::Path(fs("/a/b"))));
    assert!(visited.contains(&VisitedKey::FileId { volume: 0, file_id: 1 }));
    assert!(!visited.contains(&VisitedKey::FileId { volume: 0, file_id: 0 }));
    assert!(visited.contains(&VisitedKey::Path(fs("/a/b"))));
    assert!(!visited.contains(&VisitedKey::Path(fs("/a"))));
}

#[test]
fn paths_are_rendered_and_compared_by_component() {
    assert_eq!(text(&fs("/a/b")), "/a/b");
    assert_eq!(text(&fs("a/../b")), "a/../b");
    assert_eq!(text(&fs("/")), "/");
    assert_eq!(text(&fs("./x")), "./x");
    assert_eq!(text(&FsPath::from_parts(vec![])), "");
    assert!(fs("/a/b").same(&fs("/a//b/")));
    assert!(!fs("/a/b").same(&fs("/a/bc")));
    assert!(fs("/a").is_prefix_of(&fs("/a/b")));
    assert!(!fs("/a").is_prefix_of(&fs("/ab")));
    assert_eq!(text(&fs("/a/b/c").relative_to(&fs("/a"))), "b/c");
    assert_eq!(text(&fs("/x/y").relative_to(&fs("/a"))), "/x/y");
    assert_eq!(text(&fs("/a").relative_to(&fs("/a"))), "");
}

#[test]
fn ancestors_come_outermost_first() {
    let above: Vec<String> = fs("/a/b/c").ancestors_above().iter().map(text).collect();
    assert_eq!(above, vec!["/", "/a", "/a/b"]);
    let above: Vec<String> = fs("a/b").ancestors_above().iter().map(text).collect();
    assert_eq!(above, vec!["", "a"]);
    assert!(fs("/").ancestors_above().is_empty());
    let expected: Vec<String> = {
        let mut all: Vec<String> = Path::new("/p/q/r")
            .ancestors()
            .skip(1)
            .map(|dir| dir.to_str().unwrap().to_string())
            .collect();
        all.reverse();
        all
    };
    let found: Vec<String> = fs("/p/q/r").ancestors_above().iter().map(text).collect();
    assert_eq!(found, expected);
}
