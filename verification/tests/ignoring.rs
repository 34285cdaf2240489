use retree::config::Config;
use retree::ignoring::{compile_rules, rules_above, IgnoreFiles, IgnoreMatcher};
use retree::path::{FsPath, PathPart};

fn fs(text: &str) -> FsPath {
    let mut parts = Vec::new();
    if text.starts_with('/') {
        parts.push(PathPart::RootDir);
    }
    for name in text.split('/') {
        if !name.is_empty() {
            parts.push(PathPart::Normal(name.as_bytes().to_vec()));
        }
    }
    FsPath::from_parts(parts)
}

fn lines(text: &str) -> Vec<String> {
    text.lines().map(|line| line.to_string()).collect()
}

fn git(text: &str) -> IgnoreFiles {
    IgnoreFiles { gitignore: lines(text), rtignore: vec![] }
}

fn none() -> IgnoreFiles {
    git("")
}

#[test]
fn ignore_matcher_respects_gitignore() {
    let mut ignore = IgnoreMatcher::new(true);
    ignore.push_dir(&fs("/t"), &git("ignored_file.txt\n"));
    assert!(ignore.is_ignored(&fs("/t/ignored_file.txt"), false));
    assert!(!ignore.is_ignored(&fs("/t/normal_file.txt"), false));
}

#[test]
fn ignore_matcher_respects_rtignore() {
    let mut ignore = IgnoreMatcher::new(true);
    let files = IgnoreFiles { gitignore: vec![], rtignore: lines("rt_ignored.txt\n") };
    ignore.push_dir(&fs("/t"), &files);
    assert!(ignore.is_ignored(&fs("/t/rt_ignored.txt"), false));
}

#[test]
fn ignore_matcher_disabled() {
    let mut ignore = IgnoreMatcher::new(false);
    assert!(!ignore.is_enabled());
    ignore.push_dir(&fs("/t"), &git("ignored_file.txt\n"));
    assert!(!ignore.is_ignored(&fs("/t/ignored_file.txt"), false));
}

#[test]
fn seed_from_ancestors_applies_parent_gitignore_when_root_is_subdir() {
    let sub_root = fs("/project/dir");
    let mut ignore = IgnoreMatcher::new(true);
    let above = vec![none(), git("/dir/ignore/\n")];
    ignore.seed_from_ancestors(&sub_root, &sub_root, &above);
    ignore.push_dir(&sub_root, &none());
    assert!(ignore.is_ignored(&fs("/project/dir/ignore"), true));
    assert!(!ignore.is_ignored(&fs("/project/dir/keep.txt"), false));
    assert!(!ignore.is_ignored(&fs("/project/dir/ignore"), false));
}

#[test]
fn seed_from_ancestors_noop_when_disabled() {
    let sub_root = fs("/project/dir");
    let mut ignore = IgnoreMatcher::new(false);
    let above = vec![none(), git("/dir/ignore/\n")];
    ignore.seed_from_ancestors(&sub_root, &sub_root, &above);
    ignore.push_dir(&sub_root, &none());
    assert!(!ignore.is_ignored(&fs("/project/dir/ignore"), true));
}

#[test]
fn rules_above_follow_the_options() {
    let config = Config::default();
    let root = fs("/p/q");
    let above = vec![git("*.log\n"), none()];
    let ignore = rules_above(&config, &root, &root, &above);
    assert!(ignore.is_enabled());
    assert!(ignore.is_ignored(&fs("/p/q/x.log"), false));
    assert!(!ignore.is_ignored(&fs("/p/q/x.txt"), false));
    let off = Config { no_ignore: true, ..config };
    let ignore = rules_above(&off, &root, &root, &vec![]);
    assert!(!ignore.is_enabled());
    assert!(!ignore.is_ignored(&fs("/p/q/x.log"), false));
}

#[test]
fn last_rule_wins_and_rtignore_comes_last() {
    let mut ignore = IgnoreMatcher::new(true);
    ignore.push_dir(&fs("/t"), &git("*.txt\n!keep.txt\n"));
    assert!(ignore.is_ignored(&fs("/t/a.txt"), false));
    assert!(!ignore.is_ignored(&fs("/t/keep.txt"), false));
    let mut ignore = IgnoreMatcher::new(true);
    let files = IgnoreFiles { gitignore: lines("*.txt\n"), rtignore: lines("!b.txt\n") };
    ignore.push_dir(&fs("/t"), &files);
    assert!(ignore.is_ignored(&fs("/t/a.txt"), false));
    assert!(!ignore.is_ignored(&fs("/t/b.txt"), false));
    let mut ignore = IgnoreMatcher::new(true);
    let files = IgnoreFiles { gitignore: lines("!b.txt\n"), rtignore: lines("*.txt\n") };
    ignore.push_dir(&fs("/t"), &files);
    assert!(ignore.is_ignored(&fs("/t/b.txt"), false));
}

#[test]
fn rules_of_inner_directories_do_not_exempt() {
    let mut ignore = IgnoreMatcher::new(true);
    ignore.push_dir(&fs("/t"), &git("*.txt\n"));
    ignore.push_dir(&fs("/t/in"), &git("!a.txt\n"));
    assert!(ignore.is_ignored(&fs("/t/in/a.txt"), false));
}

#[test]
fn anchored_rules_hold_below_their_directory() {
    let mut ignore = IgnoreMatcher::new(true);
    ignore.push_dir(&fs("/t"), &git("/build\nsub/x\n"));
    assert!(ignore.is_ignored(&fs("/t/build"), true));
    assert!(!ignore.is_ignored(&fs("/t/in/build"), true));
    assert!(ignore.is_ignored(&fs("/t/sub/x"), false));
    assert!(!ignore.is_ignored(&fs("/t/x"), false));
}

#[test]
fn comments_blanks_marks_and_bad_lines_are_harmless() {
    let mut ignore = IgnoreMatcher::new(true);
    ignore.push_dir(&fs("/t"), &git("\u{feff}a.txt\n# b.txt\n\n[z-a]\nc.txt\n"));
    assert!(ignore.is_ignored(&fs("/t/a.txt"), false));
    assert!(!ignore.is_ignored(&fs("/t/b.txt"), false));
    assert!(ignore.is_ignored(&fs("/t/c.txt"), false));
    let mut ignore = IgnoreMatcher::new(true);
    ignore.push_dir(&fs("/t"), &git("x\n\u{feff}a.txt\n"));
    assert!(!ignore.is_ignored(&fs("/t/a.txt"), false));
}

#[test]
fn pushing_twice_is_pushing_once() {
    let files = git("*.o\n!keep.o\n");
    let mut once = IgnoreMatcher::new(true);
    once.push_dir(&fs("/t"), &files);
    let mut twice = once.clone_for_child();
    twice.push_dir(&fs("/t"), &files);
    for name in ["/t/a.o", "/t/keep.o", "/t/a.c", "/t/d/b.o"] {
        assert_eq!(once.is_ignored(&fs(name), false), twice.is_ignored(&fs(name), false));
    }
    assert!(twice.is_ignored(&fs("/t/a.o"), false));
}

#[test]
fn clones_go_their_own_way() {
    let mut parent = IgnoreMatcher::new(true);
    parent.push_dir(&fs("/t"), &git("a\n"));
    let mut child = parent.clone_for_child();
    child.push_dir(&fs("/t/d"), &git("b\n"));
    assert!(child.is_ignored(&fs("/t/d/a"), false));
    assert!(child.is_ignored(&fs("/t/d/b"), false));
    assert!(!parent.is_ignored(&fs("/t/d/b"), false));
}

#[test]
fn empty_rules_compile_and_ignore_nothing() {
    assert!(compile_rules(&fs("/t"), &none()).is_some());
    let mut ignore = IgnoreMatcher::new(true);
    ignore.push_rules(&fs("/t"), compile_rules(&fs("/t"), &none()), None);
    ignore.push_rules(&fs("/t"), None, None);
    assert!(!ignore.is_ignored(&fs("/t/a"), false));
    ignore.push_rules(&fs("/t"), compile_rules(&fs("/t"), &git("a\n")), None);
    assert!(ignore.is_ignored(&fs("/t/a"), false));
}

#[test]
fn rules_above_a_relative_root_are_anchored_at_their_directory() {
    let root = fs("project/dir");
    let absolute = fs("/w/project/dir");
    let above = vec![git("/keep.txt\n"), none(), git("/dir/ignore/\n*.log\n")];
    let mut ignore = IgnoreMatcher::new(true);
    ignore.seed_from_ancestors(&root, &absolute, &above);
    ignore.push_dir(&root, &none());
    assert!(ignore.is_ignored(&fs("project/dir/ignore"), true));
    assert!(!ignore.is_ignored(&fs("project/dir/ignore"), false));
    assert!(!ignore.is_ignored(&fs("project/dir/in/ignore"), true));
    assert!(ignore.is_ignored(&fs("project/dir/in/x.log"), false));
    assert!(!ignore.is_ignored(&fs("project/dir/keep.txt"), false));
}

#[test]
fn rules_far_above_do_not_reach_into_the_working_directory() {
    let here = FsPath::from_parts(vec![PathPart::CurDir]);
    let entry = |name: &str| {
        FsPath::from_parts(vec![PathPart::CurDir, PathPart::Normal(name.as_bytes().to_vec())])
    };
    let above = vec![git("/x\n"), git("/d/y\n")];
    let mut ignore = IgnoreMatcher::new(true);
    ignore.seed_from_ancestors(&here, &fs("/w/d"), &above);
    assert!(!ignore.is_ignored(&entry("x"), false));
    assert!(ignore.is_ignored(&entry("y"), false));
}

#[test]
fn relative_roots_match_relative_paths() {
    let mut ignore = IgnoreMatcher::new(true);
    ignore.push_dir(&fs("work"), &git("/out\n"));
    assert!(ignore.is_ignored(&fs("work/out"), true));
    assert!(!ignore.is_ignored(&fs("work/in/out"), true));
}
