use retree::config::Config;
use retree::engine::{
    finish_traversal, pool_request, OrderedEngine, PoolRequest, Traversal, TraversalResult,
};
use retree::entry::{leaf_node, Entry, EntryType, Tree};
use retree::error::TreeError;
use retree::ignoring::IgnoreMatcher;
use retree::limiter::DirReadLimiter;
use retree::path::{FsPath, PathPart};
use retree::streaming::{StreamState, StreamingEngine, TreeStats};

fn fs(name: &str) -> FsPath {
    FsPath::from_parts(vec![PathPart::RootDir, PathPart::Normal(name.as_bytes().to_vec())])
}

fn node(name: &str, children: Vec<Tree>) -> Tree {
    let entry = Entry {
        path: fs(name),
        name: name.as_bytes().to_vec(),
        entry_type: EntryType::Directory,
        metadata: None,
        depth: 0,
        is_last: false,
        ancestors_last: vec![],
        filelimit_exceeded: None,
        recursive_link: false,
    };
    Tree { children, ..leaf_node(entry) }
}

#[test]
fn limiter_zero_becomes_one() {
    let limiter = DirReadLimiter::new(0);
    assert_eq!(limiter.max(), 1, "max=0 must clamp to 1 to prevent deadlock");
}

#[test]
fn limiter_acquire_up_to_max() {
    let mut limiter = DirReadLimiter::new(3);
    assert!(limiter.acquire());
    assert!(limiter.acquire());
    assert!(limiter.acquire());
    assert!(!limiter.acquire());
}

#[test]
fn limiter_guard_drops_on_scope_exit() {
    let mut limiter = DirReadLimiter::new(1);
    assert!(limiter.acquire());
    limiter.release();
    assert!(limiter.acquire());
}

#[test]
fn limiter_waits_until_a_permit_is_back() {
    let mut limiter = DirReadLimiter::new(1);
    assert!(limiter.acquire());
    assert!(!limiter.acquire());
    assert!(!limiter.acquire());
    limiter.release();
    assert!(limiter.acquire());
    assert!(!limiter.acquire());
}

#[test]
fn limiter_follows_the_queue_cap() {
    let config = Config::default();
    assert_eq!(OrderedEngine::limiter(&config).max(), 64);
    assert_eq!(OrderedEngine::limiter(&Config { queue_cap: Some(5), ..config }).max(), 5);
    assert_eq!(OrderedEngine::limiter(&Config { queue_cap: Some(0), ..config }).max(), 1);
}

#[test]
fn engine_no_pool_without_parallel() {
    let config = Config::default();
    let engine = OrderedEngine::new(&config);
    assert!(engine.pool.is_none());
    assert!(engine.failure.is_none());
}

#[test]
fn engine_creates_pool_with_parallel() {
    let config = Config { parallel: true, ..Default::default() };
    let engine = OrderedEngine::new(&config);
    assert!(engine.pool.is_some());
    assert!(engine.failure.is_none());
}

#[test]
fn engine_pool_respects_threads() {
    let config = Config { parallel: true, threads: Some(2), ..Default::default() };
    let engine = OrderedEngine::new(&config);
    assert!(engine.pool.is_some());
    assert_eq!(engine.pool.as_ref().unwrap().current_num_threads(), 2);
}

#[test]
fn engine_falls_back_without_workers() {
    let config = Config { parallel: true, ..Default::default() };
    let engine = OrderedEngine::with_pool(Err("no threads left".to_string()));
    assert!(engine.pool.is_none());
    assert_eq!(engine.failure.as_deref(), Some("no threads left"));
    let walk = engine.traverse(fs("r"), &config, None, IgnoreMatcher::new(false));
    assert!(matches!(walk, Traversal::Sequential(_)));
}

#[test]
fn engine_dispatches_on_the_pool() {
    let config = Config { parallel: true, threads: Some(1), ..Default::default() };
    let engine = OrderedEngine::new(&config);
    let walk = engine.traverse(fs("r"), &config, None, IgnoreMatcher::new(false));
    assert!(matches!(walk, Traversal::Parallel(_)));
}

#[test]
fn pool_requests_follow_the_options() {
    let config = Config::default();
    assert_eq!(pool_request(&config), None);
    let parallel = Config { parallel: true, ..config };
    let stack_size = 8 * 1024 * 1024;
    assert_eq!(pool_request(&parallel), Some(PoolRequest { stack_size, num_threads: 0 }));
    let threads = Config { threads: Some(3), ..parallel };
    assert_eq!(pool_request(&threads), Some(PoolRequest { stack_size, num_threads: 3 }));
    assert_eq!(pool_request(&Config { parallel: false, ..threads }), None);
}

#[test]
fn only_more_entries_than_the_limit_truncate() {
    let config = Config::default();
    for (max, truncated) in [(None, false), (Some(3), false), (Some(2), false), (Some(1), true)] {
        let tree = node("r", vec![node("a", vec![node("b", vec![])])]);
        let limited = Config { max_entries: max, ..config };
        let result = finish_traversal(&limited, vec![], Some(tree));
        assert_eq!(result.truncated, truncated);
        assert_eq!(result.tree.unwrap().count_nodes(), 3);
    }
    let errors = vec![TreeError::AccessDenied(fs("r"))];
    let limited = Config { max_entries: Some(0), ..config };
    let result = finish_traversal(&limited, errors, None);
    assert!(!result.truncated);
    assert!(result.tree.is_none());
    assert_eq!(result.errors.len(), 1);
}

#[test]
fn default_result_is_empty() {
    let result = TraversalResult::default();
    assert!(result.errors.is_empty());
    assert!(!result.truncated);
    assert!(result.tree.is_none());
}

#[test]
fn stream_state_stops_at_the_limit() {
    assert!(!StreamState::new(None, None, false).should_stop());
    assert!(!StreamState::new(Some(1), None, false).should_stop());
    assert!(StreamState::new(Some(0), None, false).should_stop());
}

#[test]
fn report_leaves_out_the_root() {
    let config = Config::default();
    let mut stats = TreeStats { directories: 0, files: 2 };
    assert_eq!(stats.report(&config), Some((0, 2)));
    stats.count_root();
    stats.directories += 3;
    assert_eq!(stats.report(&config), Some((3, 2)));
    assert_eq!(stats.report(&Config { no_report: true, ..config }), None);
}

#[test]
fn streaming_engine_asks_for_identities_when_needed() {
    let config = Config { show_inodes: true, ..Default::default() };
    let engine = StreamingEngine::new(&config);
    let walk = engine.traverse_and_render(fs("r"), None, IgnoreMatcher::new(false));
    assert!(walk.needs_file_id());
    let config = Config::default();
    let engine = StreamingEngine::new(&config);
    let walk = engine.traverse_and_render(fs("r"), None, IgnoreMatcher::new(false));
    assert!(!walk.needs_file_id());
}
