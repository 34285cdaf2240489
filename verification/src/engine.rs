//! The ordered engine: sequential or parallel, with the same result.

use crate::config::Config;
use crate::entry::{capped, Tree, TreeView};
use crate::error::TreeError;
use crate::ignoring::IgnoreMatcher;
use crate::limiter::DirReadLimiter;
use crate::node::tree_view;
use crate::path::FsPath;
use crate::task::{root_task, NodeTask};
use crate::walk::{start_view, OrderedWalk};
use rayon::ThreadPool;
use vstd::prelude::*;

verus! {

/// A pool of worker threads, as the `rayon` crate keeps it.
#[verifier::external_type_specification]
#[verifier::external_body]
pub struct ExThreadPool(ThreadPool);

/// The stack size of a worker thread: that of the main thread.
pub const WORKER_STACK_SIZE: usize = 8388608;

/// The number of directories that may be read at the same time unless the options say
/// otherwise.
pub const DEFAULT_QUEUE_CAP: usize = 64;

/// The pool of worker threads to ask for.
#[derive(Clone, Copy, Debug, PartialEq, Eq)]
pub struct PoolRequest {
    pub stack_size: usize,
    /// Zero leaves the number to the pool.
    pub num_threads: usize,
}

/// The pool that the options call for: none unless traversal is parallel.
pub open spec fn wanted_pool(config: Config) -> Option<PoolRequest> {
    if config.parallel {
        Some(
            PoolRequest {
                stack_size: WORKER_STACK_SIZE,
                num_threads: match config.threads {
                    Some(threads) => threads,
                    None => 0,
                },
            },
        )
    } else {
        None
    }
}

/// The pool that the options call for.
pub fn pool_request(config: &Config) -> (result: Option<PoolRequest>)
    ensures
        result == wanted_pool(*config),
{
    if !config.parallel {
        return None;
    }
    let num_threads: usize = match config.threads {
        Some(threads) => threads,
        None => 0,
    };
    Some(PoolRequest { stack_size: WORKER_STACK_SIZE, num_threads })
}

/// The number of worker threads that a pool holds.
pub uninterp spec fn worker_count(pool: ThreadPool) -> nat;

/// The stack size that was asked for when the worker threads of a pool were started; the
/// platform may give them more.
pub uninterp spec fn worker_stack(pool: ThreadPool) -> nat;

/// The largest number of worker threads that a pool takes on every platform.
pub const PORTABLE_THREADS: usize = 255;

/// Whether a pool is what a request asks for: its threads were started with the stack size
/// asked for, and there are as many as asked for, or fewer where that is more than the
/// platform takes.
pub open spec fn meets(pool: ThreadPool, request: PoolRequest) -> bool {
    &&& worker_stack(pool) == request.stack_size
    &&& worker_count(pool) > 0
    &&& 0 < request.num_threads <= PORTABLE_THREADS ==> worker_count(pool) == request.num_threads
    &&& request.num_threads > PORTABLE_THREADS ==> PORTABLE_THREADS <= worker_count(pool)
        <= request.num_threads
}

/// Starts the worker threads of a pool.
///
/// Trusted: `ThreadPoolBuilder::build` with the stack size and the number of threads of the
/// request. A pool that could be started has as many threads as the request asks for, or as
/// many as the platform takes where that is fewer, and never none; they were started with
/// the stack size of the request. Whether the threads can be started, what is said where they
/// cannot, and how many there are where the number is zero, is left unsaid: it is up to the
/// machine.
#[verifier::external_body]
fn build_pool(request: PoolRequest) -> (result: Result<ThreadPool, String>)
    ensures
        result is Ok ==> worker_stack(result->Ok_0) == request.stack_size,
        result is Ok ==> worker_count(result->Ok_0) > 0,
        result is Ok && 0 < request.num_threads <= PORTABLE_THREADS ==> worker_count(
            result->Ok_0,
        ) == request.num_threads,
        result is Ok && request.num_threads > PORTABLE_THREADS ==> PORTABLE_THREADS
            <= worker_count(result->Ok_0) <= request.num_threads,
{
    rayon::ThreadPoolBuilder::new()
        .stack_size(request.stack_size)
        .num_threads(request.num_threads)
        .build()
        .map_err(|error| error.to_string())
}

/// How many directories may be read at the same time.
pub open spec fn reads_at_once(config: Config) -> nat {
    match config.queue_cap {
        Some(cap) => if cap == 0 {
            1
        } else {
            cap as nat
        },
        None => DEFAULT_QUEUE_CAP as nat,
    }
}

/// Result of tree traversal: the tree and any errors encountered.
#[derive(Debug)]
pub struct TraversalResult {
    pub errors: Vec<TreeError>,
    pub truncated: bool,
    /// Hierarchical tree for rendering
    pub tree: Option<Tree>,
}

impl Default for TraversalResult {
    /// Nothing found, nothing wrong.
    fn default() -> (result: TraversalResult)
        ensures
            result.errors@.len() == 0,
            !result.truncated,
            result.tree is None,
    {
        TraversalResult { errors: Vec::new(), truncated: false, tree: None }
    }
}

/// Whether a tree has more entries below its root than may be shown.
pub open spec fn is_truncated(config: Config, tree: Option<TreeView>) -> bool {
    match (config.max_entries, tree) {
        (Some(max), Some(tree)) => capped(tree.count()) - 1 > max,
        _ => false,
    }
}

/// The result of a traversal that found `tree` and met `errors`.
///
/// The whole tree is kept; where it has more entries than may be shown, the result says so.
pub fn finish_traversal(config: &Config, errors: Vec<TreeError>, tree: Option<Tree>) -> (result:
    TraversalResult)
    ensures
        result.errors == errors,
        result.tree == tree,
        result.truncated == is_truncated(*config, tree_view(tree)),
{
    let truncated = match (&tree, config.max_entries) {
        (Some(tree), Some(max)) => tree.count_nodes() - 1 > max,
        _ => false,
    };
    TraversalResult { errors, truncated, tree }
}

/// A traversal that has begun.
#[derive(Debug)]
pub enum Traversal {
    /// One directory after the other.
    Sequential(OrderedWalk),
    /// Directories side by side, on the worker threads of the engine.
    Parallel(NodeTask),
}

/// The engine that builds the whole tree.
#[derive(Debug)]
pub struct OrderedEngine {
    pub pool: Option<ThreadPool>,
    /// Why there are no worker threads although the options call for them.
    pub failure: Option<String>,
}

impl OrderedEngine {
    /// An engine for the given options: with worker threads if traversal is parallel and
    /// they could be started. The threads are those that the options call for.
    ///
    /// Whether they can be started is up to the machine; `with_pool` says what the engine is
    /// in either case.
    pub fn new(config: &Config) -> (result: OrderedEngine)
        ensures
            match wanted_pool(*config) {
                Some(request) => match result.pool {
                    Some(pool) => meets(pool, request) && result.failure is None,
                    None => result.failure is Some,
                },
                None => result.pool is None && result.failure is None,
            },
    {
        match pool_request(config) {
            Some(request) => OrderedEngine::with_pool(build_pool(request)),
            None => OrderedEngine { pool: None, failure: None },
        }
    }

    /// An engine for options that call for worker threads, where `built` are the threads
    /// that were started, or why they could not be: without them traversal is sequential.
    pub fn with_pool(built: Result<ThreadPool, String>) -> (result: OrderedEngine)
        ensures
            match built {
                Ok(pool) => result == (OrderedEngine { pool: Some(pool), failure: None }),
                Err(reason) => result == (OrderedEngine { pool: None, failure: Some(reason) }),
            },
    {
        match built {
            Ok(pool) => OrderedEngine { pool: Some(pool), failure: None },
            Err(reason) => OrderedEngine { pool: None, failure: Some(reason) },
        }
    }

    /// The limiter for directory reads in parallel mode.
    pub fn limiter(config: &Config) -> (result: DirReadLimiter)
        ensures
            result.wf(),
            result.active() == 0,
            result.limit() == (match config.queue_cap {
                Some(cap) => if cap == 0 {
                    1
                } else {
                    cap as nat
                },
                None => DEFAULT_QUEUE_CAP as nat,
            }),
            result.limit() == reads_at_once(*config),
    {
        DirReadLimiter::new(
            match config.queue_cap {
                Some(cap) => cap,
                None => DEFAULT_QUEUE_CAP,
            },
        )
    }

    /// Begins the traversal of `root`, in parallel where there are worker threads; the
    /// driver carries it on.
    ///
    /// `root_device` is the volume of the root where the file system boundary is watched;
    /// `ignore` holds the rules of the directories above the root.
    pub fn traverse(
        &self,
        root: FsPath,
        config: &Config,
        root_device: Option<u64>,
        ignore: IgnoreMatcher,
    ) -> (result: Traversal)
        ensures
            match result {
                Traversal::Sequential(walk) => {
                    &&& self.pool is None
                    &&& walk@ == start_view(*config, root, root_device, ignore@).settled()
                    &&& walk@.wf()
                },
                Traversal::Parallel(task) => {
                    &&& self.pool is Some
                    &&& task@ == root_task(*config, root, root_device, ignore@)
                    &&& task@.wf()
                },
            },
    {
        match &self.pool {
            Some(_) => Traversal::Parallel(NodeTask::start(config, root, root_device, ignore)),
            None => Traversal::Sequential(OrderedWalk::start(config, root, root_device, ignore)),
        }
    }
}

} // verus!
