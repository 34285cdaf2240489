//! What the user asked of a traversal.

use vstd::prelude::*;

verus! {

/// The options that traversal reads.
#[derive(Clone, Copy, Debug, PartialEq, Eq)]
pub struct Config {
    /// List entries whose name starts with a dot.
    pub show_all: bool,
    /// List directories only.
    pub dirs_only: bool,
    /// Descend into symbolic links to directories.
    pub follow_symlinks: bool,
    /// Descend into junctions.
    pub show_junctions: bool,
    /// Drop directories that end up empty.
    pub prune: bool,
    /// Read no `.gitignore` and `.rtignore` files.
    pub no_ignore: bool,
    /// Stay on the file system of the root.
    pub one_fs: bool,
    /// Show inode numbers.
    pub show_inodes: bool,
    /// Show device numbers.
    pub show_device: bool,
    /// Show permissions.
    pub show_permissions: bool,
    /// List alternate data streams.
    pub show_streams: bool,
    /// Use long path syntax where the platform has one.
    pub long_paths: bool,
    /// Leave out the closing report.
    pub no_report: bool,
    /// How deep to descend.
    pub max_depth: Option<usize>,
    /// How many entries to show.
    pub max_entries: Option<usize>,
    /// Directories with more entries than this are not opened.
    pub file_limit: Option<usize>,
    /// Traverse in parallel.
    pub parallel: bool,
    /// The number of worker threads.
    pub threads: Option<usize>,
    /// The number of directories that may be read at the same time.
    pub queue_cap: Option<usize>,
}

impl Default for Config {
    /// Every option off, no limit set.
    fn default() -> (result: Config)
        ensures
            result == (Config {
                show_all: false,
                dirs_only: false,
                follow_symlinks: false,
                show_junctions: false,
                prune: false,
                no_ignore: false,
                one_fs: false,
                show_inodes: false,
                show_device: false,
                show_permissions: false,
                show_streams: false,
                long_paths: false,
                no_report: false,
                max_depth: None,
                max_entries: None,
                file_limit: None,
                parallel: false,
                threads: None,
                queue_cap: None,
            }),
    {
        Config {
            show_all: false,
            dirs_only: false,
            follow_symlinks: false,
            show_junctions: false,
            prune: false,
            no_ignore: false,
            one_fs: false,
            show_inodes: false,
            show_device: false,
            show_permissions: false,
            show_streams: false,
            long_paths: false,
            no_report: false,
            max_depth: None,
            max_entries: None,
            file_limit: None,
            parallel: false,
            threads: None,
            queue_cap: None,
        }
    }
}

/// Whether the options call for file identities: inode, device or file system boundary.
pub open spec fn wants_file_id(config: Config) -> bool {
    config.one_fs || config.show_inodes || config.show_device
}

/// Whether configuration requires file identity lookups (inode, device, one-fs).
pub fn needs_file_id(config: &Config) -> (result: bool)
    ensures
        result == wants_file_id(*config),
{
    config.one_fs || config.show_inodes || config.show_device
}

} // verus!
