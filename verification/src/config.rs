//! What a timeline is configured with, and where a project keeps it.
use vstd::prelude::*;
use vstd::string::*;

pub use crate::path::{normalize_relative_path, resolve_input_path};

use crate::path::{ancestors, ancestors_of, join_path, joined_path};
use crate::text::{concat, texts};

verus! {

/// The directory of a project that holds its timeline.
pub const TIMELINE_DIR_NAME: &'static str = ".timeline";

/// The file in that directory that holds the rows.
pub const DATABASE_FILE_NAME: &'static str = "kairos.db";

/// The name that older projects gave to that file.
pub const LEGACY_DATABASE_FILE_NAME: &'static str = "keiros.db";

pub const DEFAULT_RETENTION_DAYS: i64 = 7;

pub const DEFAULT_DEBOUNCE_MS: u64 = 1_200;

pub const DEFAULT_MAX_FILE_SIZE_BYTES: u64 = 1_048_576;

pub const FULL_SNAPSHOT_INTERVAL: i64 = 20;

pub const WATCHER_HEARTBEAT_MS: u64 = 2_000;

pub const WATCHER_STALE_AFTER_MS: i64 = 10_000;

pub const DAY_MS: i64 = 86_400_000;

/// The settings of a timeline.
#[derive(Debug, Clone, Copy)]
pub struct TimelineConfig {
    pub retention_days: i64,
    pub debounce_ms: u64,
    pub max_file_size_bytes: u64,
    pub full_snapshot_interval: i64,
}

impl Default for TimelineConfig {
    fn default() -> (c: Self)
        ensures
            c == (TimelineConfig {
                retention_days: 7,
                debounce_ms: 1_200,
                max_file_size_bytes: 1_048_576,
                full_snapshot_interval: 20,
            }),
    {
        TimelineConfig {
            retention_days: DEFAULT_RETENTION_DAYS,
            debounce_ms: DEFAULT_DEBOUNCE_MS,
            max_file_size_bytes: DEFAULT_MAX_FILE_SIZE_BYTES,
            full_snapshot_interval: FULL_SNAPSHOT_INTERVAL,
        }
    }
}

/// Where a project keeps its timeline.
#[derive(Debug, Clone)]
pub struct ProjectPaths {
    pub root: String,
    pub timeline_dir: String,
    pub database_path: String,
}

/// The directory of a project that holds its timeline.
pub open spec fn timeline_dir_of(root: Seq<char>) -> Seq<char> {
    joined_path(root, ".timeline"@)
}

/// The name of the file that holds the rows, by what the timeline directory holds. A file
/// under the older name is kept to where there is none under the current name.
pub open spec fn database_name(has_database: bool, has_legacy_database: bool) -> Seq<char> {
    if has_legacy_database && !has_database {
        "keiros.db"@
    } else {
        "kairos.db"@
    }
}

/// What is found under a directory that may be a project.
#[derive(Debug, Clone, Copy)]
pub struct TimelineMarks {
    pub has_timeline: bool,
    pub has_database: bool,
    pub has_legacy_database: bool,
}

/// Why there is no project to work on.
#[derive(Debug, Clone, Copy, PartialEq, Eq, Structural)]
pub enum ConfigError {
    /// The path is not there.
    Missing,
    /// The path is no directory.
    NotADirectory,
    /// Neither the directory nor any above it holds a timeline.
    NoTimeline,
}

impl ConfigError {
    /// What the error says of `path` to the user.
    pub fn message(&self, path: &str) -> (m: String)
        ensures
            m@ == (match *self {
                ConfigError::Missing => path@ + " does not exist"@,
                ConfigError::NotADirectory => path@ + " is not a directory"@,
                ConfigError::NoTimeline => "could not find a .timeline directory. Run `keiros watch` from the project root first."@,
            }),
    {
        match self {
            ConfigError::Missing => concat(path, " does not exist"),
            ConfigError::NotADirectory => concat(path, " is not a directory"),
            ConfigError::NoTimeline => {
                "could not find a .timeline directory. Run `keiros watch` from the project root first.".to_owned()
            },
        }
    }
}

/// Whether a path can be a project directory.
pub open spec fn checked_dir(exists: bool, is_dir: bool) -> Result<(), ConfigError> {
    if !exists {
        Err(ConfigError::Missing)
    } else if !is_dir {
        Err(ConfigError::NotADirectory)
    } else {
        Ok(())
    }
}

/// Refuses what is no directory, by what is found under the path.
pub fn validate_existing_dir(exists: bool, is_dir: bool) -> (res: Result<(), ConfigError>)
    ensures
        res == checked_dir(exists, is_dir),
{
    if !exists {
        Err(ConfigError::Missing)
    } else if !is_dir {
        Err(ConfigError::NotADirectory)
    } else {
        Ok(())
    }
}

/// The first of several directories that holds a timeline.
pub open spec fn first_marked(marks: Seq<TimelineMarks>) -> Option<nat>
    decreases marks.len(),
{
    if marks.len() == 0 {
        None
    } else {
        match first_marked(marks.drop_last()) {
            Some(i) => Some(i),
            None => if marks.last().has_timeline {
                Some((marks.len() - 1) as nat)
            } else {
                None
            },
        }
    }
}

impl ProjectPaths {
    /// Whether these are the paths of a project whose rows are in a file of that name.
    pub open spec fn are_of(&self, root: Seq<char>, name: Seq<char>) -> bool {
        &&& self.root@ == root
        &&& self.timeline_dir@ == timeline_dir_of(root)
        &&& self.database_path@ == joined_path(timeline_dir_of(root), name)
    }

    /// Where a new project keeps its timeline.
    pub fn from_root(root: String) -> (p: Self)
        ensures
            p.are_of(root@, "kairos.db"@),
    {
        Self::from_existing(root, false, false)
    }

    /// Where a project keeps its timeline, given which files its timeline directory holds.
    pub fn from_existing(root: String, has_database: bool, has_legacy_database: bool) -> (p: Self)
        ensures
            p.are_of(root@, database_name(has_database, has_legacy_database)),
    {
        let timeline_dir = join_path(root.as_str(), TIMELINE_DIR_NAME);
        let name = if has_legacy_database && !has_database {
            LEGACY_DATABASE_FILE_NAME
        } else {
            DATABASE_FILE_NAME
        };
        let database_path = join_path(timeline_dir.as_str(), name);
        ProjectPaths { root, timeline_dir, database_path }
    }

    /// The project that a directory belongs to: the nearest of it and the directories above
    /// it that holds a timeline. `marks` tells what is found under each, nearest first.
    pub fn discover(start: &str, marks: &Vec<TimelineMarks>) -> (res: Result<Self, ConfigError>)
        requires
            marks@.len() == ancestors_of(start@).len(),
        ensures
            match res {
                Ok(paths) => {
                    &&& first_marked(marks@) matches Some(i)
                    &&& paths.are_of(
                        ancestors_of(start@)[i as int],
                        database_name(
                            marks@[i as int].has_database,
                            marks@[i as int].has_legacy_database,
                        ),
                    )
                },
                Err(e) => first_marked(marks@) is None && e == ConfigError::NoTimeline,
            },
    {
        let all = ancestors(start);
        let ghost views = texts(all@);
        let mut i: usize = 0;
        while i < marks.len()
            invariant
                i <= marks@.len() == all@.len(),
                views == texts(all@),
                views == ancestors_of(start@),
                first_marked(marks@.take(i as int)) is None,
            decreases marks@.len() - i,
        {
            assert(marks@.take(i + 1).drop_last() =~= marks@.take(i as int));
            if marks[i].has_timeline {
                proof {
                    lemma_first_mark_stays(marks@, i + 1);
                    assert(views[i as int] == all@[i as int]@);
                }
                return Ok(
                    Self::from_existing(
                        all[i].clone(),
                        marks[i].has_database,
                        marks[i].has_legacy_database,
                    ),
                );
            }
            i += 1;
        }
        assert(marks@.take(i as int) =~= marks@);
        Err(ConfigError::NoTimeline)
    }
}

proof fn lemma_first_mark_stays(marks: Seq<TimelineMarks>, n: int)
    requires
        0 <= n <= marks.len(),
        first_marked(marks.take(n)) is Some,
    ensures
        first_marked(marks) == first_marked(marks.take(n)),
    decreases marks.len(),
{
    if n == marks.len() {
        assert(marks.take(n) =~= marks);
    } else {
        assert(marks.drop_last().take(n) =~= marks.take(n));
        lemma_first_mark_stays(marks.drop_last(), n);
    }
}

/// The sum of sizes.
pub open spec fn total(sizes: Seq<u64>) -> nat
    decreases sizes.len(),
{
    if sizes.len() == 0 {
        0
    } else {
        total(sizes.drop_last()) + sizes.last() as nat
    }
}

/// The size of a timeline, from the sizes of its files; the largest number where it does
/// not fit in 64 bits.
pub fn timeline_storage_size(sizes: &Vec<u64>) -> (bytes: u64)
    ensures
        bytes == (if total(sizes@) <= u64::MAX {
            total(sizes@)
        } else {
            u64::MAX as nat
        }),
{
    let mut bytes: u64 = 0;
    let mut i: usize = 0;
    while i < sizes.len()
        invariant
            i <= sizes@.len(),
            bytes == (if total(sizes@.take(i as int)) <= u64::MAX {
                total(sizes@.take(i as int))
            } else {
                u64::MAX as nat
            }),
        decreases sizes@.len() - i,
    {
        assert(sizes@.take(i + 1).drop_last() =~= sizes@.take(i as int));
        bytes = bytes.saturating_add(sizes[i]);
        i += 1;
    }
    assert(sizes@.take(i as int) =~= sizes@);
    bytes
}

} // verus!
