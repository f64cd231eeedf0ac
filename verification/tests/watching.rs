//! What a watcher decides.
use kairos::cli::{Cli, Command, DEFAULT_RECENT_LIMIT};
use kairos::debounce::Debouncer;
use kairos::git::{GitContext, RuntimeContext};
use kairos::watcher::WatchLoop;

const MS: u128 = 1_000_000;

fn branch(name: &str) -> RuntimeContext {
    RuntimeContext::from_git(GitContext {
        worktree_root: "/p".to_string(),
        common_git_dir: "/p/.git".to_string(),
        branch_name: Some(name.to_string()),
        head_commit: None,
        detached_head: false,
    })
}

fn paths(names: &[&str]) -> Vec<String> {
    names.iter().map(|name| name.to_string()).collect()
}

#[test]
fn ready_paths_come_in_order_and_once() {
    let mut debouncer = Debouncer::new(10);
    for name in ["b", "a/c", "a-b", "a"] {
        debouncer.record(name.to_string(), 0);
    }
    assert!(debouncer.drain_ready(9).is_empty());
    debouncer.record("b".to_string(), 5);
    assert_eq!(debouncer.drain_ready(10), paths(&["a", "a/c", "a-b"]));
    assert_eq!(debouncer.drain_ready(15), paths(&["b"]));
    assert!(debouncer.drain_ready(99).is_empty());
}

#[test]
fn the_same_path_written_twice_is_one_path() {
    let mut debouncer = Debouncer::new(10);
    debouncer.record("a/b".to_string(), 0);
    debouncer.record("a//b".to_string(), 5);
    assert!(debouncer.drain_ready(14).is_empty());
    assert_eq!(debouncer.drain_ready(15), paths(&["a/b"]));
}

#[test]
fn another_context_asks_for_one_scan() {
    let mut watch = WatchLoop::new(branch("main"), 1_200, 0);
    assert!(!watch.tick(branch("main"), 1).rescan);
    assert!(watch.tick(branch("feature"), 2).rescan);
    assert!(!watch.tick(branch("feature"), 3).rescan);
    assert_eq!(watch.context().display_label(), "feature");
    assert!(watch.tick(branch("main"), 4).rescan);
}

#[test]
fn seen_paths_wait_for_the_window() {
    let mut watch = WatchLoop::new(branch("main"), 1_200, 0);
    watch.observe(paths(&["/p/b", "/p/a"]), 100 * MS);
    assert!(watch.tick(branch("main"), 1_299 * MS).ready.is_empty());
    watch.observe(paths(&["/p/b"]), 1_299 * MS);
    assert_eq!(watch.tick(branch("main"), 1_300 * MS).ready, paths(&["/p/a"]));
    assert_eq!(watch.tick(branch("main"), 2_499 * MS).ready, paths(&["/p/b"]));
}

#[test]
fn heartbeats_are_two_seconds_apart() {
    let mut watch = WatchLoop::new(branch("main"), 1_200, 500 * MS);
    assert!(!watch.heartbeat_due(2_499 * MS));
    assert!(watch.heartbeat_due(2_500 * MS));
    watch.note_heartbeat(2_600 * MS);
    assert!(!watch.heartbeat_due(4_599 * MS));
    assert!(watch.heartbeat_due(4_600 * MS));
    assert!(!watch.heartbeat_due(0));
}

#[test]
fn twenty_changes_are_shown_by_default() {
    let cli = Cli { command: Command::Recent { limit: DEFAULT_RECENT_LIMIT } };
    assert_eq!(cli.command, Command::Recent { limit: 20 });
}
