//! The watcher's bookkeeping: starting and stopping sessions, folding
//! change bursts into the flags, and reading them back.

use gitfiend_core::git_request::ReqOptions;
use gitfiend_core::repo_watcher::{
    already_watching, clear_changed_status, closest_match, get_changed_repos, get_root_repo,
    stop_watching_repo, update_changed, watch_repo, WatchRepoOptions, WatcherState,
};

fn req() -> ReqOptions {
    ReqOptions { repo_path: String::new() }
}

fn flags_sorted(state: &WatcherState) -> Vec<(String, bool)> {
    let mut v = get_changed_repos(state, &req());
    v.sort();
    v
}

#[test]
fn watch_repo_initializes_flags_and_root() {
    let mut state = WatcherState::new();
    let root = watch_repo(
        &mut state,
        &WatchRepoOptions {
            repo_paths: vec![String::from("/w/a"), String::from("/w")],
            start_changed: false,
        },
    );
    // The shortest requested path becomes the monitored root.
    assert_eq!(root.as_deref(), Some("/w"));
    assert!(already_watching(&state, "/w"));
    assert!(!already_watching(&state, "/w/a"));
    assert_eq!(
        flags_sorted(&state),
        vec![(String::from("/w"), false), (String::from("/w/a"), false)]
    );
}

#[test]
fn watch_repo_same_root_is_no_op_for_the_loop() {
    let mut state = WatcherState::new();
    let first = watch_repo(
        &mut state,
        &WatchRepoOptions { repo_paths: vec![String::from("/w")], start_changed: false },
    );
    assert_eq!(first.as_deref(), Some("/w"));
    // Watching again with the same root spawns no second loop.
    let second = watch_repo(
        &mut state,
        &WatchRepoOptions {
            repo_paths: vec![String::from("/w"), String::from("/w/nested")],
            start_changed: true,
        },
    );
    assert!(second.is_none());
    assert!(already_watching(&state, "/w"));
    assert_eq!(
        flags_sorted(&state),
        vec![(String::from("/w"), true), (String::from("/w/nested"), true)]
    );
}

#[test]
fn empty_watch_request_starts_nothing() {
    let mut state = WatcherState::new();
    let root = watch_repo(
        &mut state,
        &WatchRepoOptions { repo_paths: vec![], start_changed: true },
    );
    assert!(root.is_none());
    assert!(get_changed_repos(&state, &req()).is_empty());
}

#[test]
fn burst_under_one_directory_flags_exactly_it() {
    let mut state = WatcherState::new();
    watch_repo(
        &mut state,
        &WatchRepoOptions {
            repo_paths: vec![String::from("/w/a"), String::from("/w/b")],
            start_changed: false,
        },
    );
    let burst = vec![
        String::from("/w/a/src/file.rs"),
        String::from("/w/a/readme"),
        String::from("/w/a/.git/index.lock"),
    ];
    update_changed(&mut state, &burst);
    assert_eq!(
        flags_sorted(&state),
        vec![(String::from("/w/a"), true), (String::from("/w/b"), false)]
    );

    // A subsequent clear resets exactly that path.
    clear_changed_status(&mut state, "/w/a");
    assert_eq!(
        flags_sorted(&state),
        vec![(String::from("/w/a"), false), (String::from("/w/b"), false)]
    );
}

#[test]
fn lock_file_noise_alone_flags_nothing() {
    let mut state = WatcherState::new();
    watch_repo(
        &mut state,
        &WatchRepoOptions { repo_paths: vec![String::from("/w/a")], start_changed: false },
    );
    update_changed(&mut state, &vec![String::from("/w/a/.git/HEAD.lock")]);
    assert_eq!(flags_sorted(&state), vec![(String::from("/w/a"), false)]);
    // A path under the bookkeeping directory that is no lock file counts.
    update_changed(&mut state, &vec![String::from("/w/a/.git/HEAD")]);
    assert_eq!(flags_sorted(&state), vec![(String::from("/w/a"), true)]);
}

#[test]
fn closest_match_prefers_longest_prefix() {
    let mut state = WatcherState::new();
    watch_repo(
        &mut state,
        &WatchRepoOptions {
            repo_paths: vec![String::from("/w"), String::from("/w/a")],
            start_changed: false,
        },
    );
    assert_eq!(closest_match("/w/a/deep/file", &state).as_deref(), Some("/w/a"));
    assert_eq!(closest_match("/w/other", &state).as_deref(), Some("/w"));
    assert_eq!(closest_match("/elsewhere", &state), None);
}

#[test]
fn nested_change_marks_closest_ancestor_only() {
    let mut state = WatcherState::new();
    watch_repo(
        &mut state,
        &WatchRepoOptions {
            repo_paths: vec![String::from("/w"), String::from("/w/a")],
            start_changed: false,
        },
    );
    update_changed(&mut state, &vec![String::from("/w/a/x")]);
    assert_eq!(
        flags_sorted(&state),
        vec![(String::from("/w"), false), (String::from("/w/a"), true)]
    );
}

#[test]
fn clearing_an_unwatched_path_changes_nothing() {
    let mut state = WatcherState::new();
    watch_repo(
        &mut state,
        &WatchRepoOptions { repo_paths: vec![String::from("/w")], start_changed: true },
    );
    clear_changed_status(&mut state, "/not-watched");
    assert_eq!(flags_sorted(&state), vec![(String::from("/w"), true)]);
}

#[test]
fn stop_clears_mapping_and_unbinds_loop() {
    let mut state = WatcherState::new();
    watch_repo(
        &mut state,
        &WatchRepoOptions { repo_paths: vec![String::from("/w")], start_changed: true },
    );
    stop_watching_repo(&mut state, &req());
    assert!(get_changed_repos(&state, &req()).is_empty());
    // The loop observes that its root is no longer active and exits.
    assert!(!already_watching(&state, "/w"));
}

#[test]
fn root_repo_is_shortest_first_on_ties() {
    assert_eq!(get_root_repo(&vec![]), None);
    assert_eq!(
        get_root_repo(&vec![String::from("/aa/b"), String::from("/aa"), String::from("/bb")])
            .as_deref(),
        Some("/aa"),
    );
}
