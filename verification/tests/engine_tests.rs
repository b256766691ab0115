//! End-to-end fixtures for the loader and the graph query engine.

use gitfiend_core::commit_calcs::get_commit_ids_between_commits2;
use gitfiend_core::commit_map::get_commit_map;
use gitfiend_core::commits::{
    commit_ids_between_commits, commit_ids_between_commits_fallback, commit_is_ancestor,
    get_un_pushed_commits, load_commits_and_refs, CommitAncestorOpts, CommitDiffOpts,
    ReqCommitsOptions2,
};
use gitfiend_core::commit_filters::CommitFilter;
use gitfiend_core::git_request::ReqOptions;
use gitfiend_core::git_types::{Commit, CommitInfo, DateResult, RefInfoPart, RefLocation, RefType};
use gitfiend_core::store::Store;

fn commit_info(
    id: &str,
    parents: Vec<&str>,
    ms: i64,
    stash_id: Option<&str>,
    refs: Vec<RefInfoPart>,
) -> CommitInfo {
    CommitInfo {
        author: String::from("ada"),
        email: String::from("ada@example.com"),
        date: DateResult { ms, adjustment: 0 },
        id: String::from(id),
        index: 0,
        parent_ids: parents.into_iter().map(String::from).collect(),
        is_merge: false,
        message: String::from("msg"),
        stash_id: stash_id.map(String::from),
        refs,
        filtered: false,
        num_skipped: 0,
    }
}

fn local_branch_head(id: &str, short: &str) -> RefInfoPart {
    RefInfoPart {
        id: String::from(id),
        location: RefLocation::Local,
        full_name: format!("refs/heads/{}", short),
        short_name: String::from(short),
        remote_name: None,
        sibling_id: None,
        ref_type: RefType::Branch,
        head: true,
    }
}

fn remote_branch(id: &str, short: &str, remote: &str) -> RefInfoPart {
    RefInfoPart {
        id: String::from(id),
        location: RefLocation::Remote,
        full_name: format!("refs/remotes/{}/{}", remote, short),
        short_name: String::from(short),
        remote_name: Some(String::from(remote)),
        sibling_id: None,
        ref_type: RefType::Branch,
        head: false,
    }
}

fn load_options(repo: &str, fast: bool, filters: Vec<CommitFilter>) -> ReqCommitsOptions2 {
    ReqCommitsOptions2 {
        repo_path: String::from(repo),
        num_commits: 100,
        filters,
        fast,
        skip_stashes: false,
    }
}

/// The three-commit fixture of the end-to-end scenario: `A (root) -> B ->
/// C (head of local branch main)`, with `origin/main` at `B`, in tool
/// order (newest first).
fn fixture_records() -> Vec<CommitInfo> {
    vec![
        commit_info("C", vec!["B"], 3000, None, vec![local_branch_head("ref-main", "main")]),
        commit_info("B", vec!["A"], 2000, None, vec![remote_branch("ref-origin-main", "main", "origin")]),
        commit_info("A", vec![], 1000, None, vec![]),
    ]
}

fn ids_of(commits: &[Commit]) -> Vec<String> {
    commits.iter().map(|c| c.id.clone()).collect()
}

#[test]
fn load_assigns_indices_in_order() {
    let mut store = Store::new();
    let opts = load_options("/repo", false, vec![]);
    let (commits, _refs) =
        load_commits_and_refs(&mut store, &opts, Some(fixture_records()), None).unwrap();
    assert_eq!(commits.len(), 3);
    for (i, c) in commits.iter().enumerate() {
        assert_eq!(c.index, i as i32);
    }
    assert_eq!(ids_of(&commits), vec!["C", "B", "A"]);
}

#[test]
fn primary_load_failure_fails_whole_load() {
    let mut store = Store::new();
    let opts = load_options("/repo", false, vec![]);
    assert!(load_commits_and_refs(&mut store, &opts, None, None).is_none());
}

#[test]
fn cache_only_load_returns_cached_subset() {
    let mut store = Store::new();
    let opts = load_options("/repo", false, vec![]);
    let (commits, refs) =
        load_commits_and_refs(&mut store, &opts, Some(fixture_records()), None).unwrap();

    // Cache-only: no tool answers are handed in at all.
    let fast_opts = load_options("/repo", true, vec![]);
    let (cached, cached_refs) = load_commits_and_refs(&mut store, &fast_opts, None, None).unwrap();
    assert_eq!(ids_of(&cached), ids_of(&commits));
    assert_eq!(cached_refs.len(), refs.len());

    // With a filter the answer is the matching subset of the cached list.
    let filter_opts = load_options(
        "/repo",
        true,
        vec![CommitFilter::Commit(String::from("B"))],
    );
    let (filtered, _) = load_commits_and_refs(&mut store, &filter_opts, None, None).unwrap();
    assert_eq!(ids_of(&filtered), vec!["B"]);
    assert!(filtered[0].filtered);
    assert_eq!(filtered[0].num_skipped, 1);
}

#[test]
fn cache_only_load_without_snapshot_needs_tool() {
    let mut store = Store::new();
    let fast_opts = load_options("/repo", true, vec![]);
    // No snapshot: the call falls through to the tool answers, which are
    // absent here, so the load fails.
    assert!(load_commits_and_refs(&mut store, &fast_opts, None, None).is_none());
}

#[test]
fn refs_are_finished_with_head_and_sibling() {
    let mut store = Store::new();
    let opts = load_options("/repo", false, vec![]);
    let (_commits, refs) =
        load_commits_and_refs(&mut store, &opts, Some(fixture_records()), None).unwrap();
    assert_eq!(refs.len(), 2);
    let heads: Vec<_> = refs.iter().filter(|r| r.head).collect();
    assert_eq!(heads.len(), 1);
    assert_eq!(heads[0].id, "ref-main");
    assert_eq!(heads[0].sibling_id.as_deref(), Some("ref-origin-main"));
    let remote = refs.iter().find(|r| r.id == "ref-origin-main").unwrap();
    assert!(!remote.head);
    assert_eq!(remote.sibling_id, None);
    assert_eq!(remote.commit_id, "B");
}

#[test]
fn un_pushed_commits_from_cache() {
    let mut store = Store::new();
    let opts = load_options("/repo", false, vec![]);
    load_commits_and_refs(&mut store, &opts, Some(fixture_records()), None).unwrap();
    let req = ReqOptions { repo_path: String::from("/repo") };
    let ids = get_un_pushed_commits(&store, &req, None);
    assert_eq!(ids, vec!["C"]);
}

#[test]
fn un_pushed_commits_falls_back_without_snapshot() {
    let store = Store::new();
    let req = ReqOptions { repo_path: String::from("/repo") };
    let out = String::from("X1\nX2\n");
    let ids = get_un_pushed_commits(&store, &req, Some(&out));
    assert_eq!(ids, vec!["X1", "X2"]);
    let none = get_un_pushed_commits(&store, &req, None);
    assert!(none.is_empty());
}

#[test]
fn stash_is_interleaved_by_recency() {
    let mut store = Store::new();
    let opts = load_options("/repo", false, vec![]);
    let stash = commit_info("S", vec!["B"], 2500, Some("stash@{0}"), vec![]);
    let (commits, _refs) =
        load_commits_and_refs(&mut store, &opts, Some(fixture_records()), Some(vec![stash]))
            .unwrap();
    // Timestamped between B and C, the stash lands between them.
    assert_eq!(ids_of(&commits), vec!["C", "S", "B", "A"]);
    for (i, c) in commits.iter().enumerate() {
        assert_eq!(c.index, i as i32);
        // No filters were supplied, so the filtering marks stay unset.
        assert!(!c.filtered);
        assert_eq!(c.num_skipped, 0);
    }
    assert_eq!(commits[1].stash_id.as_deref(), Some("stash@{0}"));
}

#[test]
fn failed_stash_load_degrades_to_none() {
    let mut store = Store::new();
    let opts = load_options("/repo", false, vec![]);
    let (commits, _) =
        load_commits_and_refs(&mut store, &opts, Some(fixture_records()), None).unwrap();
    assert_eq!(commits.len(), 3);
}

#[test]
fn ancestors_contain_parents_and_their_ancestors() {
    let mut store = Store::new();
    let opts = load_options("/repo", false, vec![]);
    let (commits, _) =
        load_commits_and_refs(&mut store, &opts, Some(fixture_records()), None).unwrap();
    let map = get_commit_map(&commits);
    // C sits at position 0; its ancestors must include its parent B and
    // B's ancestor A.
    let anc = gitfiend_core::commit_calcs::find_commit_ancestors(&commits, &map, 0);
    let b = commits.iter().position(|c| c.id == "B").unwrap();
    let a = commits.iter().position(|c| c.id == "A").unwrap();
    assert!(anc[b]);
    assert!(anc[a]);
    // A commit is not its own ancestor without a self-parent cycle.
    assert!(!anc[0]);
}

#[test]
fn commit_is_ancestor_matches_reachability() {
    let mut store = Store::new();
    let opts = load_options("/repo", false, vec![]);
    load_commits_and_refs(&mut store, &opts, Some(fixture_records()), None).unwrap();
    let ask = |c: &str, x: &str| {
        commit_is_ancestor(
            &store,
            &CommitAncestorOpts {
                repo_path: String::from("/repo"),
                commit_id: String::from(c),
                ancestor_candidate_id: String::from(x),
            },
        )
    };
    assert!(ask("C", "B"));
    assert!(ask("C", "A"));
    assert!(ask("B", "A"));
    assert!(!ask("A", "C"));
    assert!(!ask("C", "C"));
    assert!(!ask("C", "missing"));
    assert!(!ask("missing", "A"));
    // Absent snapshot answers no.
    let empty = Store::new();
    assert!(!commit_is_ancestor(
        &empty,
        &CommitAncestorOpts {
            repo_path: String::from("/repo"),
            commit_id: String::from("C"),
            ancestor_candidate_id: String::from("A"),
        },
    ));
}

#[test]
fn between_cache_path_equals_fallback_on_fixture() {
    let mut store = Store::new();
    let opts = load_options("/repo", false, vec![]);
    let records = vec![
        commit_info("D", vec!["C"], 4000, None, vec![]),
        commit_info("C", vec!["B"], 3000, None, vec![]),
        commit_info("B", vec!["A"], 2000, None, vec![]),
        commit_info("A", vec![], 1000, None, vec![]),
    ];
    load_commits_and_refs(&mut store, &opts, Some(records), None).unwrap();
    let diff = CommitDiffOpts {
        repo_path: String::from("/repo"),
        commit_id1: String::from("A"),
        commit_id2: String::from("D"),
    };
    let cached = commit_ids_between_commits(&store, &diff, None).unwrap();
    // What the authoritative invocation prints for the same fixture.
    let tool_out = String::from("D\nC\nB\n");
    let fallback = commit_ids_between_commits_fallback(Some(&tool_out)).unwrap();
    assert_eq!(cached, fallback);
}

#[test]
fn between_falls_back_when_endpoint_missing() {
    let mut store = Store::new();
    let opts = load_options("/repo", false, vec![]);
    load_commits_and_refs(&mut store, &opts, Some(fixture_records()), None).unwrap();
    let diff = CommitDiffOpts {
        repo_path: String::from("/repo"),
        commit_id1: String::from("outside-window"),
        commit_id2: String::from("C"),
    };
    let out = String::from("C\nB\n");
    let viaf = commit_ids_between_commits(&store, &diff, Some(&out)).unwrap();
    assert_eq!(viaf, vec!["C", "B"]);
    assert!(commit_ids_between_commits(&store, &diff, None).is_none());
}

#[test]
fn between_walk_stops_at_from_and_at_window_edge() {
    let records = vec![
        commit_info("D", vec!["C"], 4000, None, vec![]),
        commit_info("C", vec!["B", "X"], 3000, None, vec![]),
        commit_info("B", vec!["A"], 2000, None, vec![]),
        commit_info("A", vec![], 1000, None, vec![]),
    ];
    let mut store = Store::new();
    let opts = load_options("/repo", false, vec![]);
    let (commits, _) = load_commits_and_refs(&mut store, &opts, Some(records), None).unwrap();
    let map = get_commit_map(&commits);
    // A parent outside the loaded window (X) terminates that branch of
    // the walk; stopping at B keeps A out.
    let ids = get_commit_ids_between_commits2(
        &String::from("D"),
        &String::from("B"),
        &commits,
        &map,
    )
    .unwrap();
    assert_eq!(ids, vec!["D", "C"]);
    // A missing endpoint yields no cache answer.
    assert!(get_commit_ids_between_commits2(
        &String::from("D"),
        &String::from("X"),
        &commits,
        &map,
    )
    .is_none());
}

#[test]
fn snapshot_replacement_is_whole() {
    let mut store = Store::new();
    let opts = load_options("/repo", false, vec![]);
    load_commits_and_refs(&mut store, &opts, Some(fixture_records()), None).unwrap();
    // A shorter, later load replaces the whole snapshot unconditionally.
    let shorter = vec![commit_info("Z", vec![], 9000, None, vec![])];
    load_commits_and_refs(&mut store, &opts, Some(shorter), None).unwrap();
    let fast = load_options("/repo", true, vec![]);
    let (cached, _) = load_commits_and_refs(&mut store, &fast, None, None).unwrap();
    assert_eq!(ids_of(&cached), vec!["Z"]);
}
