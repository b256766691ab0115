//! Command builders, text parsing, line-ending detection, packed
//! references and the workspace scan.

use gitfiend_core::commits::{
    commit_ids_between_cmd, load_commits, load_head_commit, load_top_commit_for_branch,
    un_pushed_commits_cmd, TopCommitOptions,
};
use gitfiend_core::git_request::ReqOptions;
use gitfiend_core::packed_refs::{load_packed_refs, remove_remote};
use gitfiend_core::run_git::{args_with_config, config_override_arg};
use gitfiend_core::scan_workspace::{
    is_git_repo, is_hidden, scan_workspace, FsEntry, ScanOptions,
};
use gitfiend_core::text::{parse_id_lines, str_contains_sub, str_ends_with, u64_to_dec};
use gitfiend_core::wip_diff::detect_new_line;

const PRETTY: &str = "--pretty=format:%an;%ae;%ad;%H;%P;%d;%B";

#[test]
fn load_commits_builds_exact_invocation() {
    let cmd = load_commits(&String::from("/repo"), 600);
    assert_eq!(cmd.repo_path, "/repo");
    assert_eq!(
        cmd.args,
        vec!["log", "--branches", "--tags", "--remotes", "--decorate=full", PRETTY, "-n600",
            "--date=raw"],
    );
}

#[test]
fn head_and_top_commit_invocations() {
    let head = load_head_commit(&ReqOptions { repo_path: String::from("/r") });
    assert_eq!(head.args, vec!["log", "--decorate=full", PRETTY, "-n1", "--date=raw"]);
    let top = load_top_commit_for_branch(&TopCommitOptions {
        repo_path: String::from("/r"),
        branch_name: String::from("dev"),
    });
    assert_eq!(top.args, vec!["log", "dev", "--decorate=full", PRETTY, "-n1", "--date=raw"]);
}

#[test]
fn range_and_unpushed_invocations() {
    let between = commit_ids_between_cmd("/r", "abc", "def");
    assert_eq!(between.args, vec!["rev-list", "abc..def"]);
    let unpushed = un_pushed_commits_cmd(&ReqOptions { repo_path: String::from("/r") });
    assert_eq!(unpushed.args, vec!["log", "HEAD", "--not", "--remotes", "--pretty=format:%H"]);
}

#[test]
fn decimal_rendering() {
    assert_eq!(u64_to_dec(0), "0");
    assert_eq!(u64_to_dec(7), "7");
    assert_eq!(u64_to_dec(1234567890), "1234567890");
}

#[test]
fn id_lines_split_on_newlines() {
    let parsed = parse_id_lines("a1\nb2\r\n\nc3");
    assert_eq!(parsed, vec!["a1", "b2", "c3"]);
    assert!(parse_id_lines("").is_empty());
    assert!(parse_id_lines("\n\n").is_empty());
}

#[test]
fn substring_predicates() {
    assert!(str_contains_sub("/w/.git/config", ".git"));
    assert!(!str_contains_sub("/w/git/config", ".git"));
    assert!(str_ends_with("index.lock", ".lock"));
    assert!(!str_ends_with("index.lock.bak", ".lock"));
}

#[test]
fn config_override_depends_on_host() {
    let win = config_override_arg("windows").unwrap();
    assert_eq!(win.1, "credential.helper=manager");
    let lin = config_override_arg("linux").unwrap();
    assert_eq!(lin.1, "credential.helper=store");
    assert!(config_override_arg("macos").is_none());

    let args = vec![String::from("pull")];
    assert_eq!(args_with_config("macos", args.clone()), vec!["pull"]);
    assert_eq!(
        args_with_config("linux", args),
        vec!["-c", "credential.helper=store", "pull"],
    );
}

#[test]
fn line_ending_detection() {
    assert_eq!(detect_new_line("a\r\nb\r\nc\n"), "\r\n");
    assert_eq!(detect_new_line("a\nb\nc\r\n"), "\n");
    assert_eq!(detect_new_line("no newline"), "\n");
}

#[test]
fn packed_refs_parse_locals_and_remotes() {
    let text = "# pack-refs with: peeled fully-peeled sorted \n\
                0a1b refs/heads/main\n\
                2c3d refs/remotes/origin/dev\n\
                4e5f refs/tags/v1.0\n";
    assert_eq!(load_packed_refs(text), vec!["main", "dev"]);
}

#[test]
fn remove_remote_strips_first_segment() {
    assert_eq!(remove_remote(String::from("origin/feature/x")), "feature/x");
    assert_eq!(remove_remote(String::from("no-separator")), "no-separator");
}

fn dir(path: &str, has_git: bool, entries: Vec<FsEntry>) -> FsEntry {
    FsEntry { path: String::from(path), is_dir: true, has_git_dir: has_git, entries }
}

fn file(path: &str) -> FsEntry {
    FsEntry { path: String::from(path), is_dir: false, has_git_dir: false, entries: vec![] }
}

#[test]
fn hidden_paths_are_detected_by_last_component() {
    assert!(is_hidden("/w/.git"));
    assert!(is_hidden(".config"));
    assert!(!is_hidden("/w/src"));
    assert!(!is_hidden("/w/.hidden/visible"));
}

#[test]
fn scan_collects_nested_repos_when_enabled() {
    let tree = dir(
        "/w",
        true,
        vec![
            dir("/w/sub", true, vec![]),
            dir("/w/.hidden", true, vec![]),
            file("/w/readme"),
            dir("/w/plain", false, vec![dir("/w/plain/deep", true, vec![])]),
        ],
    );
    let enabled = ScanOptions { repo_path: String::from("/w"), workspaces_enabled: true };
    let found = scan_workspace(&enabled, &tree);
    assert_eq!(found, vec!["/w", "/w/sub", "/w/plain/deep"]);

    let disabled = ScanOptions { repo_path: String::from("/w"), workspaces_enabled: false };
    assert_eq!(scan_workspace(&disabled, &tree), vec!["/w"]);
    assert!(is_git_repo(&tree));
}

#[test]
fn scan_respects_depth_and_size_limits() {
    // A directory with fifty entries is not descended into.
    let mut many: Vec<FsEntry> = Vec::new();
    for i in 0..50 {
        many.push(dir(&format!("/big/{}", i), true, vec![]));
    }
    let big = dir("/big", false, many);
    let opts = ScanOptions { repo_path: String::from("/big"), workspaces_enabled: true };
    assert!(scan_workspace(&opts, &big).is_empty());

    // Repositories deeper than the depth limit stay unseen.
    let mut node = dir("/d/1/2/3/4/5/6", true, vec![]);
    for level in ["/d/1/2/3/4/5", "/d/1/2/3/4", "/d/1/2/3", "/d/1/2", "/d/1", "/d"] {
        node = dir(level, false, vec![node]);
    }
    let opts = ScanOptions { repo_path: String::from("/d"), workspaces_enabled: true };
    assert!(scan_workspace(&opts, &node).is_empty());
}
