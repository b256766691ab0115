//! Scanning a workspace for repositories. The filesystem is handed in as
//! a tree of entries — the surrounding application lists the directories —
//! and the scan walks it with the same pruning the engine always applied:
//! a bounded depth, a bounded directory size, and no descent into hidden
//! directories.

use vstd::prelude::*;
use vstd::string::StrSliceExecFns;

verus! {

/// How deep below the root the scan descends.
pub const MAX_SCAN_DEPTH: u8 = 5;

/// Directories with this many entries or more are not descended into.
pub const MAX_DIR_SIZE: usize = 50;

/// A scan request: where to start and whether to look beyond the root.
pub struct ScanOptions {
    pub repo_path: String,
    pub workspaces_enabled: bool,
}

/// One filesystem entry as the application lists it: its full path,
/// whether it is a directory, whether it holds the tool's metadata
/// directory, and its children.
pub struct FsEntry {
    pub path: String,
    pub is_dir: bool,
    pub has_git_dir: bool,
    pub entries: Vec<FsEntry>,
}

/// The last path component starts with a dot.
pub open spec fn is_hidden_path(s: Seq<char>) -> bool {
    exists|i: int|
        0 <= i < s.len() && #[trigger] s[i] == '.' && (i == 0 || s[i - 1] == '/') && (forall|k: int|
            i < k < s.len() ==> s[k] != '/')
}

/// An entry that is a directory holding the tool's metadata directory.
pub open spec fn is_repo(e: FsEntry) -> bool {
    e.is_dir && e.has_git_dir
}

/// The repository paths a scan of `e` at the given depth collects.
pub open spec fn scan_spec(e: FsEntry, enabled: bool, depth: int) -> Seq<Seq<char>>
    decreases e, 1int, 0int,
{
    let own: Seq<Seq<char>> = if is_repo(e) {
        seq![e.path@]
    } else {
        Seq::empty()
    };
    if !enabled {
        own
    } else if depth < MAX_SCAN_DEPTH as int && e.entries@.len() < MAX_DIR_SIZE as int {
        own + scan_children(e, 0, depth)
    } else {
        own
    }
}

/// The repository paths collected below the children of `e`, from child
/// `k` on.
pub open spec fn scan_children(e: FsEntry, k: int, depth: int) -> Seq<Seq<char>>
    decreases e, 0int, e.entries@.len() - k,
{
    if 0 <= k < e.entries@.len() {
        (if e.entries@[k].is_dir && !is_hidden_path(e.entries@[k].path@) {
            scan_spec(e.entries@[k], true, depth + 1)
        } else {
            Seq::empty()
        }) + scan_children(e, k + 1, depth)
    } else {
        Seq::empty()
    }
}

/// Whether the last component of the path starts with a dot.
pub fn is_hidden(path: &str) -> (r: bool)
    ensures
        r == is_hidden_path(path@),
{
    let n = path.unicode_len();
    if n == 0 {
        proof {
            assert(!is_hidden_path(path@));
        }
        return false;
    }
    let mut i: usize = n;
    while i > 0 && path.get_char(i - 1) != '/'
        invariant
            n == path@.len(),
            i <= n,
            forall|k: int| i <= k < n ==> path@[k] != '/',
        decreases i,
    {
        i = i - 1;
    }
    if i == n {
        proof {
            assert forall|m: int|
                !(0 <= m < path@.len() && #[trigger] path@[m] == '.' && (m == 0 || path@[m - 1]
                    == '/') && (forall|k: int| m < k < path@.len() ==> path@[k] != '/')) by {
                if 0 <= m < path@.len() && (forall|k: int| m < k < path@.len() ==> path@[k] != '/') {
                    if m < path@.len() - 1 {
                        assert(path@[path@.len() - 1] != '/');
                    }
                    assert(path@[n - 1] == '/');
                    assert(m == n - 1);
                    assert(path@[m] == '/');
                }
            }
        }
        return false;
    }
    let r = path.get_char(i) == '.';
    proof {
        if r {
            assert(path@[i as int] == '.');
            if i > 0 {
                assert(path@[i as int - 1] == '/');
            }
            assert(is_hidden_path(path@));
        } else {
            assert forall|m: int|
                !(0 <= m < path@.len() && #[trigger] path@[m] == '.' && (m == 0 || path@[m - 1]
                    == '/') && (forall|k: int| m < k < path@.len() ==> path@[k] != '/')) by {
                if 0 <= m < path@.len() && path@[m] == '.' && (m == 0 || path@[m - 1] == '/') && (
                forall|k: int| m < k < path@.len() ==> path@[k] != '/') {
                    if m < i as int {
                        if i > 0 {
                            assert(path@[i as int - 1] == '/');
                            assert(m < i as int - 1 || m == i as int - 1);
                            assert(path@[i as int - 1] != '/' || m == i as int - 1);
                        }
                    } else if m > i as int {
                        if i > 0 {
                            assert(path@[m - 1] != '/' || m - 1 < i as int);
                            assert(m == 0 || path@[m - 1] == '/');
                        } else {
                            assert(path@[m - 1] != '/');
                        }
                    } else {
                        assert(path@[m] != '.');
                    }
                }
            }
        }
    }
    r
}

/// Whether this entry is a repository: a directory carrying the tool's
/// metadata directory.
pub fn is_git_repo(e: &FsEntry) -> (r: bool)
    ensures
        r == is_repo(*e),
{
    e.is_dir && e.has_git_dir
}

/// Walks one entry: collects it if it is a repository and, when
/// workspaces are enabled and the pruning limits allow, descends into its
/// visible subdirectories.
pub fn scan_workspace_inner(
    e: &FsEntry,
    workspaces_enabled: bool,
    repo_paths: &mut Vec<String>,
    depth: u8,
)
    ensures
        final(repo_paths).deep_view() == old(repo_paths).deep_view() + scan_spec(
            *e,
            workspaces_enabled,
            depth as int,
        ),
    decreases *e,
{
    let ghost start = repo_paths.deep_view();
    if !workspaces_enabled {
        if is_git_repo(e) {
            repo_paths.push(e.path.clone());
            proof {
                assert(repo_paths.deep_view() =~= start + seq![e.path@]);
            }
        } else {
            proof {
                assert(repo_paths.deep_view() =~= start + Seq::<Seq<char>>::empty());
            }
        }
        return ;
    }
    if is_git_repo(e) {
        repo_paths.push(e.path.clone());
        proof {
            assert(repo_paths.deep_view() =~= start + seq![e.path@]);
        }
    }
    let ghost own = repo_paths.deep_view();
    if depth < MAX_SCAN_DEPTH && e.entries.len() < MAX_DIR_SIZE {
        let n = e.entries.len();
        let mut k: usize = 0;
        while k < n
            invariant
                n == e.entries@.len(),
                k <= n,
                depth < MAX_SCAN_DEPTH,
                repo_paths.deep_view() + scan_children(*e, k as int, depth as int) == own
                    + scan_children(*e, 0, depth as int),
            decreases n - k,
        {
            let ghost before = repo_paths.deep_view();
            let child = &e.entries[k];
            if child.is_dir && !is_hidden(child.path.as_str()) {
                scan_workspace_inner(child, true, repo_paths, depth + 1);
                proof {
                    assert(before + (scan_spec(e.entries@[k as int], true, depth as int + 1)
                        + scan_children(*e, k as int + 1, depth as int)) =~= repo_paths.deep_view()
                        + scan_children(*e, k as int + 1, depth as int));
                }
            } else {
                proof {
                    assert(before + (Seq::<Seq<char>>::empty() + scan_children(
                        *e,
                        k as int + 1,
                        depth as int,
                    )) =~= repo_paths.deep_view() + scan_children(*e, k as int + 1, depth as int));
                }
            }
            k = k + 1;
        }
        proof {
            assert(scan_children(*e, n as int, depth as int) =~= Seq::<Seq<char>>::empty());
            assert(repo_paths.deep_view() =~= repo_paths.deep_view() + scan_children(
                *e,
                n as int,
                depth as int,
            ));
            assert(repo_paths.deep_view() =~= start + scan_spec(
                *e,
                workspaces_enabled,
                depth as int,
            ));
        }
    } else {
        proof {
            assert(repo_paths.deep_view() =~= start + scan_spec(
                *e,
                workspaces_enabled,
                depth as int,
            ));
        }
    }
}

/// Scans a workspace: collects the repository paths reachable from the
/// root entry under the request's settings.
pub fn scan_workspace(options: &ScanOptions, root: &FsEntry) -> (r: Vec<String>)
    ensures
        r.deep_view() == scan_spec(*root, options.workspaces_enabled, 0),
{
    let mut repo_paths: Vec<String> = Vec::new();
    proof {
        assert(repo_paths.deep_view() =~= Seq::<Seq<char>>::empty());
    }
    scan_workspace_inner(root, options.workspaces_enabled, &mut repo_paths, 0);
    proof {
        assert(repo_paths.deep_view() =~= scan_spec(*root, options.workspaces_enabled, 0));
    }
    repo_paths
}

} // verus!
