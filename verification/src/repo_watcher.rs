//! Bookkeeping for the repository watcher: which directories are watched,
//! which have changed since last observed, and which single root the
//! background monitoring loop is subscribed to. The subscription itself —
//! the blocking wait on filesystem notifications — lives in the
//! surrounding application, which feeds every burst of changed paths into
//! `update_changed` and polls `already_watching` to know when to exit.

use vstd::prelude::*;

use crate::git_request::ReqOptions;
use crate::text::{contains_sub, is_char_prefix, is_char_suffix, str_contains_sub, str_ends_with, str_eq, str_starts_with};

verus! {

/// A watch request: the repositories to monitor and the flag value each
/// starts with.
pub struct WatchRepoOptions {
    pub repo_paths: Vec<String>,
    pub start_changed: bool,
}

/// The watcher's whole state: one changed-flag per watched directory, and
/// the root the active monitoring loop is bound to, if any.
pub struct WatcherState {
    entries: Vec<(String, bool)>,
    current_dir: Option<String>,
}

/// The mathematical content of the flag list: each path taken to the flag
/// of the entry holding it (the last such entry, were a key repeated).
pub closed spec fn flags_map(s: Seq<(String, bool)>) -> Map<Seq<char>, bool>
    decreases s.len(),
{
    if s.len() == 0 {
        Map::empty()
    } else {
        flags_map(s.drop_last()).insert(s.last().0.deep_view(), s.last().1)
    }
}

/// No two entries name the same directory.
pub closed spec fn flag_keys_unique(s: Seq<(String, bool)>) -> bool {
    forall|i: int, j: int| 0 <= i < j < s.len() ==> s[i].0@ != s[j].0@
}

proof fn lemma_flags_map_contains(s: Seq<(String, bool)>, k: Seq<char>)
    ensures
        flags_map(s).contains_key(k) <==> (exists|i: int| 0 <= i < s.len() && s[i].0@ == k),
    decreases s.len(),
{
    if s.len() > 0 {
        lemma_flags_map_contains(s.drop_last(), k);
        if flags_map(s).contains_key(k) {
            if s.last().0@ == k {
                assert(s[s.len() - 1].0@ == k);
            } else {
                let i = choose|i: int| 0 <= i < s.drop_last().len() && s.drop_last()[i].0@ == k;
                assert(s[i].0@ == k);
            }
        }
        if exists|i: int| 0 <= i < s.len() && s[i].0@ == k {
            let i = choose|i: int| 0 <= i < s.len() && s[i].0@ == k;
            if i < s.len() - 1 {
                assert(s.drop_last()[i].0@ == k);
            }
        }
    }
}

proof fn lemma_flags_map_at(s: Seq<(String, bool)>, i: int)
    requires
        flag_keys_unique(s),
        0 <= i < s.len(),
    ensures
        flags_map(s).contains_key(s[i].0@),
        flags_map(s)[s[i].0@] == s[i].1,
    decreases s.len(),
{
    if i < s.len() - 1 {
        assert(flag_keys_unique(s.drop_last()));
        lemma_flags_map_at(s.drop_last(), i);
        assert(s.drop_last()[i] == s[i]);
        assert(s.last().0@ != s[i].0@);
    }
}

proof fn lemma_flags_map_update(s: Seq<(String, bool)>, i: int, e: (String, bool))
    requires
        flag_keys_unique(s),
        0 <= i < s.len(),
        e.0@ == s[i].0@,
    ensures
        flags_map(s.update(i, e)) == flags_map(s).insert(e.0@, e.1),
    decreases s.len(),
{
    let s2 = s.update(i, e);
    if i == s.len() - 1 {
        assert(s2.drop_last() =~= s.drop_last());
        assert(flags_map(s2) =~= flags_map(s).insert(e.0@, e.1));
    } else {
        assert(flag_keys_unique(s.drop_last()));
        assert(s.drop_last().update(i, e) =~= s2.drop_last());
        lemma_flags_map_update(s.drop_last(), i, e);
        assert(s2.last() == s.last());
        assert(s.last().0@ != e.0@);
        assert(flags_map(s2) =~= flags_map(s).insert(e.0@, e.1));
    }
}

/// A changed path is discarded when it points into the tool's own
/// bookkeeping and names a lock file.
pub open spec fn path_kept(p: Seq<char>) -> bool {
    !(contains_sub(p, ".git"@) && is_char_suffix(".lock"@, p))
}

/// `d` is the closest watched ancestor of `p`: a watched directory that
/// prefixes `p`, no shorter than any other watched prefix of `p`.
pub open spec fn is_closest_match(dirs: Set<Seq<char>>, p: Seq<char>, d: Seq<char>) -> bool {
    &&& dirs.contains(d)
    &&& is_char_prefix(d, p)
    &&& forall|o: Seq<char>| dirs.contains(o) && is_char_prefix(o, p) ==> o.len() <= d.len()
}

/// Some path of the burst, after the lock-file filter, selects `d` as its
/// closest watched ancestor.
pub open spec fn marked_upto(
    dirs: Set<Seq<char>>,
    changed: Seq<Seq<char>>,
    d: Seq<char>,
    n: int,
) -> bool {
    exists|k: int|
        0 <= k < n && path_kept(#[trigger] changed[k]) && is_closest_match(dirs, changed[k], d)
}

/// The position of the first entry among `n` whose length is minimal: the
/// root the watcher binds to is the shortest requested path.
pub open spec fn min_len_idx_upto(s: Seq<Seq<char>>, n: int) -> int
    decreases n,
{
    if n <= 0 {
        -1
    } else {
        let b = min_len_idx_upto(s, n - 1);
        if b == -1 {
            n - 1
        } else if s[n - 1].len() < s[b].len() {
            n - 1
        } else {
            b
        }
    }
}

/// The position of the first shortest path of the list, or -1 when the
/// list is empty.
pub open spec fn min_len_idx(s: Seq<Seq<char>>) -> int {
    min_len_idx_upto(s, s.len() as int)
}

proof fn lemma_min_len_idx_bounds(s: Seq<Seq<char>>, n: int)
    requires
        0 <= n,
    ensures
        n == 0 ==> min_len_idx_upto(s, n) == -1,
        n > 0 ==> 0 <= min_len_idx_upto(s, n) < n,
    decreases n,
{
    if n > 0 {
        lemma_min_len_idx_bounds(s, n - 1);
    }
}

impl WatcherState {
    /// The mapping from watched directory to its changed-since-observed
    /// flag.
    pub closed spec fn dirs(&self) -> Map<Seq<char>, bool> {
        flags_map(self.entries@)
    }

    /// The root the active monitoring loop is bound to.
    pub closed spec fn current(&self) -> Option<Seq<char>> {
        self.current_dir.deep_view()
    }

    /// Internal consistency: watched directories are pairwise distinct.
    pub closed spec fn wf(&self) -> bool {
        flag_keys_unique(self.entries@)
    }

    /// A watcher with nothing watched and no loop bound.
    pub fn new() -> (r: WatcherState)
        ensures
            r.wf(),
            r.dirs() == Map::<Seq<char>, bool>::empty(),
            r.current() is None,
    {
        WatcherState { entries: Vec::new(), current_dir: None }
    }

    fn find_entry(&self, path: &str) -> (r: Option<usize>)
        requires
            self.wf(),
        ensures
            match r {
                Some(i) => i < self.entries@.len() && self.entries@[i as int].0@ == path@
                    && self.dirs().contains_key(path@) && self.dirs()[path@]
                    == self.entries@[i as int].1,
                None => !self.dirs().contains_key(path@),
            },
    {
        let mut i: usize = 0;
        while i < self.entries.len()
            invariant
                self.wf(),
                i <= self.entries.len(),
                forall|k: int| 0 <= k < i ==> self.entries@[k].0@ != path@,
            decreases self.entries.len() - i,
        {
            if str_eq(self.entries[i].0.as_str(), path) {
                proof {
                    lemma_flags_map_at(self.entries@, i as int);
                }
                return Some(i);
            }
            i = i + 1;
        }
        proof {
            lemma_flags_map_contains(self.entries@, path@);
        }
        None
    }
}

/// The shortest requested path: the root whose recursive watch covers all
/// nested repositories. The first of equally short paths wins.
pub fn get_root_repo(repo_paths: &Vec<String>) -> (r: Option<String>)
    ensures
        repo_paths@.len() == 0 ==> r is None,
        repo_paths@.len() > 0 ==> (r matches Some(root) && root@ == repo_paths.deep_view()[
            min_len_idx(repo_paths.deep_view())
        ]),
{
    let ghost ps = repo_paths.deep_view();
    if repo_paths.len() == 0 {
        return None;
    }
    let mut best: usize = 0;
    let mut i: usize = 1;
    proof {
        lemma_min_len_idx_bounds(ps, 1);
    }
    while i < repo_paths.len()
        invariant
            ps == repo_paths.deep_view(),
            ps.len() == repo_paths@.len(),
            0 < repo_paths@.len(),
            best < i,
            i <= repo_paths@.len(),
            min_len_idx_upto(ps, i as int) == best as int,
        decreases repo_paths.len() - i,
    {
        if repo_paths[i].as_str().unicode_len() < repo_paths[best].as_str().unicode_len() {
            best = i;
        }
        i = i + 1;
    }
    Some(repo_paths[best].clone())
}

/// Whether the monitoring loop bound to `repo_path` is still the active
/// one.
pub fn already_watching(state: &WatcherState, repo_path: &str) -> (r: bool)
    ensures
        r == (state.current() matches Some(d) && d == repo_path@),
{
    match &state.current_dir {
        Some(d) => str_eq(d.as_str(), repo_path),
        None => false,
    }
}

/// Starts a watch session: replaces the whole watched mapping — every
/// requested path starting with the caller's flag — and binds the loop to
/// the shortest requested path. Returns the root the application must
/// start a monitoring loop for, or nothing when the same root is already
/// being monitored (at most one loop is ever active) or nothing was
/// requested.
pub fn watch_repo(state: &mut WatcherState, options: &WatchRepoOptions) -> (r: Option<String>)
    requires
        old(state).wf(),
    ensures
        final(state).wf(),
        forall|k: Seq<char>|
            final(state).dirs().contains_key(k) <==> (exists|i: int|
                0 <= i < options.repo_paths@.len() && (#[trigger] options.repo_paths@[i])@ == k),
        forall|k: Seq<char>| #[trigger]
            final(state).dirs().contains_key(k) ==> final(state).dirs()[k]
                == options.start_changed,
        options.repo_paths@.len() == 0 ==> r is None && final(state).current() == old(
            state,
        ).current(),
        options.repo_paths@.len() > 0 ==> {
            let root = options.repo_paths.deep_view()[min_len_idx(options.repo_paths.deep_view())];
            if old(state).current() matches Some(d) && d == root {
                r is None && final(state).current() == old(state).current()
            } else {
                (r matches Some(rt) && rt@ == root) && (final(state).current() matches Some(d) && d
                    == root)
            }
        },
{
    let ghost ps = options.repo_paths.deep_view();
    let mut entries: Vec<(String, bool)> = Vec::new();
    let mut i: usize = 0;
    while i < options.repo_paths.len()
        invariant
            ps == options.repo_paths.deep_view(),
            ps.len() == options.repo_paths@.len(),
            i <= options.repo_paths@.len(),
            flag_keys_unique(entries@),
            forall|k: Seq<char>|
                flags_map(entries@).contains_key(k) <==> (exists|m: int|
                    0 <= m < i && (#[trigger] options.repo_paths@[m])@ == k),
            forall|k: Seq<char>| #[trigger]
                flags_map(entries@).contains_key(k) ==> flags_map(entries@)[k]
                    == options.start_changed,
        decreases options.repo_paths.len() - i,
    {
        let ghost e0 = entries@;
        let path = options.repo_paths[i].clone();
        let mut dup = false;
        let mut k: usize = 0;
        while k < entries.len()
            invariant
                e0 == entries@,
                k <= entries@.len(),
                path@ == ps[i as int],
                i < ps.len(),
                ps == options.repo_paths.deep_view(),
                dup ==> (exists|m: int| 0 <= m < entries@.len() && entries@[m].0@ == path@),
                !dup ==> forall|m: int| 0 <= m < k ==> entries@[m].0@ != path@,
            decreases entries.len() - k,
        {
            if str_eq(entries[k].0.as_str(), path.as_str()) {
                dup = true;
                proof {
                    assert(entries@[k as int].0@ == path@);
                }
            }
            k = k + 1;
        }
        if !dup {
            entries.push((path, options.start_changed));
            proof {
                assert(entries@.drop_last() =~= e0);
                lemma_flags_map_contains(e0, ps[i as int]);
                assert forall|a: int, b: int|
                    0 <= a < b < entries@.len() implies entries@[a].0@ != entries@[b].0@ by {
                    if b < entries@.len() - 1 {
                        assert(e0[a].0@ != e0[b].0@);
                    } else {
                        assert(entries@[b].0@ == ps[i as int]);
                        assert(e0[a].0@ != ps[i as int]);
                    }
                }
                assert forall|k2: Seq<char>|
                    flags_map(entries@).contains_key(k2) implies (exists|m: int|
                    0 <= m < i + 1 && (#[trigger] options.repo_paths@[m])@ == k2) by {
                    lemma_flags_map_contains(entries@, k2);
                    let m = choose|m: int| 0 <= m < entries@.len() && entries@[m].0@ == k2;
                    if m < entries@.len() - 1 {
                        assert(flags_map(e0).contains_key(k2)) by {
                            lemma_flags_map_contains(e0, k2);
                            assert(e0[m].0@ == k2);
                        }
                    } else {
                        assert(options.repo_paths@[i as int]@ == k2);
                    }
                }
                assert forall|k2: Seq<char>|
                    (exists|m: int| 0 <= m < i + 1 && (#[trigger] options.repo_paths@[m])@ == k2)
                    implies flags_map(entries@).contains_key(k2) by {
                    lemma_flags_map_contains(entries@, k2);
                    let m = choose|m: int|
                        0 <= m < i + 1 && (options.repo_paths@[m])@ == k2;
                    if m < i {
                        lemma_flags_map_contains(e0, k2);
                        let m2 = choose|m2: int| 0 <= m2 < e0.len() && e0[m2].0@ == k2;
                        assert(entries@[m2].0@ == k2);
                    } else {
                        assert(entries@[entries@.len() - 1].0@ == k2);
                    }
                }
            }
        } else {
            proof {
                assert forall|k2: Seq<char>|
                    flags_map(entries@).contains_key(k2) implies (exists|m: int|
                    0 <= m < i + 1 && (#[trigger] options.repo_paths@[m])@ == k2) by {
                    let m = choose|m: int| 0 <= m < i && (options.repo_paths@[m])@ == k2;
                    assert(options.repo_paths@[m]@ == k2);
                }
                assert forall|k2: Seq<char>|
                    (exists|m: int| 0 <= m < i + 1 && (#[trigger] options.repo_paths@[m])@ == k2)
                    implies flags_map(entries@).contains_key(k2) by {
                    let m = choose|m: int|
                        0 <= m < i + 1 && (options.repo_paths@[m])@ == k2;
                    if m == i {
                        let m2 = choose|m2: int|
                            0 <= m2 < entries@.len() && entries@[m2].0@ == path@;
                        lemma_flags_map_contains(entries@, k2);
                    }
                }
            }
        }
        i = i + 1;
    }
    state.entries = entries;
    let root = get_root_repo(&options.repo_paths);
    match root {
        Some(rt) => {
            if already_watching(state, rt.as_str()) {
                None
            } else {
                state.current_dir = Some(rt.clone());
                Some(rt)
            }
        },
        None => None,
    }
}

/// Ends the watch session: clears the whole watched mapping and unbinds
/// the loop, which observes this on its next poll and exits.
pub fn stop_watching_repo(state: &mut WatcherState, _options: &ReqOptions)
    ensures
        final(state).wf(),
        final(state).dirs() == Map::<Seq<char>, bool>::empty(),
        final(state).current() is None,
{
    state.entries = Vec::new();
    state.current_dir = None;
    proof {
        assert(flags_map(state.entries@) =~= Map::<Seq<char>, bool>::empty());
    }
}

/// Reads the whole mapping, path by flag, without side effects.
pub fn get_changed_repos(state: &WatcherState, _options: &ReqOptions) -> (r: Vec<(String, bool)>)
    requires
        state.wf(),
    ensures
        flag_keys_unique(r@),
        flags_map(r@) == state.dirs(),
    {
    let mut out: Vec<(String, bool)> = Vec::new();
    let mut i: usize = 0;
    while i < state.entries.len()
        invariant
            state.wf(),
            i <= state.entries.len(),
            out@.len() == i,
            forall|k: int| 0 <= k < i ==> out@[k].0@ == state.entries@[k].0@ && out@[k].1
                == state.entries@[k].1,
        decreases state.entries.len() - i,
    {
        out.push((state.entries[i].0.clone(), state.entries[i].1));
        i = i + 1;
    }
    proof {
        lemma_flags_map_congruent(out@, state.entries@);
    }
    out
}

proof fn lemma_flags_map_congruent(a: Seq<(String, bool)>, b: Seq<(String, bool)>)
    requires
        a.len() == b.len(),
        forall|k: int| 0 <= k < a.len() ==> a[k].0@ == b[k].0@ && a[k].1 == b[k].1,
    ensures
        flags_map(a) == flags_map(b),
        flag_keys_unique(b) ==> flag_keys_unique(a),
    decreases a.len(),
{
    if a.len() > 0 {
        lemma_flags_map_congruent(a.drop_last(), b.drop_last());
        assert(a.last().0@ == b.last().0@ && a.last().1 == b.last().1);
        assert(flags_map(a) =~= flags_map(b));
    }
}

/// Resets one path's changed flag to false; a path that is not being
/// watched is left alone, and no other path is affected.
pub fn clear_changed_status(state: &mut WatcherState, repo_path: &str)
    requires
        old(state).wf(),
    ensures
        final(state).wf(),
        final(state).current() == old(state).current(),
        old(state).dirs().contains_key(repo_path@) ==> final(state).dirs() == old(
            state,
        ).dirs().insert(repo_path@, false),
        !old(state).dirs().contains_key(repo_path@) ==> final(state).dirs() == old(state).dirs(),
{
    match state.find_entry(repo_path) {
        Some(i) => {
            let ghost s0 = state.entries@;
            let key = state.entries[i].0.clone();
            let ghost ev = (key, false);
            proof {
                lemma_flags_map_update(state.entries@, i as int, ev);
            }
            state.entries.set(i, (key, false));
            proof {
                assert(state.entries@ == s0.update(i as int, ev));
                assert forall|a: int, b: int|
                    0 <= a < b < state.entries@.len() implies state.entries@[a].0@
                    != state.entries@[b].0@ by {
                    assert(s0[a].0@ != s0[b].0@);
                }
            }
        },
        None => {},
    }
}

/// Selects the closest watched ancestor of a changed path: the longest
/// watched directory that prefixes it.
pub fn closest_match(changed_path: &str, state: &WatcherState) -> (r: Option<String>)
    requires
        state.wf(),
    ensures
        match r {
            Some(d) => is_closest_match(state.dirs().dom(), changed_path@, d@),
            None => forall|o: Seq<char>|
                !(state.dirs().dom().contains(o) && is_char_prefix(o, changed_path@)),
        },
{
    let mut best: Option<usize> = None;
    let mut i: usize = 0;
    while i < state.entries.len()
        invariant
            state.wf(),
            i <= state.entries.len(),
            match best {
                Some(b) => b < i && is_char_prefix(state.entries@[b as int].0@, changed_path@)
                    && forall|k: int|
                    0 <= k < i && is_char_prefix(#[trigger] state.entries@[k].0@, changed_path@)
                        ==> state.entries@[k].0@.len() <= state.entries@[b as int].0@.len(),
                None => forall|k: int|
                    0 <= k < i ==> !is_char_prefix(#[trigger] state.entries@[k].0@, changed_path@),
            },
        decreases state.entries.len() - i,
    {
        if str_starts_with(changed_path, state.entries[i].0.as_str()) {
            match best {
                Some(b) => {
                    if state.entries[i].0.as_str().unicode_len() > state.entries[b]
                        .0
                        .as_str()
                        .unicode_len() {
                        best = Some(i);
                    }
                },
                None => {
                    best = Some(i);
                },
            }
        }
        i = i + 1;
    }
    match best {
        Some(b) => {
            proof {
                lemma_flags_map_at(state.entries@, b as int);
                assert forall|o: Seq<char>|
                    state.dirs().dom().contains(o) && is_char_prefix(o, changed_path@) implies
                    o.len() <= state.entries@[b as int].0@.len() by {
                    lemma_flags_map_contains(state.entries@, o);
                    let k = choose|k: int|
                        0 <= k < state.entries@.len() && state.entries@[k].0@ == o;
                }
            }
            Some(state.entries[b].0.clone())
        },
        None => {
            proof {
                assert forall|o: Seq<char>|
                    !(state.dirs().dom().contains(o) && is_char_prefix(o, changed_path@)) by {
                    if state.dirs().dom().contains(o) {
                        lemma_flags_map_contains(state.entries@, o);
                        let k = choose|k: int|
                            0 <= k < state.entries@.len() && state.entries@[k].0@ == o;
                    }
                }
            }
            None
        },
    }
}

/// Folds one burst of change notifications into the flags: lock-file
/// noise under the tool's bookkeeping is discarded, and every remaining
/// path sets exactly its closest watched ancestor's flag. A directory's
/// flag ends up true iff it was already true or some path of the burst
/// selected it; no other flag and no key changes.
pub fn update_changed(state: &mut WatcherState, changed_paths: &Vec<String>)
    requires
        old(state).wf(),
    ensures
        final(state).wf(),
        final(state).current() == old(state).current(),
        final(state).dirs().dom() == old(state).dirs().dom(),
        forall|d: Seq<char>| #[trigger]
            final(state).dirs().contains_key(d) ==> final(state).dirs()[d] == (old(state).dirs()[d]
                || marked_upto(
                old(state).dirs().dom(),
                changed_paths.deep_view(),
                d,
                changed_paths@.len() as int,
            )),
{
    let ghost dom0 = old(state).dirs().dom();
    let ghost cp = changed_paths.deep_view();
    let mut i: usize = 0;
    while i < changed_paths.len()
        invariant
            state.wf(),
            cp == changed_paths.deep_view(),
            cp.len() == changed_paths@.len(),
            i <= changed_paths@.len(),
            state.current() == old(state).current(),
            state.dirs().dom() == dom0,
            dom0 == old(state).dirs().dom(),
            forall|d: Seq<char>| #[trigger]
                state.dirs().contains_key(d) ==> state.dirs()[d] == (old(state).dirs()[d]
                    || marked_upto(dom0, cp, d, i as int)),
        decreases changed_paths.len() - i,
    {
        let ghost before = state.dirs();
        let p = &changed_paths[i];
        let discard = str_contains_sub(p.as_str(), ".git") && str_ends_with(p.as_str(), ".lock");
        if !discard {
            match closest_match(p.as_str(), state) {
                Some(d) => {
                    match state.find_entry(d.as_str()) {
                        Some(idx) => {
                            let ghost s0 = state.entries@;
                            let key = state.entries[idx].0.clone();
                            let ghost ev = (key, true);
                            proof {
                                lemma_flags_map_update(state.entries@, idx as int, ev);
                            }
                            state.entries.set(idx, (key, true));
                            proof {
                                assert(state.entries@ == s0.update(idx as int, ev));
                                assert forall|a: int, b: int|
                                    0 <= a < b < state.entries@.len() implies state.entries@[a].0@
                                    != state.entries@[b].0@ by {
                                    assert(s0[a].0@ != s0[b].0@);
                                }
                                assert(state.dirs() == before.insert(d@, true));
                                assert(state.dirs().dom() =~= dom0);
                                assert(path_kept(cp[i as int]));
                                assert(is_closest_match(dom0, cp[i as int], d@));
                                assert forall|d2: Seq<char>| #[trigger]
                                    state.dirs().contains_key(d2) implies state.dirs()[d2] == (old(
                                    state,
                                ).dirs()[d2] || marked_upto(dom0, cp, d2, i as int + 1)) by {
                                    if d2 == d@ {
                                        assert(marked_upto(dom0, cp, d2, i as int + 1));
                                    } else {
                                        assert(state.dirs()[d2] == before[d2]);
                                        if marked_upto(dom0, cp, d2, i as int + 1) && !marked_upto(
                                            dom0,
                                            cp,
                                            d2,
                                            i as int,
                                        ) {
                                            let k = choose|k: int|
                                                0 <= k < i + 1 && path_kept(#[trigger] cp[k])
                                                    && is_closest_match(dom0, cp[k], d2);
                                            assert(k == i as int);
                                            assert(is_closest_match(dom0, cp[i as int], d2));
                                            assert(d@.len() <= d2.len());
                                            assert(d2.len() <= d@.len());
                                            assert(is_char_prefix(d2, cp[i as int]));
                                            assert(is_char_prefix(d@, cp[i as int]));
                                            assert(d2 =~= d@);
                                            assert(false);
                                        }
                                    }
                                }
                            }
                        },
                        None => {
                            proof {
                                assert(state.dirs().dom().contains(d@));
                                assert(false);
                            }
                        },
                    }
                },
                None => {
                    proof {
                        assert forall|d2: Seq<char>| #[trigger]
                            state.dirs().contains_key(d2) implies state.dirs()[d2] == (old(
                            state,
                        ).dirs()[d2] || marked_upto(dom0, cp, d2, i as int + 1)) by {
                            if marked_upto(dom0, cp, d2, i as int + 1) && !marked_upto(
                                dom0,
                                cp,
                                d2,
                                i as int,
                            ) {
                                let k = choose|k: int|
                                    0 <= k < i + 1 && path_kept(#[trigger] cp[k])
                                        && is_closest_match(dom0, cp[k], d2);
                                assert(dom0.contains(d2) && is_char_prefix(d2, cp[i as int]));
                                assert(false);
                            }
                        }
                    }
                },
            }
        } else {
            proof {
                assert(!path_kept(cp[i as int]));
                assert forall|d2: Seq<char>| #[trigger]
                    state.dirs().contains_key(d2) implies state.dirs()[d2] == (old(
                    state,
                ).dirs()[d2] || marked_upto(dom0, cp, d2, i as int + 1)) by {
                    if marked_upto(dom0, cp, d2, i as int + 1) && !marked_upto(
                        dom0,
                        cp,
                        d2,
                        i as int,
                    ) {
                        let k = choose|k: int|
                            0 <= k < i + 1 && path_kept(#[trigger] cp[k]) && is_closest_match(
                                dom0,
                                cp[k],
                                d2,
                            );
                        assert(false);
                    }
                }
            }
        }
        i = i + 1;
    }
}

/// A burst rooted under one watched directory flags exactly that
/// directory: when every kept path of the burst selects `d`, the state
/// after the burst is the old one with only `d`'s flag raised — and with
/// `d` raised indeed, as long as anything at all was kept.
pub proof fn lemma_burst_marks_one_dir(
    dirs_before: Map<Seq<char>, bool>,
    dirs_after: Map<Seq<char>, bool>,
    changed: Seq<Seq<char>>,
    d: Seq<char>,
)
    requires
        dirs_after.dom() == dirs_before.dom(),
        forall|d2: Seq<char>| #[trigger]
            dirs_after.contains_key(d2) ==> dirs_after[d2] == (dirs_before[d2] || marked_upto(
                dirs_before.dom(),
                changed,
                d2,
                changed.len() as int,
            )),
        forall|k: int|
            0 <= k < changed.len() && path_kept(#[trigger] changed[k]) ==> is_closest_match(
                dirs_before.dom(),
                changed[k],
                d,
            ),
        exists|k: int| 0 <= k < changed.len() && path_kept(#[trigger] changed[k]),
        dirs_before.contains_key(d),
    ensures
        dirs_after == dirs_before.insert(d, true),
{
    let k0 = choose|k: int| 0 <= k < changed.len() && path_kept(#[trigger] changed[k]);
    assert(marked_upto(dirs_before.dom(), changed, d, changed.len() as int));
    assert(dirs_after[d] == true);
    assert forall|d2: Seq<char>| #[trigger]
        dirs_after.contains_key(d2) && d2 != d implies dirs_after[d2] == dirs_before[d2] by {
        if marked_upto(dirs_before.dom(), changed, d2, changed.len() as int) {
            let k = choose|k: int|
                0 <= k < changed.len() && path_kept(#[trigger] changed[k]) && is_closest_match(
                    dirs_before.dom(),
                    changed[k],
                    d2,
                );
            assert(is_closest_match(dirs_before.dom(), changed[k], d));
            assert(d2.len() <= d.len());
            assert(d.len() <= d2.len());
            assert(is_char_prefix(d2, changed[k]));
            assert(is_char_prefix(d, changed[k]));
            assert(d2 =~= d);
            assert(false);
        }
    }
    assert(dirs_after =~= dirs_before.insert(d, true));
}

} // verus!
