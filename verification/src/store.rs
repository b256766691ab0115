//! The snapshot cache: one (commit list, reference list) pair per repository
//! identity, replaced as a whole on every load and read as a whole by every
//! query.

use vstd::prelude::*;

use crate::git_types::{clone_commit_vec, clone_ref_vec, Commit, CommitV, RefInfo, RefInfoV};

verus! {

/// A repository identity: its normalized filesystem path. Two identities are
/// equal iff their path strings are equal.
pub type RepoPath = String;

/// One consistent (commit list, reference list) pair for a repository.
pub struct Snapshot {
    pub commits: Vec<Commit>,
    pub refs: Vec<RefInfo>,
}

/// Spec-level image of a `Snapshot`.
#[verifier::ext_equal]
pub ghost struct SnapshotV {
    pub commits: Seq<CommitV>,
    pub refs: Seq<RefInfoV>,
}

impl DeepView for Snapshot {
    type V = SnapshotV;

    open spec fn deep_view(&self) -> SnapshotV {
        SnapshotV { commits: self.commits.deep_view(), refs: self.refs.deep_view() }
    }
}

/// The process-wide store of the most recent snapshot per repository,
/// held explicitly so that its lifecycle is controllable by the caller.
pub struct Store {
    entries: Vec<(RepoPath, Snapshot)>,
}

/// The mathematical content of a list of store entries: the map from each
/// repository path to the snapshot of the entry holding it (the last such
/// entry, were a key ever repeated).
pub closed spec fn entries_map(s: Seq<(RepoPath, Snapshot)>) -> Map<Seq<char>, SnapshotV>
    decreases s.len(),
{
    if s.len() == 0 {
        Map::empty()
    } else {
        entries_map(s.drop_last()).insert(s.last().0.deep_view(), s.last().1.deep_view())
    }
}

/// No two entries name the same repository path.
pub closed spec fn keys_unique(s: Seq<(RepoPath, Snapshot)>) -> bool {
    forall|i: int, j: int| 0 <= i < j < s.len() ==> s[i].0@ != s[j].0@
}

/// Every stored commit list is short enough for its positions to be
/// reassigned as 32-bit indices.
pub closed spec fn lens_bounded(s: Seq<(RepoPath, Snapshot)>) -> bool {
    forall|i: int| 0 <= i < s.len() ==> (#[trigger] s[i]).1.commits@.len() <= 0x7fff_ffff
}

proof fn lemma_entries_map_contains(s: Seq<(RepoPath, Snapshot)>, k: Seq<char>)
    ensures
        entries_map(s).contains_key(k) <==> (exists|i: int| 0 <= i < s.len() && s[i].0@ == k),
    decreases s.len(),
{
    if s.len() > 0 {
        lemma_entries_map_contains(s.drop_last(), k);
        if entries_map(s).contains_key(k) {
            if s.last().0@ == k {
                assert(s[s.len() - 1].0@ == k);
            } else {
                let i = choose|i: int| 0 <= i < s.drop_last().len() && s.drop_last()[i].0@ == k;
                assert(s[i].0@ == k);
            }
        }
        if exists|i: int| 0 <= i < s.len() && s[i].0@ == k {
            let i = choose|i: int| 0 <= i < s.len() && s[i].0@ == k;
            if i < s.len() - 1 {
                assert(s.drop_last()[i].0@ == k);
            }
        }
    }
}

proof fn lemma_entries_map_at(s: Seq<(RepoPath, Snapshot)>, i: int)
    requires
        keys_unique(s),
        0 <= i < s.len(),
    ensures
        entries_map(s).contains_key(s[i].0@),
        entries_map(s)[s[i].0@] == s[i].1.deep_view(),
    decreases s.len(),
{
    if i < s.len() - 1 {
        assert(keys_unique(s.drop_last()));
        lemma_entries_map_at(s.drop_last(), i);
        assert(s.drop_last()[i] == s[i]);
        assert(s.last().0@ != s[i].0@);
    }
}

proof fn lemma_entries_map_update(s: Seq<(RepoPath, Snapshot)>, i: int, e: (RepoPath, Snapshot))
    requires
        keys_unique(s),
        0 <= i < s.len(),
        e.0@ == s[i].0@,
    ensures
        entries_map(s.update(i, e)) == entries_map(s).insert(e.0@, e.1.deep_view()),
    decreases s.len(),
{
    let s2 = s.update(i, e);
    if i == s.len() - 1 {
        assert(s2.drop_last() =~= s.drop_last());
        assert(entries_map(s2) =~= entries_map(s).insert(e.0@, e.1.deep_view()));
    } else {
        assert(keys_unique(s.drop_last()));
        assert(s.drop_last().update(i, e) =~= s2.drop_last());
        lemma_entries_map_update(s.drop_last(), i, e);
        assert(s2.last() == s.last());
        assert(s.last().0@ != e.0@);
        assert(entries_map(s2) =~= entries_map(s).insert(e.0@, e.1.deep_view()));
    }
}

impl Store {
    /// The store's mathematical content: repository path to latest snapshot.
    pub closed spec fn snapshots(&self) -> Map<Seq<char>, SnapshotV> {
        entries_map(self.entries@)
    }

    /// Internal consistency: entry keys are pairwise distinct and every
    /// stored commit list fits the index range.
    pub closed spec fn wf(&self) -> bool {
        keys_unique(self.entries@) && lens_bounded(self.entries@)
    }

    /// A fresh store, holding no snapshot at all.
    pub fn new() -> (r: Store)
        ensures
            r.wf(),
            r.snapshots() == Map::<Seq<char>, SnapshotV>::empty(),
    {
        Store { entries: Vec::new() }
    }

    /// Reads the whole snapshot stored for `repo_path`, if any, as one
    /// consistent pair.
    pub fn get_commits_and_refs(&self, repo_path: &RepoPath) -> (r: Option<
        (Vec<Commit>, Vec<RefInfo>),
    >)
        requires
            self.wf(),
        ensures
            match r {
                Some((cs, rs)) => {
                    &&& self.snapshots().contains_key(repo_path@)
                    &&& cs.deep_view() == self.snapshots()[repo_path@].commits
                    &&& rs.deep_view() == self.snapshots()[repo_path@].refs
                    &&& cs@.len() <= 0x7fff_ffff
                },
                None => !self.snapshots().contains_key(repo_path@),
            },
    {
        let mut i: usize = 0;
        while i < self.entries.len()
            invariant
                self.wf(),
                i <= self.entries.len(),
                forall|k: int| 0 <= k < i ==> self.entries@[k].0@ != repo_path@,
            decreases self.entries.len() - i,
        {
            if self.entries[i].0 == *repo_path {
                proof {
                    lemma_entries_map_at(self.entries@, i as int);
                    assert(self.entries@[i as int].1.commits@.len() <= 0x7fff_ffff);
                }
                let cs = clone_commit_vec(&self.entries[i].1.commits);
                let rs = clone_ref_vec(&self.entries[i].1.refs);
                proof {
                    assert(cs.deep_view() == self.entries@[i as int].1.commits.deep_view());
                    assert(cs@.len() == cs.deep_view().len());
                    assert(self.entries@[i as int].1.commits.deep_view().len()
                        == self.entries@[i as int].1.commits@.len());
                }
                return Some((cs, rs));
            }
            i = i + 1;
        }
        proof {
            lemma_entries_map_contains(self.entries@, repo_path@);
        }
        None
    }

    /// Stores the finalized pair for `repo_path`, replacing any prior
    /// snapshot unconditionally.
    pub fn insert_commits(&mut self, repo_path: &RepoPath, commits: &Vec<Commit>, refs: &Vec<RefInfo>)
        requires
            old(self).wf(),
            commits@.len() <= 0x7fff_ffff,
        ensures
            final(self).wf(),
            final(self).snapshots() == old(self).snapshots().insert(
                repo_path@,
                SnapshotV { commits: commits.deep_view(), refs: refs.deep_view() },
            ),
    {
        let snap = Snapshot { commits: clone_commit_vec(commits), refs: clone_ref_vec(refs) };
        let key = repo_path.clone();
        let n = self.entries.len();
        let mut i: usize = 0;
        while i < n
            invariant
                n == self.entries.len(),
                self.wf(),
                *self == *old(self),
                commits@.len() <= 0x7fff_ffff,
                key@ == repo_path@,
                snap.deep_view() == (SnapshotV {
                    commits: commits.deep_view(),
                    refs: refs.deep_view(),
                }),
                i <= n,
                forall|k: int| 0 <= k < i ==> self.entries@[k].0@ != repo_path@,
            decreases n - i,
        {
            if self.entries[i].0 == *repo_path {
                let ghost s0 = self.entries@;
                let ghost ev = (key, snap);
                proof {
                    lemma_entries_map_update(self.entries@, i as int, ev);
                    assert(ev.1.commits@.len() == commits.deep_view().len());
                    assert(commits.deep_view().len() == commits@.len());
                }
                proof {
                    assert((i as int) < s0.len());
                    let s1 = s0.update(i as int, ev);
                    assert forall|k: int|
                        0 <= k < s1.len() implies (#[trigger] s1[k]).1.commits@.len()
                        <= 0x7fff_ffff by {
                        if k != i as int {
                            assert(s1[k] == s0[k]);
                            assert(s0[k].1.commits@.len() <= 0x7fff_ffff);
                        } else {
                            assert(s1[k] == ev);
                            assert(ev.1.commits@.len() == commits.deep_view().len());
                            assert(commits.deep_view().len() == commits@.len());
                            assert(commits@.len() <= 0x7fff_ffff);
                        }
                    }
                    assert(lens_bounded(s1));
                }
                self.entries.set(i, (key, snap));
                proof {
                    assert(self.entries@ == s0.update(i as int, ev));
                }
                return ;
            }
            i = i + 1;
        }
        let ghost ev = (key, snap);
        proof {
            let s2 = self.entries@.push(ev);
            assert(s2.drop_last() =~= self.entries@);
            lemma_entries_map_contains(self.entries@, key@);
            assert forall|a: int, b: int| 0 <= a < b < s2.len() implies s2[a].0@ != s2[b].0@ by {
                if b < s2.len() - 1 {
                    assert(self.entries@[a].0@ != self.entries@[b].0@);
                }
            }
            assert(ev.1.commits@.len() == commits.deep_view().len());
            assert(commits.deep_view().len() == commits@.len());
            assert forall|k: int| 0 <= k < s2.len() implies (#[trigger] s2[k]).1.commits@.len()
                <= 0x7fff_ffff by {
                if k < s2.len() - 1 {
                    assert(s2[k] == self.entries@[k]);
                    assert(self.entries@[k].1.commits@.len() <= 0x7fff_ffff);
                } else {
                    assert(s2[k] == ev);
                    assert(ev.1.commits@.len() == commits.deep_view().len());
                    assert(commits.deep_view().len() == commits@.len());
                    assert(commits@.len() <= 0x7fff_ffff);
                }
            }
        }
        self.entries.push((key, snap));
    }
}

} // verus!
