//! The commit-id lookup table: an `ahash` hash map from commit hash id to
//! the commit's position in the snapshot's commit list.
//!
//! The map itself comes from the `ahash` crate and is opaque here; the three
//! wrappers below state what its source shows of `new`, `insert` and `get`,
//! over the named contents `id_map_contents`. Everything built on top —
//! building the table from a commit list, and the graph walks that consult
//! it — is verified against those contracts.

use vstd::prelude::*;

use crate::git_types::{Commit, CommitV};

verus! {

#[verifier::external_type_specification]
#[verifier::external_body]
#[verifier::reject_recursive_types(K)]
#[verifier::reject_recursive_types(V)]
#[verifier::reject_recursive_types(S)]
pub struct ExAHashMap<K, V, S>(ahash::AHashMap<K, V, S>);

#[verifier::external_type_specification]
#[verifier::external_body]
pub struct ExAHashRandomState(ahash::RandomState);

/// A hash map from commit hash id to index in the commit list.
pub type CommitIdMap = ahash::AHashMap<String, usize>;

/// What the map holds: each present key taken to the index stored for it.
pub uninterp spec fn id_map_contents(m: CommitIdMap) -> Map<Seq<char>, int>;

/// Relies on ahash::AHashMap::new: a freshly created map holds no entries.
#[verifier::external_body]
pub fn id_map_new() -> (r: CommitIdMap)
    ensures
        forall|id: Seq<char>| !id_map_contents(r).contains_key(id),
{
    ahash::AHashMap::new()
}

/// Relies on ahash::AHashMap::insert: the key now maps to the given value
/// and every other entry is kept.
#[verifier::external_body]
pub fn id_map_insert(m: &mut CommitIdMap, k: String, v: usize)
    ensures
        id_map_contents(*final(m)) == id_map_contents(*old(m)).insert(k@, v as int),
{
    m.insert(k, v);
}

/// Relies on ahash::AHashMap::get: returns the value stored for the key,
/// and nothing when the key is absent.
#[verifier::external_body]
pub fn id_map_get(m: &CommitIdMap, k: &String) -> (r: Option<usize>)
    ensures
        match r {
            Some(v) => id_map_contents(*m).contains_key(k@) && id_map_contents(*m)[k@] == v as int,
            None => !id_map_contents(*m).contains_key(k@),
        },
{
    m.get(k).copied()
}

/// The lookup table agrees with the commit list: every stored index is the
/// position of a commit carrying the key as its id, and every commit's id
/// is present as a key.
pub open spec fn id_map_wf(contents: Map<Seq<char>, int>, cs: Seq<CommitV>) -> bool {
    &&& forall|id: Seq<char>|
        #[trigger] contents.contains_key(id) ==> 0 <= contents[id] < cs.len() && cs[contents[id]].id
            == id
    &&& forall|j: int| 0 <= j < cs.len() ==> contents.contains_key(#[trigger] cs[j].id)
}

/// Builds the id lookup table for a commit list. When two commits were ever
/// to carry the same id — the data model rules that out — the later
/// position wins.
pub fn get_commit_map(commits: &Vec<Commit>) -> (m: CommitIdMap)
    ensures
        id_map_wf(id_map_contents(m), commits.deep_view()),
{
    let ghost cs = commits.deep_view();
    let mut m = id_map_new();
    let mut j: usize = 0;
    while j < commits.len()
        invariant
            cs == commits.deep_view(),
            j <= commits.len(),
            cs.len() == commits.len(),
            forall|id: Seq<char>| #[trigger]
                id_map_contents(m).contains_key(id) ==> 0 <= id_map_contents(m)[id] < cs.len()
                    && cs[id_map_contents(m)[id]].id == id,
            forall|k: int| 0 <= k < j ==> id_map_contents(m).contains_key(#[trigger] cs[k].id),
        decreases commits.len() - j,
    {
        let id = commits[j].id.clone();
        proof {
            assert(id@ == cs[j as int].id);
        }
        id_map_insert(&mut m, id, j);
        j = j + 1;
    }
    m
}

} // verus!
