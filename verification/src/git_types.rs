//! The shared data model: commits, references and their spec-level views.

use vstd::prelude::*;

verus! {

/// An authored timestamp: epoch milliseconds plus the timezone offset
/// (in seconds) that the external tool reported alongside it.
#[derive(Clone, Copy, PartialEq, Eq, Structural, Debug)]
pub struct DateResult {
    pub ms: i64,
    pub adjustment: i32,
}

/// What kind of pointer a reference is.
#[derive(Clone, Copy, PartialEq, Eq, Structural, Debug)]
pub enum RefType {
    Branch,
    Tag,
    Stash,
}

/// Whether a reference lives in the local repository or mirrors a remote.
#[derive(Clone, Copy, PartialEq, Eq, Structural, Debug)]
pub enum RefLocation {
    Local,
    Remote,
}

/// A reference candidate as it appears attached to a parsed commit record,
/// before the commit id and timestamp are filled in.
pub struct RefInfoPart {
    pub id: String,
    pub location: RefLocation,
    pub full_name: String,
    pub short_name: String,
    pub remote_name: Option<String>,
    pub sibling_id: Option<String>,
    pub ref_type: RefType,
    pub head: bool,
}

/// A named pointer to a commit: branch, tag or stash entry.
pub struct RefInfo {
    pub id: String,
    pub location: RefLocation,
    pub full_name: String,
    pub short_name: String,
    pub remote_name: Option<String>,
    pub sibling_id: Option<String>,
    pub ref_type: RefType,
    pub head: bool,
    pub commit_id: String,
    pub time: i64,
}

/// A commit record as the record parser hands it over: reference
/// decorations still carried as full candidates.
pub struct CommitInfo {
    pub author: String,
    pub email: String,
    pub date: DateResult,
    pub id: String,
    pub index: i32,
    pub parent_ids: Vec<String>,
    pub is_merge: bool,
    pub message: String,
    pub stash_id: Option<String>,
    pub refs: Vec<RefInfoPart>,
    pub filtered: bool,
    pub num_skipped: u32,
}

/// A commit as the query layer sees it: decorations reduced to the ids of
/// the references that point at it.
pub struct Commit {
    pub author: String,
    pub email: String,
    pub date: DateResult,
    pub id: String,
    pub index: i32,
    pub parent_ids: Vec<String>,
    pub is_merge: bool,
    pub message: String,
    pub stash_id: Option<String>,
    pub refs: Vec<String>,
    pub filtered: bool,
    pub num_skipped: u32,
}

/// Spec-level image of a `RefInfoPart`.
#[verifier::ext_equal]
pub ghost struct RefInfoPartV {
    pub id: Seq<char>,
    pub location: RefLocation,
    pub full_name: Seq<char>,
    pub short_name: Seq<char>,
    pub remote_name: Option<Seq<char>>,
    pub sibling_id: Option<Seq<char>>,
    pub ref_type: RefType,
    pub head: bool,
}

/// Spec-level image of a `RefInfo`.
#[verifier::ext_equal]
pub ghost struct RefInfoV {
    pub id: Seq<char>,
    pub location: RefLocation,
    pub full_name: Seq<char>,
    pub short_name: Seq<char>,
    pub remote_name: Option<Seq<char>>,
    pub sibling_id: Option<Seq<char>>,
    pub ref_type: RefType,
    pub head: bool,
    pub commit_id: Seq<char>,
    pub time: int,
}

/// Spec-level image of a `CommitInfo`.
#[verifier::ext_equal]
pub ghost struct CommitInfoV {
    pub author: Seq<char>,
    pub email: Seq<char>,
    pub ms: int,
    pub adjustment: int,
    pub id: Seq<char>,
    pub index: int,
    pub parent_ids: Seq<Seq<char>>,
    pub is_merge: bool,
    pub message: Seq<char>,
    pub stash_id: Option<Seq<char>>,
    pub refs: Seq<RefInfoPartV>,
    pub filtered: bool,
    pub num_skipped: int,
}

/// Spec-level image of a `Commit`.
#[verifier::ext_equal]
pub ghost struct CommitV {
    pub author: Seq<char>,
    pub email: Seq<char>,
    pub ms: int,
    pub adjustment: int,
    pub id: Seq<char>,
    pub index: int,
    pub parent_ids: Seq<Seq<char>>,
    pub is_merge: bool,
    pub message: Seq<char>,
    pub stash_id: Option<Seq<char>>,
    pub refs: Seq<Seq<char>>,
    pub filtered: bool,
    pub num_skipped: int,
}

impl DeepView for RefInfoPart {
    type V = RefInfoPartV;

    open spec fn deep_view(&self) -> RefInfoPartV {
        RefInfoPartV {
            id: self.id.deep_view(),
            location: self.location,
            full_name: self.full_name.deep_view(),
            short_name: self.short_name.deep_view(),
            remote_name: self.remote_name.deep_view(),
            sibling_id: self.sibling_id.deep_view(),
            ref_type: self.ref_type,
            head: self.head,
        }
    }
}

impl DeepView for RefInfo {
    type V = RefInfoV;

    open spec fn deep_view(&self) -> RefInfoV {
        RefInfoV {
            id: self.id.deep_view(),
            location: self.location,
            full_name: self.full_name.deep_view(),
            short_name: self.short_name.deep_view(),
            remote_name: self.remote_name.deep_view(),
            sibling_id: self.sibling_id.deep_view(),
            ref_type: self.ref_type,
            head: self.head,
            commit_id: self.commit_id.deep_view(),
            time: self.time as int,
        }
    }
}

impl DeepView for CommitInfo {
    type V = CommitInfoV;

    open spec fn deep_view(&self) -> CommitInfoV {
        CommitInfoV {
            author: self.author.deep_view(),
            email: self.email.deep_view(),
            ms: self.date.ms as int,
            adjustment: self.date.adjustment as int,
            id: self.id.deep_view(),
            index: self.index as int,
            parent_ids: self.parent_ids.deep_view(),
            is_merge: self.is_merge,
            message: self.message.deep_view(),
            stash_id: self.stash_id.deep_view(),
            refs: self.refs.deep_view(),
            filtered: self.filtered,
            num_skipped: self.num_skipped as int,
        }
    }
}

impl DeepView for Commit {
    type V = CommitV;

    open spec fn deep_view(&self) -> CommitV {
        CommitV {
            author: self.author.deep_view(),
            email: self.email.deep_view(),
            ms: self.date.ms as int,
            adjustment: self.date.adjustment as int,
            id: self.id.deep_view(),
            index: self.index as int,
            parent_ids: self.parent_ids.deep_view(),
            is_merge: self.is_merge,
            message: self.message.deep_view(),
            stash_id: self.stash_id.deep_view(),
            refs: self.refs.deep_view(),
            filtered: self.filtered,
            num_skipped: self.num_skipped as int,
        }
    }
}

/// Copies an optional string, keeping its spec-level value.
pub fn clone_opt_string(s: &Option<String>) -> (r: Option<String>)
    ensures
        r.deep_view() == s.deep_view(),
{
    match s {
        Some(t) => Some(t.clone()),
        None => None,
    }
}

/// Copies a vector of strings, keeping its spec-level value.
pub fn clone_string_vec(v: &Vec<String>) -> (r: Vec<String>)
    ensures
        r.deep_view() == v.deep_view(),
{
    let r = v.clone();
    proof {
        assert(r.deep_view() =~= v.deep_view());
        broadcast use vstd::std_specs::vec::vec_clone_deep_view_proof;

    }
    r
}

impl Commit {
    /// Copies a commit, keeping its spec-level value.
    pub fn duplicate(&self) -> (r: Commit)
        ensures
            r.deep_view() == self.deep_view(),
    {
        Commit {
            author: self.author.clone(),
            email: self.email.clone(),
            date: self.date,
            id: self.id.clone(),
            index: self.index,
            parent_ids: clone_string_vec(&self.parent_ids),
            is_merge: self.is_merge,
            message: self.message.clone(),
            stash_id: clone_opt_string(&self.stash_id),
            refs: clone_string_vec(&self.refs),
            filtered: self.filtered,
            num_skipped: self.num_skipped,
        }
    }
}

impl RefInfo {
    /// Copies a reference, keeping its spec-level value.
    pub fn duplicate(&self) -> (r: RefInfo)
        ensures
            r.deep_view() == self.deep_view(),
    {
        RefInfo {
            id: self.id.clone(),
            location: self.location,
            full_name: self.full_name.clone(),
            short_name: self.short_name.clone(),
            remote_name: clone_opt_string(&self.remote_name),
            sibling_id: clone_opt_string(&self.sibling_id),
            ref_type: self.ref_type,
            head: self.head,
            commit_id: self.commit_id.clone(),
            time: self.time,
        }
    }
}

/// Copies a vector of commits, keeping its spec-level value.
pub fn clone_commit_vec(v: &Vec<Commit>) -> (r: Vec<Commit>)
    ensures
        r.deep_view() == v.deep_view(),
{
    let mut r: Vec<Commit> = Vec::new();
    let mut i: usize = 0;
    while i < v.len()
        invariant
            i <= v.len(),
            r@.len() == i,
            forall|k: int| 0 <= k < i ==> r@[k].deep_view() == v@[k].deep_view(),
        decreases v.len() - i,
    {
        r.push(v[i].duplicate());
        i = i + 1;
    }
    proof {
        assert(r.deep_view() =~= v.deep_view());
    }
    r
}

/// Copies a vector of references, keeping its spec-level value.
pub fn clone_ref_vec(v: &Vec<RefInfo>) -> (r: Vec<RefInfo>)
    ensures
        r.deep_view() == v.deep_view(),
{
    let mut r: Vec<RefInfo> = Vec::new();
    let mut i: usize = 0;
    while i < v.len()
        invariant
            i <= v.len(),
            r@.len() == i,
            forall|k: int| 0 <= k < i ==> r@[k].deep_view() == v@[k].deep_view(),
        decreases v.len() - i,
    {
        r.push(v[i].duplicate());
        i = i + 1;
    }
    proof {
        assert(r.deep_view() =~= v.deep_view());
    }
    r
}


impl RefInfoPart {
    /// Copies a reference candidate, keeping its spec-level value.
    pub fn duplicate(&self) -> (r: RefInfoPart)
        ensures
            r.deep_view() == self.deep_view(),
    {
        RefInfoPart {
            id: self.id.clone(),
            location: self.location,
            full_name: self.full_name.clone(),
            short_name: self.short_name.clone(),
            remote_name: clone_opt_string(&self.remote_name),
            sibling_id: clone_opt_string(&self.sibling_id),
            ref_type: self.ref_type,
            head: self.head,
        }
    }
}

/// Copies a vector of reference candidates, keeping its spec-level value.
pub fn clone_ref_part_vec(v: &Vec<RefInfoPart>) -> (r: Vec<RefInfoPart>)
    ensures
        r.deep_view() == v.deep_view(),
{
    let mut r: Vec<RefInfoPart> = Vec::new();
    let mut i: usize = 0;
    while i < v.len()
        invariant
            i <= v.len(),
            r@.len() == i,
            forall|k: int| 0 <= k < i ==> r@[k].deep_view() == v@[k].deep_view(),
        decreases v.len() - i,
    {
        r.push(v[i].duplicate());
        i = i + 1;
    }
    proof {
        assert(r.deep_view() =~= v.deep_view());
    }
    r
}

impl CommitInfo {
    /// Copies a parsed commit record, keeping its spec-level value.
    pub fn duplicate(&self) -> (r: CommitInfo)
        ensures
            r.deep_view() == self.deep_view(),
    {
        CommitInfo {
            author: self.author.clone(),
            email: self.email.clone(),
            date: self.date,
            id: self.id.clone(),
            index: self.index,
            parent_ids: clone_string_vec(&self.parent_ids),
            is_merge: self.is_merge,
            message: self.message.clone(),
            stash_id: clone_opt_string(&self.stash_id),
            refs: clone_ref_part_vec(&self.refs),
            filtered: self.filtered,
            num_skipped: self.num_skipped,
        }
    }
}

} // verus!
