//! Deriving references from the decorations of parsed commit records, and
//! the finishing pass that settles the head mark and the local-to-remote
//! sibling links.

use vstd::prelude::*;

use crate::git_types::{
    clone_opt_string, CommitInfo, CommitInfoV, RefInfo, RefInfoPartV, RefInfoV, RefLocation,
    RefType,
};

verus! {

/// One reference candidate lifted to a full reference: it points at the
/// commit whose record carried it, and its stash-ordering time is that
/// commit's timestamp.
pub open spec fn lift_ref_part(p: RefInfoPartV, commit_id: Seq<char>, time: int) -> RefInfoV {
    RefInfoV {
        id: p.id,
        location: p.location,
        full_name: p.full_name,
        short_name: p.short_name,
        remote_name: p.remote_name,
        sibling_id: p.sibling_id,
        ref_type: p.ref_type,
        head: p.head,
        commit_id: commit_id,
        time: time,
    }
}

/// All references one commit record carries.
pub open spec fn refs_of_commit(c: CommitInfoV) -> Seq<RefInfoV> {
    Seq::new(c.refs.len(), |k: int| lift_ref_part(c.refs[k], c.id, c.ms))
}

/// The references of the first `n` commit records, concatenated in order.
pub open spec fn derive_refs_upto(cs: Seq<CommitInfoV>, n: int) -> Seq<RefInfoV>
    decreases n,
{
    if n <= 0 {
        Seq::empty()
    } else {
        derive_refs_upto(cs, n - 1) + refs_of_commit(cs[n - 1])
    }
}

/// Every reference derived from the decorations of the commit records,
/// one per decoration token, in record order.
pub open spec fn derive_refs(cs: Seq<CommitInfoV>) -> Seq<RefInfoV> {
    derive_refs_upto(cs, cs.len() as int)
}

/// Collects one `RefInfo` per decoration of the parsed records; each
/// points at the commit that carried it.
pub fn get_ref_info_from_commits(commits: &Vec<CommitInfo>) -> (refs: Vec<RefInfo>)
    ensures
        refs.deep_view() == derive_refs(commits.deep_view()),
{
    let ghost cs = commits.deep_view();
    let mut refs: Vec<RefInfo> = Vec::new();
    let mut i: usize = 0;
    while i < commits.len()
        invariant
            cs == commits.deep_view(),
            cs.len() == commits@.len(),
            i <= commits@.len(),
            refs.deep_view() == derive_refs_upto(cs, i as int),
        decreases commits.len() - i,
    {
        let parts = commits[i].refs.len();
        let mut k: usize = 0;
        while k < parts
            invariant
                cs == commits.deep_view(),
                cs.len() == commits@.len(),
                i < commits@.len(),
                parts == cs[i as int].refs.len(),
                k <= parts,
                refs.deep_view() =~= derive_refs_upto(cs, i as int) + refs_of_commit(
                    cs[i as int],
                ).take(k as int),
            decreases parts - k,
        {
            let ghost refs0 = refs.deep_view();
            let part = &commits[i].refs[k];
            let item = RefInfo {
                id: part.id.clone(),
                location: part.location,
                full_name: part.full_name.clone(),
                short_name: part.short_name.clone(),
                remote_name: clone_opt_string(&part.remote_name),
                sibling_id: clone_opt_string(&part.sibling_id),
                ref_type: part.ref_type,
                head: part.head,
                commit_id: commits[i].id.clone(),
                time: commits[i].date.ms,
            };
            proof {
                assert(part.deep_view() == cs[i as int].refs[k as int]);
                assert(item.deep_view() == lift_ref_part(
                    cs[i as int].refs[k as int],
                    cs[i as int].id,
                    cs[i as int].ms,
                ));
                assert(item.deep_view() == refs_of_commit(cs[i as int])[k as int]);
            }
            refs.push(item);
            proof {
                assert(refs.deep_view() =~= refs0.push(refs_of_commit(cs[i as int])[k as int]));
                assert(refs.deep_view() =~= derive_refs_upto(cs, i as int) + refs_of_commit(
                    cs[i as int],
                ).take(k as int + 1));
            }
            k = k + 1;
        }
        proof {
            assert(refs_of_commit(cs[i as int]).take(parts as int) =~= refs_of_commit(
                cs[i as int],
            ));
            assert(refs.deep_view() =~= derive_refs_upto(cs, i as int + 1));
        }
        i = i + 1;
    }
    proof {
        assert(refs.deep_view() =~= derive_refs(cs));
    }
    refs
}

/// The position of the first reference marked as head among the first `n`,
/// or -1 when none is.
pub open spec fn first_head_upto(rs: Seq<RefInfoV>, n: int) -> int
    decreases n,
{
    if n <= 0 {
        -1
    } else if first_head_upto(rs, n - 1) >= 0 {
        first_head_upto(rs, n - 1)
    } else if rs[n - 1].head {
        n - 1
    } else {
        -1
    }
}

/// The position of the reference on the currently checked-out branch: the
/// first one the parser marked as head, or -1 when there is none.
pub open spec fn first_head(rs: Seq<RefInfoV>) -> int {
    first_head_upto(rs, rs.len() as int)
}

/// The position, among the first `n`, of the first remote branch reference
/// with the given short name, or -1.
pub open spec fn first_remote_match_upto(rs: Seq<RefInfoV>, name: Seq<char>, n: int) -> int
    decreases n,
{
    if n <= 0 {
        -1
    } else if first_remote_match_upto(rs, name, n - 1) >= 0 {
        first_remote_match_upto(rs, name, n - 1)
    } else if rs[n - 1].location == RefLocation::Remote && rs[n - 1].ref_type == RefType::Branch
        && rs[n - 1].short_name == name {
        n - 1
    } else {
        -1
    }
}

/// The remote branch reference tracking the given short name, or -1.
pub open spec fn first_remote_match(rs: Seq<RefInfoV>, name: Seq<char>) -> int {
    first_remote_match_upto(rs, name, rs.len() as int)
}

/// The sibling a finished reference carries: for a local branch, the id of
/// its tracking remote branch when one exists; nothing otherwise. The link
/// is one-directional — remote references never point back.
pub open spec fn sibling_for(rs: Seq<RefInfoV>, i: int) -> Option<Seq<char>> {
    if rs[i].location == RefLocation::Local && rs[i].ref_type == RefType::Branch {
        if first_remote_match(rs, rs[i].short_name) >= 0 {
            Some(rs[first_remote_match(rs, rs[i].short_name)].id)
        } else {
            None
        }
    } else {
        None
    }
}

/// What the finishing pass yields: each reference kept, the head mark held
/// by exactly the first reference the parser marked — at most one across
/// the set — and sibling links filled in for local branches.
pub open spec fn finish_refs_spec(rs: Seq<RefInfoV>) -> Seq<RefInfoV> {
    Seq::new(
        rs.len(),
        |i: int|
            RefInfoV { head: i == first_head(rs), sibling_id: sibling_for(rs, i), ..rs[i] },
    )
}

proof fn lemma_first_head_mono(rs: Seq<RefInfoV>, m: int, n: int)
    requires
        0 <= m <= n,
        first_head_upto(rs, m) >= 0,
    ensures
        first_head_upto(rs, n) == first_head_upto(rs, m),
    decreases n,
{
    if n > m {
        lemma_first_head_mono(rs, m, n - 1);
    }
}

proof fn lemma_first_head_none(rs: Seq<RefInfoV>, n: int)
    requires
        forall|k: int| 0 <= k < n ==> !rs[k].head,
    ensures
        first_head_upto(rs, n) == -1,
    decreases n,
{
    if n > 0 {
        lemma_first_head_none(rs, n - 1);
    }
}

proof fn lemma_first_remote_mono(rs: Seq<RefInfoV>, name: Seq<char>, m: int, n: int)
    requires
        0 <= m <= n,
        first_remote_match_upto(rs, name, m) >= 0,
    ensures
        first_remote_match_upto(rs, name, n) == first_remote_match_upto(rs, name, m),
    decreases n,
{
    if n > m {
        lemma_first_remote_mono(rs, name, m, n - 1);
    }
}

proof fn lemma_first_remote_none(rs: Seq<RefInfoV>, name: Seq<char>, n: int)
    requires
        forall|k: int|
            0 <= k < n ==> !(rs[k].location == RefLocation::Remote && rs[k].ref_type
                == RefType::Branch && rs[k].short_name == name),
    ensures
        first_remote_match_upto(rs, name, n) == -1,
    decreases n,
{
    if n > 0 {
        lemma_first_remote_none(rs, name, n - 1);
    }
}

/// The reference on the currently checked-out branch: the first one
/// marked as head, if any.
pub fn get_head_ref(refs: &Vec<RefInfo>) -> (r: Option<usize>)
    ensures
        match r {
            Some(i) => i < refs@.len() && first_head(refs.deep_view()) == i as int,
            None => first_head(refs.deep_view()) == -1,
        },
{
    let ghost rs = refs.deep_view();
    let mut i: usize = 0;
    while i < refs.len()
        invariant
            rs == refs.deep_view(),
            rs.len() == refs@.len(),
            i <= refs@.len(),
            forall|k: int| 0 <= k < i ==> !rs[k].head,
        decreases refs.len() - i,
    {
        if refs[i].head {
            proof {
                lemma_first_head_none(rs, i as int);
                assert(first_head_upto(rs, i as int + 1) == i as int);
                lemma_first_head_mono(rs, i as int + 1, rs.len() as int);
            }
            return Some(i);
        }
        i = i + 1;
    }
    proof {
        lemma_first_head_none(rs, rs.len() as int);
    }
    None
}

fn find_remote_match(refs: &Vec<RefInfo>, name: &String) -> (r: Option<usize>)
    ensures
        match r {
            Some(i) => i < refs@.len() && first_remote_match(refs.deep_view(), name@) == i as int,
            None => first_remote_match(refs.deep_view(), name@) == -1,
        },
{
    let ghost rs = refs.deep_view();
    let mut i: usize = 0;
    while i < refs.len()
        invariant
            rs == refs.deep_view(),
            rs.len() == refs@.len(),
            i <= refs@.len(),
            forall|k: int|
                0 <= k < i ==> !(rs[k].location == RefLocation::Remote && rs[k].ref_type
                    == RefType::Branch && rs[k].short_name == name@),
        decreases refs.len() - i,
    {
        let is_match = match (&refs[i].location, &refs[i].ref_type) {
            (RefLocation::Remote, RefType::Branch) => refs[i].short_name == *name,
            _ => false,
        };
        if is_match {
            proof {
                lemma_first_remote_none(rs, name@, i as int);
                assert(first_remote_match_upto(rs, name@, i as int + 1) == i as int);
                lemma_first_remote_mono(rs, name@, i as int + 1, rs.len() as int);
            }
            return Some(i);
        }
        i = i + 1;
    }
    proof {
        lemma_first_remote_none(rs, name@, rs.len() as int);
    }
    None
}

/// The finishing pass over derived references: marks exactly the first
/// parser-marked reference as head — so at most one head survives across
/// the whole set — and links each local branch to its tracking remote
/// branch by short name.
pub fn finish_properties_on_refs(refs: Vec<RefInfo>) -> (r: Vec<RefInfo>)
    ensures
        r.deep_view() == finish_refs_spec(refs.deep_view()),
{
    let ghost rs = refs.deep_view();
    let head_idx = get_head_ref(&refs);
    let mut out: Vec<RefInfo> = Vec::new();
    let mut i: usize = 0;
    while i < refs.len()
        invariant
            rs == refs.deep_view(),
            rs.len() == refs@.len(),
            i <= refs@.len(),
            match head_idx {
                Some(h) => first_head(rs) == h as int,
                None => first_head(rs) == -1,
            },
            out@.len() == i,
            forall|k: int| 0 <= k < i ==> out.deep_view()[k] == finish_refs_spec(rs)[k],
        decreases refs.len() - i,
    {
        let mut item = refs[i].duplicate();
        item.head = match head_idx {
            Some(h) => i == h,
            None => false,
        };
        let is_local_branch = match (&item.location, &item.ref_type) {
            (RefLocation::Local, RefType::Branch) => true,
            _ => false,
        };
        if is_local_branch {
            match find_remote_match(&refs, &item.short_name) {
                Some(j) => {
                    item.sibling_id = Some(refs[j].id.clone());
                },
                None => {
                    item.sibling_id = None;
                },
            }
        } else {
            item.sibling_id = None;
        }
        proof {
            assert(item.deep_view() == finish_refs_spec(rs)[i as int]);
        }
        out.push(item);
        i = i + 1;
    }
    proof {
        assert(out.deep_view() =~= finish_refs_spec(rs));
    }
    out
}

/// At most one reference of a finished set carries the head mark.
pub proof fn lemma_finished_refs_single_head(rs: Seq<RefInfoV>, i: int, j: int)
    requires
        0 <= i < finish_refs_spec(rs).len(),
        0 <= j < finish_refs_spec(rs).len(),
        finish_refs_spec(rs)[i].head,
        finish_refs_spec(rs)[j].head,
    ensures
        i == j,
{
}

} // verus!
