//! Loading commits and references, and the graph queries answered from the
//! snapshot cache with an authoritative process fallback.
//!
//! Every operation that needs the external tool is split in two: a builder
//! here states exactly which invocation is wanted, and a function here
//! consumes what the tool answered. The surrounding application only
//! carries text between the two.

use vstd::prelude::*;
use vstd::string::StringExecFns;

use crate::commit_calcs::{
    between_ids, find_commit_ancestors, get_commit_ids_between_commits2, has_id, ids_unique,
    is_ancestor,
};
use crate::commit_filters::{apply_commit_filters, apply_filters_spec, CommitFilter};
use crate::commit_map::{get_commit_map, id_map_contents, id_map_wf};
use crate::git_request::ReqOptions;
use crate::refs::{derive_refs, finish_properties_on_refs, finish_refs_spec, first_head, get_ref_info_from_commits};
use crate::git_types::{Commit, CommitInfo, CommitInfoV, CommitV, RefInfo, RefInfoV};
use crate::run_git::GitCommand;
use crate::store::{RepoPath, SnapshotV, Store};
use crate::text::{dec_digits, id_list_of, parse_id_lines, u64_to_dec};

verus! {

/// Which branch's tip commit is asked for.
pub struct TopCommitOptions {
    pub repo_path: String,
    pub branch_name: String,
}

/// A full load request: how many commits, which filters, whether only the
/// cache may answer, and whether stashes are skipped.
pub struct ReqCommitsOptions2 {
    pub repo_path: RepoPath,
    pub num_commits: u32,
    pub filters: Vec<CommitFilter>,
    pub fast: bool,
    pub skip_stashes: bool,
}

/// The two endpoints of a commit-range query.
pub struct CommitDiffOpts {
    pub repo_path: String,
    pub commit_id1: String,
    pub commit_id2: String,
}

/// An ancestry query: is the candidate an ancestor of the commit?
pub struct CommitAncestorOpts {
    pub repo_path: String,
    pub commit_id: String,
    pub ancestor_candidate_id: String,
}

/// The fixed, stable record format every commit load passes to the tool;
/// the record parser is written against exactly this field order.
pub open spec fn pretty_format_arg() -> Seq<char> {
    "--pretty=format:%an;%ae;%ad;%H;%P;%d;%B"@
}

fn pretty_format_string() -> (s: String)
    ensures
        s@ == pretty_format_arg(),
{
    String::from_str("--pretty=format:%an;%ae;%ad;%H;%P;%d;%B")
}

/// The invocation that loads the tip commit of one branch: one decorated,
/// raw-dated record.
pub fn load_top_commit_for_branch(options: &TopCommitOptions) -> (cmd: GitCommand)
    ensures
        cmd.repo_path@ == options.repo_path@,
        cmd.args.deep_view() == seq![
            "log"@,
            options.branch_name@,
            "--decorate=full"@,
            pretty_format_arg(),
            "-n1"@,
            "--date=raw"@,
        ],
{
    let mut args: Vec<String> = Vec::new();
    args.push(String::from_str("log"));
    args.push(options.branch_name.clone());
    args.push(String::from_str("--decorate=full"));
    args.push(pretty_format_string());
    args.push(String::from_str("-n1"));
    args.push(String::from_str("--date=raw"));
    proof {
        assert(args.deep_view() =~= seq![
            "log"@,
            options.branch_name@,
            "--decorate=full"@,
            pretty_format_arg(),
            "-n1"@,
            "--date=raw"@,
        ]);
    }
    GitCommand { args, repo_path: options.repo_path.clone() }
}

/// The invocation that loads the currently checked-out commit: one
/// decorated, raw-dated record.
pub fn load_head_commit(options: &ReqOptions) -> (cmd: GitCommand)
    ensures
        cmd.repo_path@ == options.repo_path@,
        cmd.args.deep_view() == seq![
            "log"@,
            "--decorate=full"@,
            pretty_format_arg(),
            "-n1"@,
            "--date=raw"@,
        ],
{
    let mut args: Vec<String> = Vec::new();
    args.push(String::from_str("log"));
    args.push(String::from_str("--decorate=full"));
    args.push(pretty_format_string());
    args.push(String::from_str("-n1"));
    args.push(String::from_str("--date=raw"));
    proof {
        assert(args.deep_view() =~= seq![
            "log"@,
            "--decorate=full"@,
            pretty_format_arg(),
            "-n1"@,
            "--date=raw"@,
        ]);
    }
    GitCommand { args, repo_path: options.repo_path.clone() }
}

/// The invocation that loads up to `num` commits across all local
/// branches, tags and remote branches, decorated and raw-dated.
pub fn load_commits(repo_path: &RepoPath, num: u32) -> (cmd: GitCommand)
    ensures
        cmd.repo_path@ == repo_path@,
        cmd.args.deep_view() == seq![
            "log"@,
            "--branches"@,
            "--tags"@,
            "--remotes"@,
            "--decorate=full"@,
            pretty_format_arg(),
            "-n"@ + dec_digits(num as nat),
            "--date=raw"@,
        ],
{
    let mut narg = String::from_str("-n");
    let digits = u64_to_dec(num as u64);
    narg.append(digits.as_str());
    let mut args: Vec<String> = Vec::new();
    args.push(String::from_str("log"));
    args.push(String::from_str("--branches"));
    args.push(String::from_str("--tags"));
    args.push(String::from_str("--remotes"));
    args.push(String::from_str("--decorate=full"));
    args.push(pretty_format_string());
    args.push(narg);
    args.push(String::from_str("--date=raw"));
    proof {
        assert(args.deep_view() =~= seq![
            "log"@,
            "--branches"@,
            "--tags"@,
            "--remotes"@,
            "--decorate=full"@,
            pretty_format_arg(),
            "-n"@ + dec_digits(num as nat),
            "--date=raw"@,
        ]);
    }
    GitCommand { args, repo_path: repo_path.clone() }
}

/// The invocation behind the authoritative range query: exactly the
/// commits reachable from `commit_id2` but not from `commit_id1`.
pub fn commit_ids_between_cmd(repo_path: &str, commit_id1: &str, commit_id2: &str) -> (cmd:
    GitCommand)
    ensures
        cmd.repo_path@ == repo_path@,
        cmd.args.deep_view() == seq!["rev-list"@, commit_id1@ + ".."@ + commit_id2@],
{
    let mut range = String::from_str(commit_id1);
    range.append("..");
    range.append(commit_id2);
    let mut args: Vec<String> = Vec::new();
    args.push(String::from_str("rev-list"));
    args.push(range);
    proof {
        assert(args.deep_view() =~= seq!["rev-list"@, commit_id1@ + ".."@ + commit_id2@]);
    }
    GitCommand { args, repo_path: String::from_str(repo_path) }
}

/// The invocation behind the authoritative unpushed query: commits
/// reachable from the checkout tip but from no remote-tracking reference.
pub fn un_pushed_commits_cmd(options: &ReqOptions) -> (cmd: GitCommand)
    ensures
        cmd.repo_path@ == options.repo_path@,
        cmd.args.deep_view() == seq![
            "log"@,
            "HEAD"@,
            "--not"@,
            "--remotes"@,
            "--pretty=format:%H"@,
        ],
{
    let mut args: Vec<String> = Vec::new();
    args.push(String::from_str("log"));
    args.push(String::from_str("HEAD"));
    args.push(String::from_str("--not"));
    args.push(String::from_str("--remotes"));
    args.push(String::from_str("--pretty=format:%H"));
    proof {
        assert(args.deep_view() =~= seq![
            "log"@,
            "HEAD"@,
            "--not"@,
            "--remotes"@,
            "--pretty=format:%H"@,
        ]);
    }
    GitCommand { args, repo_path: options.repo_path.clone() }
}

/// Reads an authoritative range answer: the id list the tool printed, one
/// id per line. No output at all means the invocation failed.
pub fn commit_ids_between_commits_fallback(out: Option<&String>) -> (r: Option<Vec<String>>)
    ensures
        match out {
            Some(text) => r matches Some(ids) && ids.deep_view() == id_list_of(text@),
            None => r is None,
        },
{
    match out {
        Some(text) => Some(parse_id_lines(text.as_str())),
        None => None,
    }
}


/// Inserting one record into a timestamp-descending list: it goes in
/// front of the first strictly older record, after any of equal age.
pub open spec fn insert_desc(x: CommitInfoV, s: Seq<CommitInfoV>) -> Seq<CommitInfoV>
    decreases s.len(),
{
    if s.len() == 0 {
        seq![x]
    } else if x.ms > s[0].ms {
        seq![x] + s
    } else {
        seq![s[0]] + insert_desc(x, s.drop_first())
    }
}

/// The first `n` records sorted by descending timestamp, records of equal
/// age keeping their original order.
pub open spec fn sort_desc_upto(s: Seq<CommitInfoV>, n: int) -> Seq<CommitInfoV>
    decreases n,
{
    if n <= 0 {
        Seq::empty()
    } else {
        insert_desc(s[n - 1], sort_desc_upto(s, n - 1))
    }
}

/// The list sorted by descending timestamp, stably.
pub open spec fn sort_desc(s: Seq<CommitInfoV>) -> Seq<CommitInfoV> {
    sort_desc_upto(s, s.len() as int)
}

proof fn lemma_insert_desc_at(x: CommitInfoV, s: Seq<CommitInfoV>, pos: int)
    requires
        0 <= pos <= s.len(),
        forall|k: int| 0 <= k < pos ==> !(x.ms > s[k].ms),
        pos < s.len() ==> x.ms > s[pos].ms,
    ensures
        insert_desc(x, s) == s.take(pos) + seq![x] + s.skip(pos),
    decreases s.len(),
{
    if s.len() == 0 {
        assert(insert_desc(x, s) =~= s.take(pos) + seq![x] + s.skip(pos));
    } else if x.ms > s[0].ms {
        assert(pos == 0);
        assert(insert_desc(x, s) =~= s.take(0) + seq![x] + s.skip(0));
    } else {
        assert(pos >= 1);
        lemma_insert_desc_at(x, s.drop_first(), pos - 1);
        assert(s.drop_first().take(pos - 1) =~= s.take(pos).drop_first());
        assert(s.drop_first().skip(pos - 1) =~= s.skip(pos));
        assert(seq![s[0]] + (s.drop_first().take(pos - 1) + seq![x] + s.drop_first().skip(pos - 1))
            =~= s.take(pos) + seq![x] + s.skip(pos));
    }
}

/// Inserts one record into a timestamp-descending vector, keeping it
/// sorted.
fn insert_sorted_desc(out: &mut Vec<CommitInfo>, x: CommitInfo)
    ensures
        final(out).deep_view() == insert_desc(x.deep_view(), old(out).deep_view()),
{
    let ghost s = out.deep_view();
    let ghost xv = x.deep_view();
    let n = out.len();
    let mut pos: usize = 0;
    while pos < n && !(x.date.ms > out[pos].date.ms)
        invariant
            s == out.deep_view(),
            xv == x.deep_view(),
            n == out@.len(),
            s.len() == n,
            pos <= n,
            forall|k: int| 0 <= k < pos ==> !(xv.ms > s[k].ms),
        decreases n - pos,
    {
        pos = pos + 1;
    }
    proof {
        lemma_insert_desc_at(xv, s, pos as int);
    }
    out.insert(pos, x);
    proof {
        assert(out.deep_view() =~= s.take(pos as int) + seq![xv] + s.skip(pos as int));
    }
}

/// Sorts the stash records by descending timestamp, stably.
fn sort_stashes_desc(stashes: Vec<CommitInfo>) -> (r: Vec<CommitInfo>)
    ensures
        r.deep_view() == sort_desc(stashes.deep_view()),
{
    let ghost sv = stashes.deep_view();
    let mut out: Vec<CommitInfo> = Vec::new();
    let mut i: usize = 0;
    proof {
        assert(out.deep_view() =~= sort_desc_upto(sv, 0));
    }
    while i < stashes.len()
        invariant
            sv == stashes.deep_view(),
            sv.len() == stashes@.len(),
            i <= stashes@.len(),
            out.deep_view() == sort_desc_upto(sv, i as int),
        decreases stashes.len() - i,
    {
        insert_sorted_desc(&mut out, stashes[i].duplicate());
        i = i + 1;
    }
    out
}

/// Merging the tool-ordered commits with the timestamp-sorted stashes:
/// relative order inside each list is kept, and wherever a stash record
/// meets an ordinary commit the younger timestamp goes first, the
/// ordinary commit winning ties.
pub open spec fn merge_desc(a: Seq<CommitInfoV>, b: Seq<CommitInfoV>) -> Seq<CommitInfoV>
    decreases a.len() + b.len(),
{
    if b.len() == 0 {
        a
    } else if a.len() == 0 {
        b
    } else if a[0].ms >= b[0].ms {
        seq![a[0]] + merge_desc(a.drop_first(), b)
    } else {
        seq![b[0]] + merge_desc(a, b.drop_first())
    }
}

/// Interleaves the stash records into the commit list by recency, without
/// re-ordering the commits the tool already ordered.
fn merge_commits_and_stashes(commits: Vec<CommitInfo>, stashes: Vec<CommitInfo>) -> (r: Vec<
    CommitInfo,
>)
    ensures
        r.deep_view() == merge_desc(commits.deep_view(), sort_desc(stashes.deep_view())),
{
    let ghost av = commits.deep_view();
    let sorted = sort_stashes_desc(stashes);
    let ghost bv = sorted.deep_view();
    let mut out: Vec<CommitInfo> = Vec::new();
    let mut i: usize = 0;
    let mut j: usize = 0;
    proof {
        assert(av.skip(0) =~= av);
        assert(bv.skip(0) =~= bv);
        assert(out.deep_view() =~= Seq::<CommitInfoV>::empty());
    }
    while i < commits.len() || j < sorted.len()
        invariant
            av == commits.deep_view(),
            bv == sorted.deep_view(),
            av.len() == commits@.len(),
            bv.len() == sorted@.len(),
            i <= av.len(),
            j <= bv.len(),
            merge_desc(av, bv) == out.deep_view() + merge_desc(
                av.skip(i as int),
                bv.skip(j as int),
            ),
        decreases commits.len() + sorted.len() - i - j,
    {
        let ghost resta = av.skip(i as int);
        let ghost restb = bv.skip(j as int);
        let ghost out0 = out.deep_view();
        proof {
            if i < av.len() {
                assert(resta[0] == av[i as int]);
                assert(resta.drop_first() =~= av.skip(i as int + 1));
            }
            if j < bv.len() {
                assert(restb[0] == bv[j as int]);
                assert(restb.drop_first() =~= bv.skip(j as int + 1));
            }
        }
        let take_a: bool = if j >= sorted.len() {
            true
        } else if i >= commits.len() {
            false
        } else {
            commits[i].date.ms >= sorted[j].date.ms
        };
        if take_a {
            out.push(commits[i].duplicate());
            proof {
                assert(out.deep_view() =~= out0.push(av[i as int]));
                if restb.len() == 0 {
                    assert(resta =~= seq![resta[0]] + resta.drop_first());
                    assert(merge_desc(resta, restb) == resta);
                    assert(out0 + resta =~= out.deep_view() + resta.drop_first());
                    assert(merge_desc(resta.drop_first(), restb) == resta.drop_first());
                } else {
                    assert(merge_desc(resta, restb) == seq![resta[0]] + merge_desc(
                        resta.drop_first(),
                        restb,
                    ));
                    assert(out0 + (seq![resta[0]] + merge_desc(resta.drop_first(), restb))
                        =~= out.deep_view() + merge_desc(resta.drop_first(), restb));
                }
            }
            i = i + 1;
        } else {
            out.push(sorted[j].duplicate());
            proof {
                assert(out.deep_view() =~= out0.push(bv[j as int]));
                if resta.len() == 0 {
                    assert(restb =~= seq![restb[0]] + restb.drop_first());
                    assert(merge_desc(resta, restb) == restb);
                    assert(out0 + restb =~= out.deep_view() + restb.drop_first());
                    assert(merge_desc(resta, restb.drop_first()) == restb.drop_first());
                } else {
                    assert(merge_desc(resta, restb) == seq![restb[0]] + merge_desc(
                        resta,
                        restb.drop_first(),
                    ));
                    assert(out0 + (seq![restb[0]] + merge_desc(resta, restb.drop_first()))
                        =~= out.deep_view() + merge_desc(resta, restb.drop_first()));
                }
            }
            j = j + 1;
        }
    }
    proof {
        assert(av.skip(av.len() as int) =~= Seq::<CommitInfoV>::empty());
        assert(bv.skip(bv.len() as int) =~= Seq::<CommitInfoV>::empty());
        assert(out.deep_view() =~= out.deep_view() + merge_desc(
            av.skip(av.len() as int),
            bv.skip(bv.len() as int),
        ));
    }
    out
}

/// The merged list with positions reassigned: element `i` carries index
/// `i`, everything else unchanged.
pub open spec fn reindexed(s: Seq<CommitInfoV>) -> Seq<CommitInfoV> {
    Seq::new(s.len(), |i: int| CommitInfoV { index: i, ..s[i] })
}

/// Reassigns every record's index to its position, `0..N-1` in order.
fn assign_indices(commits: Vec<CommitInfo>) -> (r: Vec<CommitInfo>)
    requires
        commits@.len() <= 0x7fff_ffff,
    ensures
        r.deep_view() == reindexed(commits.deep_view()),
{
    let ghost cs = commits.deep_view();
    let mut out: Vec<CommitInfo> = Vec::new();
    let mut i: usize = 0;
    while i < commits.len()
        invariant
            cs == commits.deep_view(),
            cs.len() == commits@.len(),
            commits@.len() <= 0x7fff_ffff,
            i <= commits@.len(),
            out@.len() == i,
            forall|k: int| 0 <= k < i ==> out.deep_view()[k] == reindexed(cs)[k],
        decreases commits.len() - i,
    {
        let mut item = commits[i].duplicate();
        item.index = i as i32;
        proof {
            assert(item.deep_view() == reindexed(cs)[i as int]);
        }
        out.push(item);
        i = i + 1;
    }
    proof {
        assert(out.deep_view() =~= reindexed(cs));
    }
    out
}

/// What conversion keeps of a record: every field, with the decoration
/// candidates reduced to their reference ids.
pub open spec fn convert_commit_spec(c: CommitInfoV) -> CommitV {
    CommitV {
        author: c.author,
        email: c.email,
        ms: c.ms,
        adjustment: c.adjustment,
        id: c.id,
        index: c.index,
        parent_ids: c.parent_ids,
        is_merge: c.is_merge,
        message: c.message,
        stash_id: c.stash_id,
        refs: Seq::new(c.refs.len(), |k: int| c.refs[k].id),
        filtered: c.filtered,
        num_skipped: c.num_skipped,
    }
}

/// All records converted, in order.
pub open spec fn convert_all_spec(cs: Seq<CommitInfoV>) -> Seq<CommitV> {
    Seq::new(cs.len(), |i: int| convert_commit_spec(cs[i]))
}

/// Converts one parsed record into a query-layer commit, reducing its
/// decorations to reference ids.
pub fn convert_commit(commit_info: CommitInfo) -> (r: Commit)
    ensures
        r.deep_view() == convert_commit_spec(commit_info.deep_view()),
{
    let ghost cv = commit_info.deep_view();
    let mut ref_ids: Vec<String> = Vec::new();
    let mut k: usize = 0;
    while k < commit_info.refs.len()
        invariant
            cv == commit_info.deep_view(),
            cv.refs.len() == commit_info.refs@.len(),
            k <= commit_info.refs@.len(),
            ref_ids@.len() == k,
            forall|m: int| 0 <= m < k ==> (#[trigger] ref_ids@[m])@ == cv.refs[m].id,
        decreases commit_info.refs.len() - k,
    {
        ref_ids.push(commit_info.refs[k].id.clone());
        proof {
            assert(commit_info.refs@[k as int].deep_view() == cv.refs[k as int]);
            assert(ref_ids@[k as int]@ == cv.refs[k as int].id);
        }
        k = k + 1;
    }
    let r = Commit {
        author: commit_info.author,
        email: commit_info.email,
        date: commit_info.date,
        id: commit_info.id,
        index: commit_info.index,
        parent_ids: commit_info.parent_ids,
        is_merge: commit_info.is_merge,
        message: commit_info.message,
        stash_id: commit_info.stash_id,
        refs: ref_ids,
        filtered: commit_info.filtered,
        num_skipped: commit_info.num_skipped,
    };
    proof {
        assert forall|m: int| 0 <= m < r.deep_view().refs.len() implies r.deep_view().refs[m]
            == convert_commit_spec(cv).refs[m] by {
            assert(r.deep_view().refs[m] == ref_ids@[m]@);
        }
        assert(r.deep_view().refs =~= convert_commit_spec(cv).refs);
        assert(r.deep_view() =~= convert_commit_spec(cv));
    }
    r
}

/// Converts a whole list of parsed records.
pub fn get_commits_from_info(commit_info: Vec<CommitInfo>) -> (r: Vec<Commit>)
    ensures
        r.deep_view() == convert_all_spec(commit_info.deep_view()),
{
    let ghost cs = commit_info.deep_view();
    let mut out: Vec<Commit> = Vec::new();
    let mut i: usize = 0;
    while i < commit_info.len()
        invariant
            cs == commit_info.deep_view(),
            cs.len() == commit_info@.len(),
            i <= commit_info@.len(),
            out@.len() == i,
            forall|k: int| 0 <= k < i ==> out.deep_view()[k] == convert_all_spec(cs)[k],
        decreases commit_info.len() - i,
    {
        out.push(convert_commit(commit_info[i].duplicate()));
        i = i + 1;
    }
    proof {
        assert(out.deep_view() =~= convert_all_spec(cs));
    }
    out
}


proof fn lemma_insert_desc_len(x: CommitInfoV, s: Seq<CommitInfoV>)
    ensures
        insert_desc(x, s).len() == s.len() + 1,
    decreases s.len(),
{
    if s.len() > 0 && !(x.ms > s[0].ms) {
        lemma_insert_desc_len(x, s.drop_first());
    }
}

proof fn lemma_sort_desc_len(s: Seq<CommitInfoV>, n: int)
    requires
        0 <= n <= s.len(),
    ensures
        sort_desc_upto(s, n).len() == n,
    decreases n,
{
    if n > 0 {
        lemma_sort_desc_len(s, n - 1);
        lemma_insert_desc_len(s[n - 1], sort_desc_upto(s, n - 1));
    }
}

proof fn lemma_merge_desc_len(a: Seq<CommitInfoV>, b: Seq<CommitInfoV>)
    ensures
        merge_desc(a, b).len() == a.len() + b.len(),
    decreases a.len() + b.len(),
{
    if b.len() == 0 {
    } else if a.len() == 0 {
    } else if a[0].ms >= b[0].ms {
        lemma_merge_desc_len(a.drop_first(), b);
    } else {
        lemma_merge_desc_len(a, b.drop_first());
    }
}

/// What one full load leaves in the snapshot: the tool-ordered commits
/// with the stashes interleaved by recency, indices reassigned `0..N-1`.
pub open spec fn loaded_records_spec(cl: Seq<CommitInfoV>, stashes: Seq<CommitInfoV>) -> Seq<
    CommitInfoV,
> {
    reindexed(merge_desc(cl, sort_desc(stashes)))
}

/// One full load, once the tool has answered. Merges the stash records
/// into the commit records, reassigns every index, derives and finishes
/// the references, replaces the stored snapshot as a whole, and returns
/// the filtered commit list with the references.
///
/// With `fast` set and a snapshot present, the cached unfiltered list is
/// filtered and returned at once and nothing is stored — no tool answer
/// is consulted. A missing primary load fails the whole call; a missing
/// stash load degrades to zero stashes.
pub fn load_commits_and_refs(
    store: &mut Store,
    options: &ReqCommitsOptions2,
    commit_load: Option<Vec<CommitInfo>>,
    stash_load: Option<Vec<CommitInfo>>,
) -> (r: Option<(Vec<Commit>, Vec<RefInfo>)>)
    requires
        old(store).wf(),
        match commit_load {
            Some(cl) => cl@.len() + (match stash_load {
                Some(sl) => sl@.len(),
                None => 0,
            }) <= 0x7fff_ffff,
            None => true,
        },
    ensures
        final(store).wf(),
        (options.fast && old(store).snapshots().contains_key(options.repo_path@)) ==> {
            &&& final(store).snapshots() == old(store).snapshots()
            &&& (r matches Some(p) && p.0.deep_view() == apply_filters_spec(
                old(store).snapshots()[options.repo_path@].commits,
                options.filters.deep_view(),
            ) && p.1.deep_view() == old(store).snapshots()[options.repo_path@].refs)
        },
        !(options.fast && old(store).snapshots().contains_key(options.repo_path@)) ==> (match commit_load {
            None => r is None && final(store).snapshots() == old(store).snapshots(),
            Some(cl) => {
                let stashes = match stash_load {
                    Some(sl) => sl.deep_view(),
                    None => Seq::empty(),
                };
                let merged = loaded_records_spec(cl.deep_view(), stashes);
                let refs = finish_refs_spec(derive_refs(merged));
                let commits = convert_all_spec(merged);
                &&& final(store).snapshots() == old(store).snapshots().insert(
                    options.repo_path@,
                    SnapshotV { commits: commits, refs: refs },
                )
                &&& (r matches Some(p) && p.0.deep_view() == apply_filters_spec(
                    commits,
                    options.filters.deep_view(),
                ) && p.1.deep_view() == refs)
            },
        }),
{
    if options.fast {
        match store.get_commits_and_refs(&options.repo_path) {
            Some((commits, refs)) => {
                let filtered = apply_commit_filters(commits, &options.filters);
                return Some((filtered, refs));
            },
            None => {},
        }
    }
    let cl = match commit_load {
        Some(c) => c,
        None => {
            return None;
        },
    };
    let ghost clv = cl.deep_view();
    let stashes = match stash_load {
        Some(s) => s,
        None => Vec::new(),
    };
    let ghost stv = stashes.deep_view();
    proof {
        if stash_load is None {
            assert(stv =~= Seq::<CommitInfoV>::empty());
        }
        lemma_sort_desc_len(stv, stv.len() as int);
        lemma_merge_desc_len(clv, sort_desc(stv));
    }
    let merged0 = merge_commits_and_stashes(cl, stashes);
    let merged = assign_indices(merged0);
    let refs0 = get_ref_info_from_commits(&merged);
    let refs = finish_properties_on_refs(refs0);
    let commits = get_commits_from_info(merged);
    proof {
        assert(commits@.len() == commits.deep_view().len());
        assert(commits.deep_view().len() == clv.len() + stv.len());
    }
    store.insert_commits(&options.repo_path, &commits, &refs);
    let filtered = apply_commit_filters(commits, &options.filters);
    Some((filtered, refs))
}

/// The position, among the first `n` references, of the first one whose
/// id is `id`, or -1.
pub open spec fn first_ref_idx_upto(rs: Seq<RefInfoV>, id: Seq<char>, n: int) -> int
    decreases n,
{
    if n <= 0 {
        -1
    } else if first_ref_idx_upto(rs, id, n - 1) >= 0 {
        first_ref_idx_upto(rs, id, n - 1)
    } else if rs[n - 1].id == id {
        n - 1
    } else {
        -1
    }
}

/// The position of the first reference with the given id, or -1.
pub open spec fn first_ref_idx(rs: Seq<RefInfoV>, id: Seq<char>) -> int {
    first_ref_idx_upto(rs, id, rs.len() as int)
}

proof fn lemma_first_ref_idx_mono(rs: Seq<RefInfoV>, id: Seq<char>, m: int, n: int)
    requires
        0 <= m <= n,
        first_ref_idx_upto(rs, id, m) >= 0,
    ensures
        first_ref_idx_upto(rs, id, n) == first_ref_idx_upto(rs, id, m),
    decreases n,
{
    if n > m {
        lemma_first_ref_idx_mono(rs, id, m, n - 1);
    }
}

proof fn lemma_first_ref_idx_none(rs: Seq<RefInfoV>, id: Seq<char>, n: int)
    requires
        forall|k: int| 0 <= k < n ==> rs[k].id != id,
    ensures
        first_ref_idx_upto(rs, id, n) == -1,
    decreases n,
{
    if n > 0 {
        lemma_first_ref_idx_none(rs, id, n - 1);
    }
}

/// Looks up the remote-tracking sibling a reference is linked to: the
/// first reference carrying the linked id, or nothing when the reference
/// has no link or the id is absent.
pub fn find_sibling_ref(ri: &RefInfo, refs: &Vec<RefInfo>) -> (r: Option<usize>)
    ensures
        match ri.sibling_id {
            None => r is None,
            Some(_) => {
                let sid = ri.deep_view().sibling_id.unwrap();
                match r {
                    Some(j) => j < refs@.len() && first_ref_idx(refs.deep_view(), sid) == j as int,
                    None => first_ref_idx(refs.deep_view(), sid) == -1,
                }
            },
        },
{
    let ghost rs = refs.deep_view();
    match &ri.sibling_id {
        None => None,
        Some(sid) => {
            let mut i: usize = 0;
            while i < refs.len()
                invariant
                    rs == refs.deep_view(),
                    rs.len() == refs@.len(),
                    i <= refs@.len(),
                    ri.sibling_id is Some,
                    sid@ == ri.deep_view().sibling_id.unwrap(),
                    forall|k: int| 0 <= k < i ==> rs[k].id != sid@,
                decreases refs.len() - i,
            {
                if refs[i].id == *sid {
                    proof {
                        lemma_first_ref_idx_none(rs, sid@, i as int);
                        assert(first_ref_idx_upto(rs, sid@, i as int + 1) == i as int);
                        lemma_first_ref_idx_mono(rs, sid@, i as int + 1, rs.len() as int);
                    }
                    return Some(i);
                }
                i = i + 1;
            }
            proof {
                lemma_first_ref_idx_none(rs, sid@, rs.len() as int);
            }
            None
        },
    }
}

/// The position, among the first `n` commits, of the first one whose id
/// is `id`, or -1.
pub open spec fn first_commit_idx_upto(cs: Seq<CommitV>, id: Seq<char>, n: int) -> int
    decreases n,
{
    if n <= 0 {
        -1
    } else if first_commit_idx_upto(cs, id, n - 1) >= 0 {
        first_commit_idx_upto(cs, id, n - 1)
    } else if cs[n - 1].id == id {
        n - 1
    } else {
        -1
    }
}

/// The position of the first commit carrying the given id, or -1.
pub open spec fn first_commit_idx(cs: Seq<CommitV>, id: Seq<char>) -> int {
    first_commit_idx_upto(cs, id, cs.len() as int)
}

proof fn lemma_first_commit_idx_mono(cs: Seq<CommitV>, id: Seq<char>, m: int, n: int)
    requires
        0 <= m <= n,
        first_commit_idx_upto(cs, id, m) >= 0,
    ensures
        first_commit_idx_upto(cs, id, n) == first_commit_idx_upto(cs, id, m),
    decreases n,
{
    if n > m {
        lemma_first_commit_idx_mono(cs, id, m, n - 1);
    }
}

proof fn lemma_first_commit_idx_none(cs: Seq<CommitV>, id: Seq<char>, n: int)
    requires
        forall|k: int| 0 <= k < n ==> cs[k].id != id,
    ensures
        first_commit_idx_upto(cs, id, n) == -1,
    decreases n,
{
    if n > 0 {
        lemma_first_commit_idx_none(cs, id, n - 1);
    }
}

/// A commit id occurs in the list exactly when some first position
/// carries it.
pub proof fn lemma_first_commit_idx_has_id(cs: Seq<CommitV>, id: Seq<char>)
    ensures
        has_id(cs, id) <==> (0 <= first_commit_idx(cs, id) < cs.len() && cs[first_commit_idx(
            cs,
            id,
        )].id == id),
{
    lemma_first_commit_idx_works(cs, id, cs.len() as int);
    if has_id(cs, id) {
        let i = choose|i: int| 0 <= i < cs.len() && cs[i].id == id;
        if first_commit_idx(cs, id) == -1 {
            assert(cs[i].id != id);
        }
    }
}

proof fn lemma_first_commit_idx_works(cs: Seq<CommitV>, id: Seq<char>, n: int)
    requires
        0 <= n <= cs.len(),
    ensures
        first_commit_idx_upto(cs, id, n) == -1 ==> forall|k: int| 0 <= k < n ==> cs[k].id != id,
        first_commit_idx_upto(cs, id, n) >= 0 ==> 0 <= first_commit_idx_upto(cs, id, n) < n && cs[
            first_commit_idx_upto(cs, id, n)
        ].id == id,
    decreases n,
{
    if n > 0 {
        lemma_first_commit_idx_works(cs, id, n - 1);
    }
}


/// The snapshot can answer a range query for these endpoints: it exists
/// and holds both commits.
pub open spec fn between_cache_ready(
    snaps: Map<Seq<char>, SnapshotV>,
    path: Seq<char>,
    from_id: Seq<char>,
    to_id: Seq<char>,
) -> bool {
    snaps.contains_key(path) && has_id(snaps[path].commits, to_id) && has_id(
        snaps[path].commits,
        from_id,
    )
}

/// The cache-path answer of a range query, meaningful under unique ids:
/// the ids between the two endpoints in snapshot order.
pub open spec fn between_cache_ids(snap: SnapshotV, from_id: Seq<char>, to_id: Seq<char>) -> Seq<
    Seq<char>,
> {
    between_ids(
        snap.commits,
        first_commit_idx(snap.commits, from_id),
        first_commit_idx(snap.commits, to_id),
    )
}

/// The cache path of a range query: walks the snapshot graph from the
/// second endpoint, stopping at the first. Yields nothing when the
/// snapshot is absent or either endpoint lies outside it.
pub fn commit_ids_between_commits_cached(store: &Store, options: &CommitDiffOpts) -> (r: Option<
    Vec<String>,
>)
    requires
        store.wf(),
    ensures
        r is Some <==> between_cache_ready(
            store.snapshots(),
            options.repo_path@,
            options.commit_id1@,
            options.commit_id2@,
        ),
        match r {
            Some(ids) => ids_unique(store.snapshots()[options.repo_path@].commits)
                ==> ids.deep_view() == between_cache_ids(
                store.snapshots()[options.repo_path@],
                options.commit_id1@,
                options.commit_id2@,
            ),
            None => true,
        },
{
    match store.get_commits_and_refs(&options.repo_path) {
        Some((commits, _refs)) => {
            let ghost cs = commits.deep_view();
            let idmap = get_commit_map(&commits);
            let r = get_commit_ids_between_commits2(
                &options.commit_id2,
                &options.commit_id1,
                &commits,
                &idmap,
            );
            proof {
                if ids_unique(cs) && r is Some {
                    lemma_first_commit_idx_has_id(cs, options.commit_id1@);
                    lemma_first_commit_idx_has_id(cs, options.commit_id2@);
                }
            }
            r
        },
        None => None,
    }
}

/// A range query: commits reachable from `commit_id2` but not from
/// `commit_id1`. Cache-first; when the snapshot cannot answer, the parsed
/// authoritative answer — handed in by the caller, or absent when that
/// invocation failed — decides.
pub fn commit_ids_between_commits(
    store: &Store,
    options: &CommitDiffOpts,
    fallback_out: Option<&String>,
) -> (r: Option<Vec<String>>)
    requires
        store.wf(),
    ensures
        between_cache_ready(
            store.snapshots(),
            options.repo_path@,
            options.commit_id1@,
            options.commit_id2@,
        ) ==> {
            &&& r is Some
            &&& (ids_unique(store.snapshots()[options.repo_path@].commits)
                ==> r.unwrap().deep_view() == between_cache_ids(
                store.snapshots()[options.repo_path@],
                options.commit_id1@,
                options.commit_id2@,
            ))
        },
        !between_cache_ready(
            store.snapshots(),
            options.repo_path@,
            options.commit_id1@,
            options.commit_id2@,
        ) ==> (match fallback_out {
            Some(text) => r matches Some(ids) && ids.deep_view() == id_list_of(text@),
            None => r is None,
        }),
{
    let cached = commit_ids_between_commits_cached(store, options);
    match cached {
        Some(ids) => Some(ids),
        None => commit_ids_between_commits_fallback(fallback_out),
    }
}

/// The snapshot can answer the unpushed query: it exists, a head
/// reference is present, that reference is linked to a sibling that is
/// present, and both tips are among the snapshot's commits.
pub open spec fn unpushed_cache_ready(snaps: Map<Seq<char>, SnapshotV>, path: Seq<char>) -> bool {
    &&& snaps.contains_key(path)
    &&& first_head(snaps[path].refs) >= 0
    &&& snaps[path].refs[first_head(snaps[path].refs)].sibling_id is Some
    &&& first_ref_idx(
        snaps[path].refs,
        snaps[path].refs[first_head(snaps[path].refs)].sibling_id.unwrap(),
    ) >= 0
    &&& has_id(
        snaps[path].commits,
        snaps[path].refs[first_head(snaps[path].refs)].commit_id,
    )
    &&& has_id(
        snaps[path].commits,
        snaps[path].refs[first_ref_idx(
            snaps[path].refs,
            snaps[path].refs[first_head(snaps[path].refs)].sibling_id.unwrap(),
        )].commit_id,
    )
}

/// The cache-path answer of the unpushed query, meaningful under unique
/// ids: the ids between the sibling's tip and the head's tip.
pub open spec fn unpushed_cache_ids(snap: SnapshotV) -> Seq<Seq<char>> {
    between_ids(
        snap.commits,
        first_commit_idx(
            snap.commits,
            snap.refs[first_ref_idx(
                snap.refs,
                snap.refs[first_head(snap.refs)].sibling_id.unwrap(),
            )].commit_id,
        ),
        first_commit_idx(snap.commits, snap.refs[first_head(snap.refs)].commit_id),
    )
}

/// The cache path of the unpushed query: finds the head reference and its
/// resolved sibling in the snapshot and walks the graph between their
/// tips. Yields nothing whenever any of those cannot be found there.
pub fn get_un_pushed_commits_computed(store: &Store, options: &ReqOptions) -> (r: Option<
    Vec<String>,
>)
    requires
        store.wf(),
    ensures
        r is Some <==> unpushed_cache_ready(store.snapshots(), options.repo_path@),
        match r {
            Some(ids) => ids_unique(store.snapshots()[options.repo_path@].commits)
                ==> ids.deep_view() == unpushed_cache_ids(store.snapshots()[options.repo_path@]),
            None => true,
        },
{
    match store.get_commits_and_refs(&options.repo_path) {
        Some((commits, refs)) => {
            let ghost cs = commits.deep_view();
            let ghost rs = refs.deep_view();
            match crate::refs::get_head_ref(&refs) {
                Some(h) => {
                    match find_sibling_ref(&refs[h], &refs) {
                        Some(j) => {
                            let idmap = get_commit_map(&commits);
                            let r = get_commit_ids_between_commits2(
                                &refs[h].commit_id,
                                &refs[j].commit_id,
                                &commits,
                                &idmap,
                            );
                            proof {
                                assert(rs[h as int].commit_id == refs@[h as int].deep_view().commit_id);
                                if ids_unique(cs) && r is Some {
                                    lemma_first_commit_idx_has_id(cs, refs@[h as int].commit_id@);
                                    lemma_first_commit_idx_has_id(cs, refs@[j as int].commit_id@);
                                }
                            }
                            r
                        },
                        None => None,
                    }
                },
                None => None,
            }
        },
        None => None,
    }
}

/// The unpushed-commit query: cache-first, then the authoritative
/// invocation the caller already ran, then empty. This operation never
/// fails outright — an unanswerable query degrades to no ids.
pub fn get_un_pushed_commits(
    store: &Store,
    options: &ReqOptions,
    fallback_out: Option<&String>,
) -> (r: Vec<String>)
    requires
        store.wf(),
    ensures
        unpushed_cache_ready(store.snapshots(), options.repo_path@) && ids_unique(
            store.snapshots()[options.repo_path@].commits,
        ) ==> r.deep_view() == unpushed_cache_ids(store.snapshots()[options.repo_path@]),
        !unpushed_cache_ready(store.snapshots(), options.repo_path@) ==> (match fallback_out {
            Some(text) => r.deep_view() == id_list_of(text@),
            None => r@.len() == 0,
        }),
{
    match get_un_pushed_commits_computed(store, options) {
        Some(ids) => ids,
        None => {
            match fallback_out {
                Some(text) => parse_id_lines(text.as_str()),
                None => Vec::new(),
            }
        },
    }
}

/// An ancestry query against the cached snapshot only: whether the
/// candidate is reachable from the commit along parent edges. An absent
/// snapshot or an unknown commit id answers no.
pub fn commit_is_ancestor(store: &Store, options: &CommitAncestorOpts) -> (r: bool)
    requires
        store.wf(),
    ensures
        !store.snapshots().contains_key(options.repo_path@) ==> r == false,
        store.snapshots().contains_key(options.repo_path@) ==> {
            let cs = store.snapshots()[options.repo_path@].commits;
            &&& (r ==> has_id(cs, options.commit_id@))
            &&& (ids_unique(cs) ==> r == (has_id(cs, options.commit_id@) && has_id(
                cs,
                options.ancestor_candidate_id@,
            ) && is_ancestor(
                cs,
                first_commit_idx(cs, options.commit_id@),
                first_commit_idx(cs, options.ancestor_candidate_id@),
            )))
        },
{
    match store.get_commits_and_refs(&options.repo_path) {
        Some((commits, _refs)) => {
            let ghost cs = commits.deep_view();
            let idmap = get_commit_map(&commits);
            match crate::commit_map::id_map_get(&idmap, &options.commit_id) {
                Some(c) => {
                    let anc = find_commit_ancestors(&commits, &idmap, c);
                    let n = commits.len();
                    let mut i: usize = 0;
                    while i < n
                        invariant
                            store.wf(),
                            store.snapshots().contains_key(options.repo_path@),
                            cs == store.snapshots()[options.repo_path@].commits,
                            cs == commits.deep_view(),
                            n == commits@.len(),
                            cs.len() == n,
                            anc@.len() == n,
                            i <= n,
                            c < n,
                            cs[c as int].id == options.commit_id@,
                            forall|k: int|
                                0 <= k < i ==> !(anc@[k] && cs[k].id
                                    == options.ancestor_candidate_id@),
                            forall|k: int|
                                0 <= k < anc@.len() && #[trigger] anc@[k] ==> is_ancestor(
                                    cs,
                                    c as int,
                                    k,
                                ),
                            ids_unique(cs) ==> forall|k: int|
                                0 <= k < anc@.len() && is_ancestor(cs, c as int, k) ==> anc@[k],
                        decreases n - i,
                    {
                        if anc[i] && commits[i].id == options.ancestor_candidate_id {
                            proof {
                                assert(cs[c as int].id == options.commit_id@);
                                if ids_unique(cs) {
                                    lemma_first_commit_idx_has_id(cs, options.commit_id@);
                                    lemma_first_commit_idx_has_id(
                                        cs,
                                        options.ancestor_candidate_id@,
                                    );
                                    assert(first_commit_idx(cs, options.commit_id@) == c as int);
                                    assert(first_commit_idx(cs, options.ancestor_candidate_id@)
                                        == i as int);
                                }
                            }
                            return true;
                        }
                        i = i + 1;
                    }
                    proof {
                        if ids_unique(cs) {
                            lemma_first_commit_idx_has_id(cs, options.commit_id@);
                            assert(first_commit_idx(cs, options.commit_id@) == c as int);
                            if has_id(cs, options.ancestor_candidate_id@) {
                                lemma_first_commit_idx_has_id(cs, options.ancestor_candidate_id@);
                                let x = first_commit_idx(cs, options.ancestor_candidate_id@);
                                if is_ancestor(cs, c as int, x) {
                                    assert(anc@[x]);
                                    assert(false);
                                }
                            }
                        }
                    }
                    false
                },
                None => {
                    proof {
                        assert(!has_id(cs, options.commit_id@)) by {
                            if has_id(cs, options.commit_id@) {
                                let i = choose|i: int|
                                    0 <= i < cs.len() && cs[i].id == options.commit_id@;
                                assert(id_map_contents(idmap).contains_key(cs[i].id));
                            }
                        }
                    }
                    false
                },
            }
        },
        None => false,
    }
}


/// Every successful load hands back records indexed exactly `0..N-1`, in
/// that order: position `i` of the merged list carries index `i`.
pub proof fn lemma_loaded_indices(cl: Seq<CommitInfoV>, stashes: Seq<CommitInfoV>, i: int)
    requires
        0 <= i < loaded_records_spec(cl, stashes).len(),
    ensures
        loaded_records_spec(cl, stashes)[i].index == i,
{
}

/// Whether a load request will be answered from the cache alone, with no
/// tool invocation at all: it asks for the cache and a snapshot is
/// present. The application consults this before spawning the tool.
pub fn cache_load_ready(store: &Store, options: &ReqCommitsOptions2) -> (r: bool)
    requires
        store.wf(),
    ensures
        r == (options.fast && store.snapshots().contains_key(options.repo_path@)),
{
    if options.fast {
        match store.get_commits_and_refs(&options.repo_path) {
            Some(_) => true,
            None => false,
        }
    } else {
        false
    }
}

} // verus!
