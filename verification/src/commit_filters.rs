//! The downstream filtering step: narrowing a loaded commit list to the
//! commits a caller asked about, marking what was kept and counting what
//! was skipped.

use vstd::prelude::*;

use crate::git_types::{Commit, CommitV};

verus! {

/// One criterion a commit must meet to be kept.
pub enum CommitFilter {
    /// Keep commits whose author name equals the given one.
    Author(String),
    /// Keep commits whose author email equals the given one.
    Email(String),
    /// Keep the commit with the given hash id.
    Commit(String),
}

/// Spec-level image of a `CommitFilter`.
pub ghost enum CommitFilterV {
    Author(Seq<char>),
    Email(Seq<char>),
    Commit(Seq<char>),
}

impl DeepView for CommitFilter {
    type V = CommitFilterV;

    open spec fn deep_view(&self) -> CommitFilterV {
        match self {
            CommitFilter::Author(a) => CommitFilterV::Author(a.deep_view()),
            CommitFilter::Email(e) => CommitFilterV::Email(e.deep_view()),
            CommitFilter::Commit(c) => CommitFilterV::Commit(c.deep_view()),
        }
    }
}

/// Whether one commit meets one criterion.
pub open spec fn matches_filter(c: CommitV, f: CommitFilterV) -> bool {
    match f {
        CommitFilterV::Author(a) => c.author == a,
        CommitFilterV::Email(e) => c.email == e,
        CommitFilterV::Commit(id) => c.id == id,
    }
}

/// Whether one commit meets every criterion of the list.
pub open spec fn passes_filters(c: CommitV, fs: Seq<CommitFilterV>) -> bool {
    forall|k: int| 0 <= k < fs.len() ==> matches_filter(c, #[trigger] fs[k])
}

/// The filtered list: kept commits in order, each flagged as filtered and
/// carrying the count of commits dropped immediately before it.
pub open spec fn filter_commits_rec(cs: Seq<CommitV>, fs: Seq<CommitFilterV>, skipped: int) -> Seq<
    CommitV,
>
    decreases cs.len(),
{
    if cs.len() == 0 {
        Seq::empty()
    } else if passes_filters(cs[0], fs) {
        seq![CommitV { filtered: true, num_skipped: skipped, ..cs[0] }] + filter_commits_rec(
            cs.drop_first(),
            fs,
            0,
        )
    } else {
        filter_commits_rec(cs.drop_first(), fs, skipped + 1)
    }
}

/// What filtering returns: the list unchanged when no criteria were
/// supplied, the narrowed and flagged list otherwise.
pub open spec fn apply_filters_spec(cs: Seq<CommitV>, fs: Seq<CommitFilterV>) -> Seq<CommitV> {
    if fs.len() == 0 {
        cs
    } else {
        filter_commits_rec(cs, fs, 0)
    }
}

fn matches_one(c: &Commit, f: &CommitFilter) -> (r: bool)
    ensures
        r == matches_filter(c.deep_view(), f.deep_view()),
{
    match f {
        CommitFilter::Author(a) => c.author == *a,
        CommitFilter::Email(e) => c.email == *e,
        CommitFilter::Commit(id) => c.id == *id,
    }
}

fn passes_all(c: &Commit, fs: &Vec<CommitFilter>) -> (r: bool)
    ensures
        r == passes_filters(c.deep_view(), fs.deep_view()),
{
    let mut k: usize = 0;
    while k < fs.len()
        invariant
            k <= fs.len(),
            forall|m: int| 0 <= m < k ==> matches_filter(c.deep_view(), #[trigger] fs.deep_view()[m]),
        decreases fs.len() - k,
    {
        if !matches_one(c, &fs[k]) {
            proof {
                assert(!matches_filter(c.deep_view(), fs.deep_view()[k as int]));
            }
            return false;
        }
        k = k + 1;
    }
    true
}

/// Applies the caller-supplied filters to a commit list. With no filters
/// the list comes back as it was — in particular `filtered` and
/// `num_skipped` stay untouched.
pub fn apply_commit_filters(commits: Vec<Commit>, filters: &Vec<CommitFilter>) -> (r: Vec<Commit>)
    requires
        commits@.len() <= 0x7fff_ffff,
    ensures
        r.deep_view() == apply_filters_spec(commits.deep_view(), filters.deep_view()),
{
    if filters.len() == 0 {
        return commits;
    }
    let ghost cs = commits.deep_view();
    let ghost fs = filters.deep_view();
    let mut out: Vec<Commit> = Vec::new();
    let mut skipped: u32 = 0;
    let mut i: usize = 0;
    proof {
        assert(cs.skip(0) =~= cs);
    }
    while i < commits.len()
        invariant
            cs == commits.deep_view(),
            fs == filters.deep_view(),
            fs.len() > 0,
            commits@.len() <= 0x7fff_ffff,
            cs.len() == commits@.len(),
            i <= commits@.len(),
            skipped <= i,
            filter_commits_rec(cs, fs, 0) == out.deep_view() + filter_commits_rec(
                cs.skip(i as int),
                fs,
                skipped as int,
            ),
        decreases commits.len() - i,
    {
        let ghost rest = cs.skip(i as int);
        let ghost out0 = out.deep_view();
        proof {
            assert(rest[0] == cs[i as int]);
            assert(rest.drop_first() =~= cs.skip(i as int + 1));
        }
        if passes_all(&commits[i], filters) {
            let ghost skipped0 = skipped as int;
            let mut kept = commits[i].duplicate();
            kept.filtered = true;
            kept.num_skipped = skipped;
            let ghost keptv = kept.deep_view();
            out.push(kept);
            skipped = 0;
            proof {
                assert(keptv == (CommitV { filtered: true, num_skipped: skipped0, ..rest[0] }));
                assert(out.deep_view() =~= out0 + seq![keptv]);
                assert(out0 + (seq![keptv] + filter_commits_rec(rest.drop_first(), fs, 0)) =~= out.deep_view()
                    + filter_commits_rec(rest.drop_first(), fs, 0));
            }
        } else {
            skipped = skipped + 1;
        }
        i = i + 1;
    }
    proof {
        assert(cs.skip(cs.len() as int) =~= Seq::<CommitV>::empty());
        assert(out.deep_view() =~= out.deep_view() + Seq::<CommitV>::empty());
    }
    out
}


/// Filtering narrows: every commit of the filtered list is one of the
/// input commits, carrying the same content apart from the two marks the
/// filtering step itself sets.
pub proof fn lemma_filtered_from_input(
    cs: Seq<CommitV>,
    fs: Seq<CommitFilterV>,
    skipped: int,
    k: int,
)
    requires
        0 <= k < filter_commits_rec(cs, fs, skipped).len(),
    ensures
        exists|i: int|
            0 <= i < cs.len() && passes_filters(#[trigger] cs[i], fs) && filter_commits_rec(
                cs,
                fs,
                skipped,
            )[k] == (CommitV {
                filtered: true,
                num_skipped: filter_commits_rec(cs, fs, skipped)[k].num_skipped,
                ..cs[i]
            }),
    decreases cs.len(),
{
    if cs.len() > 0 {
        let out = filter_commits_rec(cs, fs, skipped);
        if passes_filters(cs[0], fs) {
            if k == 0 {
                assert(cs[0] == cs[0]);
            } else {
                lemma_filtered_from_input(cs.drop_first(), fs, 0, k - 1);
                let i = choose|i: int|
                    0 <= i < cs.drop_first().len() && passes_filters(
                        #[trigger] cs.drop_first()[i],
                        fs,
                    ) && filter_commits_rec(cs.drop_first(), fs, 0)[k - 1] == (CommitV {
                        filtered: true,
                        num_skipped: filter_commits_rec(cs.drop_first(), fs, 0)[k - 1].num_skipped,
                        ..cs.drop_first()[i]
                    });
                assert(cs[i + 1] == cs.drop_first()[i]);
                assert(out[k] == filter_commits_rec(cs.drop_first(), fs, 0)[k - 1]);
            }
        } else {
            lemma_filtered_from_input(cs.drop_first(), fs, skipped + 1, k);
            let i = choose|i: int|
                0 <= i < cs.drop_first().len() && passes_filters(
                    #[trigger] cs.drop_first()[i],
                    fs,
                ) && filter_commits_rec(cs.drop_first(), fs, skipped + 1)[k] == (CommitV {
                    filtered: true,
                    num_skipped: filter_commits_rec(cs.drop_first(), fs, skipped + 1)[k].num_skipped,
                    ..cs.drop_first()[i]
                });
            assert(cs[i + 1] == cs.drop_first()[i]);
        }
    }
}

} // verus!
