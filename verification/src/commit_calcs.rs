//! Reachability over the parent edges of a snapshot's commit list: the
//! ancestor closure of a commit, and the set of commits lying between two
//! endpoints of the graph.

use vstd::prelude::*;

use crate::commit_map::{id_map_contents, id_map_get, id_map_wf, CommitIdMap};
use crate::git_types::{Commit, CommitV};

verus! {

/// Commit `j` is a parent of commit `i` in the commit list `cs`.
pub open spec fn edge(cs: Seq<CommitV>, i: int, j: int) -> bool {
    &&& 0 <= i < cs.len()
    &&& 0 <= j < cs.len()
    &&& cs[i].parent_ids.contains(cs[j].id)
}

/// `p` is a walkable chain of positions: every element in range and outside
/// `avoid`, and each step follows a parent edge.
pub open spec fn valid_path(cs: Seq<CommitV>, p: Seq<int>, avoid: Set<int>) -> bool {
    &&& p.len() > 0
    &&& forall|k: int|
        0 <= k < p.len() ==> 0 <= #[trigger] p[k] < cs.len() && !avoid.contains(p[k])
    &&& forall|k: int, k2: int|
        0 <= k && k2 == k + 1 && k2 < p.len() ==> edge(cs, #[trigger] p[k], #[trigger] p[k2])
}

/// Position `x` can be reached from some position in `init` along parent
/// edges, never touching `avoid`. A position of `init` itself counts as
/// reached (a chain of one).
pub open spec fn reachable_from(cs: Seq<CommitV>, init: Set<int>, avoid: Set<int>, x: int) -> bool {
    exists|p: Seq<int>| valid_path(cs, p, avoid) && init.contains(p[0]) && p.last() == x
}

/// `x` is an ancestor of `c`: reachable from `c` by one or more parent edges.
pub open spec fn is_ancestor(cs: Seq<CommitV>, c: int, x: int) -> bool {
    exists|p: Seq<int>| valid_path(cs, p, Set::empty()) && edge(cs, c, p[0]) && p.last() == x
}

/// `x` lies between `from` and `to`: reachable from `to` along parent edges
/// on a chain that never touches `from`.
pub open spec fn in_between(cs: Seq<CommitV>, from: int, to: int, x: int) -> bool {
    exists|p: Seq<int>|
        valid_path(cs, p, Set::empty().insert(from)) && p[0] == to && p.last() == x
}

/// No two commits of the list carry the same hash id; the data model
/// guarantees this of every real snapshot.
pub open spec fn ids_unique(cs: Seq<CommitV>) -> bool {
    forall|i: int, j: int| 0 <= i < j < cs.len() ==> cs[i].id != cs[j].id
}

/// Some commit of the list carries this hash id.
pub open spec fn has_id(cs: Seq<CommitV>, id: Seq<char>) -> bool {
    exists|i: int| 0 <= i < cs.len() && cs[i].id == id
}

/// The positions a walk starts from, as a set.
pub open spec fn idx_set(s: Seq<usize>) -> Set<int> {
    Set::new(|x: int| 0 <= x && s.contains(x as usize))
}

/// The position a walk must not touch, as a set.
pub open spec fn avoid_set(avoid: Option<usize>) -> Set<int> {
    match avoid {
        Some(a) => Set::empty().insert(a as int),
        None => Set::empty(),
    }
}

/// How many positions are still unvisited.
spec fn count_false(s: Seq<bool>) -> nat
    decreases s.len(),
{
    if s.len() == 0 {
        0
    } else {
        count_false(s.drop_last()) + if s.last() {
            0nat
        } else {
            1nat
        }
    }
}

proof fn lemma_count_false_update(s: Seq<bool>, i: int)
    requires
        0 <= i < s.len(),
        !s[i],
    ensures
        count_false(s.update(i, true)) + 1 == count_false(s),
    decreases s.len(),
{
    let s2 = s.update(i, true);
    if i == s.len() - 1 {
        assert(s2.drop_last() =~= s.drop_last());
    } else {
        assert(s2.drop_last() =~= s.drop_last().update(i, true));
        lemma_count_false_update(s.drop_last(), i);
        assert(s2.last() == s.last());
    }
}

/// Extends a witness chain by one parent edge.
proof fn lemma_reachable_step(cs: Seq<CommitV>, init: Set<int>, avoid: Set<int>, i: int, j: int)
    requires
        reachable_from(cs, init, avoid, i),
        edge(cs, i, j),
        !avoid.contains(j),
    ensures
        reachable_from(cs, init, avoid, j),
{
    let p = choose|p: Seq<int>| valid_path(cs, p, avoid) && init.contains(p[0]) && p.last() == i;
    let q = p.push(j);
    assert(q[0] == p[0]);
    assert(q.last() == j);
    assert forall|k: int, k2: int| 0 <= k && k2 == k + 1 && k2 < q.len() implies edge(
        cs,
        #[trigger] q[k],
        #[trigger] q[k2],
    ) by {
        if k2 < p.len() {
            assert(edge(cs, p[k], p[k2]));
        } else {
            assert(q[k] == p.last() && q[k2] == j);
        }
    }
    assert(valid_path(cs, q, avoid));
}

/// A set of positions closed under outgoing parent edges traps every chain
/// that starts inside it.
proof fn lemma_closed_set_catches_path(cs: Seq<CommitV>, vis: Seq<bool>, avoid: Set<int>, p: Seq<int>)
    requires
        valid_path(cs, p, avoid),
        vis.len() == cs.len(),
        vis[p[0]],
        forall|i: int, j: int|
            0 <= i < cs.len() && vis[i] && edge(cs, i, j) && !avoid.contains(j) ==> vis[j],
    ensures
        vis[p.last()],
    decreases p.len(),
{
    if p.len() > 1 {
        assert(edge(cs, p[0], p[1]));
        let q = p.subrange(1, p.len() as int);
        assert(vis[q[0]]);
        assert forall|k: int, k2: int| 0 <= k && k2 == k + 1 && k2 < q.len() implies edge(
            cs,
            #[trigger] q[k],
            #[trigger] q[k2],
        ) by {
            assert(edge(cs, p[k + 1], p[k2 + 1]));
            assert(q[k] == p[k + 1] && q[k2] == p[k2 + 1]);
        }
        assert(valid_path(cs, q, avoid));
        lemma_closed_set_catches_path(cs, vis, avoid, q);
        assert(q.last() == p.last());
    }
}

/// Every parent of a commit is one of its ancestors: with `P` the parent
/// positions of `c`, `ancestors(c) ⊇ P`.
pub proof fn lemma_parent_is_ancestor(cs: Seq<CommitV>, c: int, j: int)
    requires
        edge(cs, c, j),
    ensures
        is_ancestor(cs, c, j),
{
    let p = seq![j];
    assert(p[0] == j && p.last() == j);
    assert(valid_path(cs, p, Set::empty()));
}

/// The ancestor closure swallows each parent's own closure: for every parent
/// `j` of `c`, `ancestors(c) ⊇ ancestors(j)`. Together with
/// `lemma_parent_is_ancestor` this is the transitive-closure law of the
/// ancestor relation.
pub proof fn lemma_ancestor_of_parent(cs: Seq<CommitV>, c: int, j: int, x: int)
    requires
        edge(cs, c, j),
        is_ancestor(cs, j, x),
    ensures
        is_ancestor(cs, c, x),
{
    let p = choose|p: Seq<int>|
        valid_path(cs, p, Set::empty()) && edge(cs, j, p[0]) && p.last() == x;
    let q = seq![j] + p;
    assert(q[0] == j);
    assert(q.last() == p.last());
    assert forall|k: int, k2: int| 0 <= k && k2 == k + 1 && k2 < q.len() implies edge(
        cs,
        #[trigger] q[k],
        #[trigger] q[k2],
    ) by {
        if k == 0 {
            assert(q[1] == p[0]);
        } else {
            assert(q[k] == p[k - 1] && q[k2] == p[k2 - 1]);
            assert(edge(cs, p[k - 1], p[k2 - 1]));
        }
    }
    assert(valid_path(cs, q, Set::empty()));
}

/// The worklist walk over parent edges. Starting from the positions of
/// `init`, repeatedly follows parent edges, never stepping onto `avoid`,
/// and flags every position it reaches.
///
/// The flags are sound for any input; they are exactly the reachable set
/// when commit ids are unique, which the data model guarantees.
#[verifier::rlimit(100)]
fn walk_graph(commits: &Vec<Commit>, idmap: &CommitIdMap, init: Vec<usize>, avoid: Option<usize>) -> (visited: Vec<bool>)
    requires
        id_map_wf(id_map_contents(*idmap), commits.deep_view()),
        forall|k: int|
            0 <= k < init@.len() ==> (#[trigger] init@[k]) < commits@.len() && !avoid_set(
                avoid,
            ).contains(init@[k] as int),
    ensures
        visited@.len() == commits@.len(),
        forall|i: int|
            0 <= i < visited@.len() && #[trigger] visited@[i] ==> reachable_from(
                commits.deep_view(),
                idx_set(init@),
                avoid_set(avoid),
                i,
            ),
        ids_unique(commits.deep_view()) ==> forall|i: int|
            0 <= i < visited@.len() && reachable_from(
                commits.deep_view(),
                idx_set(init@),
                avoid_set(avoid),
                i,
            ) ==> visited@[i],
{
    let ghost cs = commits.deep_view();
    let ghost iset = idx_set(init@);
    let ghost aset = avoid_set(avoid);
    let n = commits.len();
    let mut visited: Vec<bool> = Vec::new();
    let mut t: usize = 0;
    while t < n
        invariant
            t <= n,
            visited@.len() == t,
            forall|i: int| 0 <= i < t ==> !(#[trigger] visited@[i]),
        decreases n - t,
    {
        visited.push(false);
        t = t + 1;
    }
    let mut stack = init;
    proof {
        assert forall|k: int| 0 <= k < stack@.len() implies reachable_from(
            cs,
            iset,
            aset,
            stack@[k] as int,
        ) by {
            let p = seq![stack@[k] as int];
            assert(p[0] == stack@[k] as int && p.last() == stack@[k] as int);
            assert(stack@.contains(stack@[k]));
            assert(valid_path(cs, p, aset));
        }
    }
    while stack.len() > 0
        invariant
            cs == commits.deep_view(),
            id_map_wf(id_map_contents(*idmap), cs),
            n == commits@.len(),
            cs.len() == n,
            visited@.len() == n,
            iset == idx_set(init@),
            aset == avoid_set(avoid),
            forall|k: int|
                0 <= k < init@.len() ==> (#[trigger] init@[k]) < n,
            forall|k: int|
                0 <= k < stack@.len() ==> (#[trigger] stack@[k]) < n && !aset.contains(
                    stack@[k] as int,
                ) && reachable_from(cs, iset, aset, stack@[k] as int),
            forall|i: int|
                0 <= i < n && #[trigger] visited@[i] ==> reachable_from(cs, iset, aset, i),
            ids_unique(cs) ==> forall|k: int|
                0 <= k < init@.len() ==> visited@[init@[k] as int] || stack@.contains(
                    #[trigger] init@[k],
                ),
            ids_unique(cs) ==> forall|i: int, j: int|
                0 <= i < n && visited@[i] && edge(cs, i, j) && !aset.contains(j)
                    ==> visited@[j] || stack@.contains(j as usize),
        decreases count_false(visited@), stack@.len(),
    {
        let ghost visited0 = visited@;
        let ghost stack0 = stack@;
        let i = stack.pop().unwrap();
        proof {
            assert(stack0[stack0.len() - 1] == i);
            assert(stack0.contains(i));
            assert forall|x: usize| stack@.contains(x) implies stack0.contains(x) by {
                let k = choose|k: int| 0 <= k < stack@.len() && stack@[k] == x;
                assert(stack0[k] == x);
            }
        }
        if !visited[i] {
            visited.set(i, true);
            proof {
                lemma_count_false_update(visited0, i as int);
                if ids_unique(cs) {
                    assert forall|m: int|
                        0 <= m < init@.len() implies visited@[init@[m] as int] || stack@.contains(
                            #[trigger] init@[m],
                        ) by {
                        if !visited@[init@[m] as int] {
                            assert(init@[m] as int != i as int);
                            assert(!visited0[init@[m] as int]);
                            let m2 = choose|m2: int|
                                0 <= m2 < stack0.len() && stack0[m2] == init@[m];
                            if m2 < stack0.len() - 1 {
                                assert(stack@[m2] == init@[m]);
                            }
                        }
                    }
                    assert forall|x: int, j: int|
                        0 <= x < n && x != i as int && visited@[x] && edge(cs, x, j)
                            && !aset.contains(j) implies visited@[j] || stack@.contains(j as usize)
                        by {
                        assert(visited0[x]);
                        assert(visited0[j] || stack0.contains(j as usize));
                        if !visited@[j] {
                            assert(j != i as int);
                            let m = choose|m: int|
                                0 <= m < stack0.len() && stack0[m] == j as usize;
                            if m < stack0.len() - 1 {
                                assert(stack@[m] == j as usize);
                            }
                        }
                    }
                }
            }
            let num_parents = commits[i].parent_ids.len();
            let mut k: usize = 0;
            while k < num_parents
                invariant
                    cs == commits.deep_view(),
                    id_map_wf(id_map_contents(*idmap), cs),
                    n == commits@.len(),
                    cs.len() == n,
                    visited@.len() == n,
                    iset == idx_set(init@),
                    aset == avoid_set(avoid),
                    forall|m: int| 0 <= m < init@.len() ==> (#[trigger] init@[m]) < n,
                    i < n,
                    visited@[i as int],
                    visited@ == visited0.update(i as int, true),
                    num_parents == cs[i as int].parent_ids.len(),
                    k <= num_parents,
                    reachable_from(cs, iset, aset, i as int),
                    forall|m: int|
                        0 <= m < stack@.len() ==> (#[trigger] stack@[m]) < n && !aset.contains(
                            stack@[m] as int,
                        ) && reachable_from(cs, iset, aset, stack@[m] as int),
                    forall|x: int|
                        0 <= x < n && #[trigger] visited@[x] ==> reachable_from(cs, iset, aset, x),
                    ids_unique(cs) ==> forall|m: int|
                        0 <= m < init@.len() ==> visited@[init@[m] as int] || stack@.contains(
                            #[trigger] init@[m],
                        ),
                    ids_unique(cs) ==> forall|x: int, j: int|
                        0 <= x < n && x != i && visited@[x] && edge(cs, x, j) && !aset.contains(j)
                            ==> visited@[j] || stack@.contains(j as usize),
                    ids_unique(cs) ==> forall|j: int, k2: int|
                        0 <= j < n && 0 <= k2 < k && cs[i as int].parent_ids[k2] == cs[j].id
                            && !aset.contains(j) ==> visited@[j] || stack@.contains(j as usize),
                decreases num_parents - k,
            {
                let ghost stack1 = stack@;
                let pid = &commits[i].parent_ids[k];
                proof {
                    assert(pid@ == cs[i as int].parent_ids[k as int]);
                }
                let looked = id_map_get(idmap, pid);
                match looked {
                    Some(j) => {
                        proof {
                            assert(id_map_contents(*idmap).contains_key(pid@));
                            assert(cs[j as int].id == pid@);
                            assert(cs[i as int].parent_ids.contains(cs[j as int].id));
                            assert(edge(cs, i as int, j as int));
                        }
                        let keep = match avoid {
                            Some(a) => j != a,
                            None => true,
                        };
                        if keep {
                            proof {
                                assert(!aset.contains(j as int));
                                lemma_reachable_step(cs, iset, aset, i as int, j as int);
                            }
                            stack.push(j);
                            proof {
                                assert forall|x: usize| stack1.contains(x) implies stack@.contains(
                                    x,
                                ) by {
                                    let m = choose|m: int|
                                        0 <= m < stack1.len() && stack1[m] == x;
                                    assert(stack@[m] == x);
                                }
                                assert(stack@[stack@.len() - 1] == j);
                                assert(stack@.contains(j));
                            }
                        } else {
                            proof {
                                assert(aset.contains(j as int));
                                if ids_unique(cs) {
                                    assert forall|j2: int|
                                        0 <= j2 < n && cs[i as int].parent_ids[k as int]
                                            == cs[j2].id implies j2 == j as int by {
                                        assert(cs[j2].id == cs[j as int].id);
                                    }
                                }
                            }
                        }
                    },
                    None => {
                        proof {
                            assert(!id_map_contents(*idmap).contains_key(pid@));
                            assert forall|j2: int|
                                0 <= j2 < n implies cs[i as int].parent_ids[k as int] != cs[j2].id
                                by {
                                if cs[i as int].parent_ids[k as int] == cs[j2].id {
                                    assert(id_map_contents(*idmap).contains_key(cs[j2].id));
                                }
                            }
                        }
                    },
                }
                proof {
                    if ids_unique(cs) {
                        assert forall|j2: int, k2: int|
                            0 <= j2 < n && 0 <= k2 < k + 1 && cs[i as int].parent_ids[k2]
                                == cs[j2].id && !aset.contains(j2) implies visited@[j2]
                            || stack@.contains(j2 as usize) by {
                            if k2 < k {
                                assert(visited@[j2] || stack1.contains(j2 as usize));
                                if stack1.contains(j2 as usize) {
                                    let m = choose|m: int|
                                        0 <= m < stack1.len() && stack1[m] == j2 as usize;
                                    assert(stack@[m] == j2 as usize);
                                }
                            } else {
                                match looked {
                                    Some(j) => {
                                        assert(cs[j2].id == cs[j as int].id);
                                        assert(j2 == j as int);
                                    },
                                    None => {
                                        assert(false);
                                    },
                                }
                            }
                        }
                    }
                }
                k = k + 1;
            }
            proof {
                if ids_unique(cs) {
                    assert forall|x: int, j: int|
                        0 <= x < n && visited@[x] && edge(cs, x, j) && !aset.contains(j) implies
                        visited@[j] || stack@.contains(j as usize) by {
                        if x == i as int {
                            let k2 = choose|k2: int|
                                0 <= k2 < cs[x].parent_ids.len() && cs[x].parent_ids[k2]
                                    == cs[j].id;
                            assert(visited@[j] || stack@.contains(j as usize));
                        }
                    }
                }
                assert(count_false(visited@) < count_false(visited0));
            }
        } else {
            proof {
                if ids_unique(cs) {
                    assert forall|x: int, j: int|
                        0 <= x < n && visited@[x] && edge(cs, x, j) && !aset.contains(j) implies
                        visited@[j] || stack@.contains(j as usize) by {
                        assert(visited0[x]);
                        assert(visited0[j] || stack0.contains(j as usize));
                        if !visited@[j] {
                            let m = choose|m: int|
                                0 <= m < stack0.len() && stack0[m] == j as usize;
                            if m < stack0.len() - 1 {
                                assert(stack@[m] == j as usize);
                            } else {
                                assert(j as usize == i);
                                assert(false);
                            }
                        }
                    }
                    assert forall|m: int|
                        0 <= m < init@.len() implies visited@[init@[m] as int] || stack@.contains(
                            #[trigger] init@[m],
                        ) by {
                        if !visited@[init@[m] as int] {
                            let m2 = choose|m2: int|
                                0 <= m2 < stack0.len() && stack0[m2] == init@[m];
                            if m2 < stack0.len() - 1 {
                                assert(stack@[m2] == init@[m]);
                            } else {
                                assert(init@[m] == i);
                                assert(false);
                            }
                        }
                    }
                }
            }
        }
    }
    proof {
        if ids_unique(cs) {
            assert forall|i: int|
                0 <= i < visited@.len() && reachable_from(cs, iset, aset, i) implies visited@[i]
                by {
                let p = choose|p: Seq<int>|
                    valid_path(cs, p, aset) && iset.contains(p[0]) && p.last() == i;
                assert(init@.contains(p[0] as usize));
                let m = choose|m: int| 0 <= m < init@.len() && init@[m] == p[0] as usize;
                assert(visited@[init@[m] as int]);
                lemma_closed_set_catches_path(cs, visited@, aset, p);
            }
        }
    }
    visited
}


/// The ancestor closure of the commit at position `c`: flags over the
/// commit list, one per position. Sound for any input; exactly the
/// closure when commit ids are unique.
pub fn find_commit_ancestors(commits: &Vec<Commit>, idmap: &CommitIdMap, c: usize) -> (anc: Vec<
    bool,
>)
    requires
        c < commits@.len(),
        id_map_wf(id_map_contents(*idmap), commits.deep_view()),
    ensures
        anc@.len() == commits@.len(),
        forall|i: int|
            0 <= i < anc@.len() && #[trigger] anc@[i] ==> is_ancestor(
                commits.deep_view(),
                c as int,
                i,
            ),
        ids_unique(commits.deep_view()) ==> forall|i: int|
            0 <= i < anc@.len() && is_ancestor(commits.deep_view(), c as int, i) ==> anc@[i],
{
    let ghost cs = commits.deep_view();
    let n = commits.len();
    let mut init: Vec<usize> = Vec::new();
    let num_parents = commits[c].parent_ids.len();
    let mut k: usize = 0;
    while k < num_parents
        invariant
            cs == commits.deep_view(),
            c < cs.len(),
            cs.len() == commits@.len(),
            id_map_wf(id_map_contents(*idmap), cs),
            num_parents == cs[c as int].parent_ids.len(),
            k <= num_parents,
            forall|m: int|
                0 <= m < init@.len() ==> (#[trigger] init@[m]) < commits@.len() && edge(
                    cs,
                    c as int,
                    init@[m] as int,
                ),
            ids_unique(cs) ==> forall|j: int, k2: int|
                0 <= j < cs.len() && 0 <= k2 < k && cs[c as int].parent_ids[k2] == cs[j].id
                    ==> init@.contains(j as usize),
        decreases num_parents - k,
    {
        let ghost init0 = init@;
        let pid = &commits[c].parent_ids[k];
        proof {
            assert(pid@ == cs[c as int].parent_ids[k as int]);
        }
        let looked = id_map_get(idmap, pid);
        match looked {
            Some(j) => {
                proof {
                    assert(cs[j as int].id == pid@);
                    assert(cs[c as int].parent_ids.contains(cs[j as int].id));
                    assert(edge(cs, c as int, j as int));
                }
                init.push(j);
                proof {
                    assert(init@[init@.len() - 1] == j);
                    assert(init@.contains(j));
                    assert forall|x: usize| init0.contains(x) implies init@.contains(x) by {
                        let m = choose|m: int| 0 <= m < init0.len() && init0[m] == x;
                        assert(init@[m] == x);
                    }
                }
            },
            None => {
                proof {
                    assert forall|j2: int| 0 <= j2 < cs.len() implies cs[c as int].parent_ids[k as int]
                        != cs[j2].id by {
                        if cs[c as int].parent_ids[k as int] == cs[j2].id {
                            assert(id_map_contents(*idmap).contains_key(cs[j2].id));
                        }
                    }
                }
            },
        }
        proof {
            if ids_unique(cs) {
                assert forall|j2: int, k2: int|
                    0 <= j2 < cs.len() && 0 <= k2 < k + 1 && cs[c as int].parent_ids[k2]
                        == cs[j2].id implies init@.contains(j2 as usize) by {
                    if k2 < k {
                        assert(init0.contains(j2 as usize));
                    } else {
                        match looked {
                            Some(j) => {
                                assert(cs[j2].id == cs[j as int].id);
                                assert(j2 == j as int);
                            },
                            None => {
                                assert(false);
                            },
                        }
                    }
                }
            }
        }
        k = k + 1;
    }
    let ghost init_fin = init@;
    let visited = walk_graph(commits, idmap, init, None);
    proof {
        assert(avoid_set(None) =~= Set::empty());
        assert forall|i: int| 0 <= i < visited@.len() && #[trigger] visited@[i] implies is_ancestor(
            cs,
            c as int,
            i,
        ) by {
            assert(reachable_from(cs, idx_set(init_fin), avoid_set(None), i));
            let p = choose|p: Seq<int>|
                valid_path(cs, p, avoid_set(None)) && idx_set(init_fin).contains(p[0]) && p.last()
                    == i;
            assert(init_fin.contains(p[0] as usize));
            let m = choose|m: int| 0 <= m < init_fin.len() && init_fin[m] == p[0] as usize;
            assert(edge(cs, c as int, init_fin[m] as int));
            assert(0 <= p[0] < n);
            assert(init_fin[m] as int == p[0]);
            assert(edge(cs, c as int, p[0]));
            assert(valid_path(cs, p, Set::empty()));
            assert(p.last() == i);
        }
        if ids_unique(cs) {
            assert forall|i: int|
                0 <= i < visited@.len() && is_ancestor(cs, c as int, i) implies visited@[i] by {
                let p = choose|p: Seq<int>|
                    valid_path(cs, p, Set::empty()) && edge(cs, c as int, p[0]) && p.last() == i;
                assert(cs[c as int].parent_ids.contains(cs[p[0]].id));
                let k2 = choose|k2: int|
                    0 <= k2 < cs[c as int].parent_ids.len() && cs[c as int].parent_ids[k2]
                        == cs[p[0]].id;
                assert(init_fin.contains(p[0] as usize));
                assert(idx_set(init_fin).contains(p[0]));
                assert(valid_path(cs, p, avoid_set(None)));
                assert(reachable_from(cs, idx_set(init_fin), avoid_set(None), i));
            }
        }
    }
    visited
}

/// The ids collected from the flagged positions, in commit-list order.
spec fn collect_ids(cs: Seq<CommitV>, vis: Seq<bool>, n: int) -> Seq<Seq<char>>
    decreases n,
{
    if n <= 0 {
        Seq::empty()
    } else {
        collect_ids(cs, vis, n - 1) + if vis[n - 1] {
            seq![cs[n - 1].id]
        } else {
            Seq::empty()
        }
    }
}

/// The ids between `from` and `to`, in commit-list order, up to position `n`.
pub open spec fn between_ids_upto(cs: Seq<CommitV>, from: int, to: int, n: int) -> Seq<Seq<char>>
    decreases n,
{
    if n <= 0 {
        Seq::empty()
    } else {
        between_ids_upto(cs, from, to, n - 1) + if in_between(cs, from, to, n - 1) {
            seq![cs[n - 1].id]
        } else {
            Seq::empty()
        }
    }
}

/// The ids of all commits lying between `from` and `to`, in commit-list
/// order: ids of commits reachable from `to` along parent edges without
/// touching `from`.
pub open spec fn between_ids(cs: Seq<CommitV>, from: int, to: int) -> Seq<Seq<char>> {
    between_ids_upto(cs, from, to, cs.len() as int)
}

proof fn lemma_collect_eq_between(cs: Seq<CommitV>, vis: Seq<bool>, from: int, to: int, n: int)
    requires
        0 <= n <= cs.len(),
        vis.len() == cs.len(),
        forall|i: int| 0 <= i < cs.len() ==> (#[trigger] vis[i] <==> in_between(cs, from, to, i)),
    ensures
        collect_ids(cs, vis, n) == between_ids_upto(cs, from, to, n),
    decreases n,
{
    if n > 0 {
        lemma_collect_eq_between(cs, vis, from, to, n - 1);
    }
}

/// The reverse graph walk behind a range query: all commits reachable from
/// `to_id` along parent edges, stopping at `from_id` and at parents outside
/// the loaded window. Yields nothing when either endpoint is absent from
/// the commit list; the fallback against the external tool covers that
/// case.
pub fn get_commit_ids_between_commits2(
    to_id: &String,
    from_id: &String,
    commits: &Vec<Commit>,
    idmap: &CommitIdMap,
) -> (r: Option<Vec<String>>)
    requires
        id_map_wf(id_map_contents(*idmap), commits.deep_view()),
    ensures
        r is Some <==> (has_id(commits.deep_view(), to_id@) && has_id(
            commits.deep_view(),
            from_id@,
        )),
        ids_unique(commits.deep_view()) ==> match r {
            Some(ids) => forall|fi: int, ti: int|
                0 <= fi < commits.deep_view().len() && 0 <= ti < commits.deep_view().len()
                    && commits.deep_view()[fi].id == from_id@ && commits.deep_view()[ti].id
                    == to_id@ ==> ids.deep_view() == between_ids(commits.deep_view(), fi, ti),
            None => true,
        },
{
    let ghost cs = commits.deep_view();
    let to_found = id_map_get(idmap, to_id);
    let from_found = id_map_get(idmap, from_id);
    proof {
        if to_found is Some {
            assert(cs[id_map_contents(*idmap)[to_id@]].id == to_id@);
        }
        if from_found is Some {
            assert(cs[id_map_contents(*idmap)[from_id@]].id == from_id@);
        }
        if has_id(cs, to_id@) {
            let i = choose|i: int| 0 <= i < cs.len() && cs[i].id == to_id@;
            assert(id_map_contents(*idmap).contains_key(cs[i].id));
        }
        if has_id(cs, from_id@) {
            let i = choose|i: int| 0 <= i < cs.len() && cs[i].id == from_id@;
            assert(id_map_contents(*idmap).contains_key(cs[i].id));
        }
    }
    let ti0: usize;
    let fi0: usize;
    match (to_found, from_found) {
        (Some(t), Some(f)) => {
            ti0 = t;
            fi0 = f;
        },
        _ => {
            return None;
        },
    }
    let mut init: Vec<usize> = Vec::new();
    if ti0 != fi0 {
        init.push(ti0);
    }
    let ghost init_fin = init@;
    let visited = walk_graph(commits, idmap, init, Some(fi0));
    let ghost aset = avoid_set(Some(fi0));
    proof {
        assert(aset =~= Set::empty().insert(fi0 as int));
    }
    let n = commits.len();
    let mut ids: Vec<String> = Vec::new();
    let mut i: usize = 0;
    while i < n
        invariant
            cs == commits.deep_view(),
            n == commits@.len(),
            cs.len() == n,
            visited@.len() == n,
            i <= n,
            ids.deep_view() == collect_ids(cs, visited@, i as int),
        decreases n - i,
    {
        let ghost ids0 = ids.deep_view();
        if visited[i] {
            let id = commits[i].id.clone();
            proof {
                assert(id@ == cs[i as int].id);
            }
            ids.push(id);
            proof {
                assert(ids.deep_view() =~= ids0 + seq![cs[i as int].id]);
            }
        } else {
            proof {
                assert(ids.deep_view() =~= ids0 + Seq::empty());
            }
        }
        i = i + 1;
    }
    proof {
        if ids_unique(cs) {
            assert forall|x: int|
                0 <= x < cs.len() implies (#[trigger] visited@[x] <==> in_between(
                cs,
                fi0 as int,
                ti0 as int,
                x,
            )) by {
                if visited@[x] {
                    let p = choose|p: Seq<int>|
                        valid_path(cs, p, avoid_set(Some(fi0))) && idx_set(init_fin).contains(
                            p[0],
                        ) && p.last() == x;
                    assert(init_fin.contains(p[0] as usize));
                    let m = choose|m: int| 0 <= m < init_fin.len() && init_fin[m] == p[0] as usize;
                    assert(init_fin[m] == ti0);
                    assert(p[0] == ti0 as int);
                    assert(valid_path(cs, p, Set::empty().insert(fi0 as int)));
                    assert(in_between(cs, fi0 as int, ti0 as int, x));
                }
                if in_between(cs, fi0 as int, ti0 as int, x) {
                    let p = choose|p: Seq<int>|
                        valid_path(cs, p, Set::empty().insert(fi0 as int)) && p[0] == ti0 as int
                            && p.last() == x;
                    assert(!Set::empty().insert(fi0 as int).contains(p[0]));
                    assert(ti0 != fi0);
                    assert(init_fin[0] == ti0);
                    assert(init_fin.contains(ti0));
                    assert(idx_set(init_fin).contains(p[0]));
                    assert(valid_path(cs, p, avoid_set(Some(fi0))));
                    assert(reachable_from(cs, idx_set(init_fin), avoid_set(Some(fi0)), x));
                }
            }
            assert forall|fi: int, ti: int|
                0 <= fi < cs.len() && 0 <= ti < cs.len() && cs[fi].id == from_id@ && cs[ti].id
                    == to_id@ implies ids.deep_view() == between_ids(cs, fi, ti) by {
                assert(cs[fi0 as int].id == from_id@);
                assert(cs[ti0 as int].id == to_id@);
                assert(fi == fi0 as int);
                assert(ti == ti0 as int);
                lemma_collect_eq_between(cs, visited@, fi, ti, cs.len() as int);
            }
        }
    }
    Some(ids)
}


} // verus!
