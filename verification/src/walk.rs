use crate::err::IngestError;
use crate::oid::Oid;
use crate::refdiff::RefDiff;
use crate::repo::{find_idx, CommitInfo, Repo};
use vstd::prelude::*;

verus! {

broadcast use {vstd::seq_lib::seq_to_set_is_finite, vstd::seq_lib::group_seq_properties};

/// Commit `c` names `p` among its parents.
pub open spec fn parent_edge(repo: Repo, c: Oid, p: Oid) -> bool {
    repo.has_commit(c) && repo.commit_of(c).parents@.contains(p)
}

/// Consecutive elements of `ch` are joined by parent edges.
pub open spec fn valid_chain(repo: Repo, ch: Seq<Oid>) -> bool {
    forall|i: int| 0 <= i < ch.len() - 1 ==> #[trigger] parent_edge(repo, ch[i], ch[i + 1])
}

/// `b` is `a` itself or an ancestor of `a`.
pub open spec fn reaches(repo: Repo, a: Oid, b: Oid) -> bool {
    exists|ch: Seq<Oid>| ch.len() >= 1 && ch[0] == a && ch.last() == b && valid_chain(repo, ch)
}

/// `c` is reachable from some element of `seeds`.
pub open spec fn reaches_any(repo: Repo, seeds: Seq<Oid>, c: Oid) -> bool {
    exists|i: int| 0 <= i < seeds.len() && reaches(repo, seeds[i], c)
}

proof fn lemma_reaches_self(repo: Repo, a: Oid)
    ensures
        reaches(repo, a, a),
{
    let ch = seq![a];
    assert(ch.len() >= 1 && ch[0] == a && ch.last() == a && valid_chain(repo, ch));
}

proof fn lemma_reaches_step(repo: Repo, a: Oid, b: Oid, p: Oid)
    requires
        reaches(repo, a, b),
        parent_edge(repo, b, p),
    ensures
        reaches(repo, a, p),
{
    let ch = choose|ch: Seq<Oid>|
        ch.len() >= 1 && ch[0] == a && ch.last() == b && valid_chain(repo, ch);
    let ch2 = ch.push(p);
    assert forall|i: int| 0 <= i < ch2.len() - 1 implies #[trigger] parent_edge(repo, ch2[i], ch2[i + 1]) by {
        if i < ch.len() - 1 {
            assert(ch2[i] == ch[i] && ch2[i + 1] == ch[i + 1]);
        } else {
            assert(ch2[i] == ch.last() && ch2[i + 1] == p);
        }
    }
    assert(ch2.len() >= 1 && ch2[0] == a && ch2.last() == p && valid_chain(repo, ch2));
}

/// A set that holds the head of a chain and is closed under parent edges
/// holds the whole chain.
proof fn lemma_chain_in_closed_set(repo: Repo, s: Set<Oid>, ch: Seq<Oid>)
    requires
        valid_chain(repo, ch),
        ch.len() >= 1,
        s.contains(ch[0]),
        forall|v: Oid, p: Oid| s.contains(v) && #[trigger] parent_edge(repo, v, p) ==> s.contains(p),
    ensures
        s.contains(ch.last()),
    decreases ch.len(),
{
    if ch.len() > 1 {
        let i0: int = 0;
        assert(parent_edge(repo, ch[i0], ch[i0 + 1]));
        let ch2 = ch.drop_first();
        assert forall|i: int| 0 <= i < ch2.len() - 1 implies #[trigger] parent_edge(repo, ch2[i], ch2[i + 1]) by {
            assert(ch2[i] == ch[i + 1] && ch2[i + 1] == ch[i + 2]);
        }
        assert(s.contains(ch2[0]));
        lemma_chain_in_closed_set(repo, s, ch2);
        assert(ch2.last() == ch.last());
    }
}

/// A duplicate-free list of commits of the snapshot is no longer than the
/// snapshot's commit list.
proof fn lemma_distinct_commits_bounded(repo: Repo, vs: Seq<Oid>)
    requires
        vs.no_duplicates(),
        forall|k: int| 0 <= k < vs.len() ==> repo.has_commit(#[trigger] vs[k]),
    ensures
        vs.len() <= repo.commits@.len(),
{
    let keys = repo.commits@.map_values(|p: (Oid, CommitInfo)| p.0);
    vs.unique_seq_to_set();
    keys.lemma_cardinality_of_set();
    assert forall|x: Oid| vs.to_set().contains(x) implies keys.to_set().contains(x) by {
        assert(vs.contains(x));
        assert(repo.has_commit(x));
        let i = choose|i: int| 0 <= i < repo.commits@.len() && repo.commits@[i].0 == x;
        assert(keys[i] == x);
        assert(keys.contains(x));
    }
    vstd::set_lib::lemma_len_subset(vs.to_set(), keys.to_set());
}

/// Commit `c` keeps a parent inside the set `s`.
pub open spec fn keeps_parent_in(repo: Repo, s: Seq<Oid>, c: Oid) -> bool {
    exists|p: Oid| #[trigger] parent_edge(repo, c, p) && s.contains(p)
}

/// A non-empty set of commits each of which keeps a parent inside the set.
/// No order can list such commits parents-first, and only a cyclic graph
/// has such a set.
pub open spec fn stalled(repo: Repo, s: Seq<Oid>) -> bool {
    s.len() > 0 && forall|k: int| 0 <= k < s.len() ==> keeps_parent_in(repo, s, #[trigger] s[k])
}

/// Some chain of parent edges, at least one edge long, leads from a commit
/// back to itself.
pub open spec fn has_cycle(repo: Repo) -> bool {
    exists|ch: Seq<Oid>| ch.len() >= 2 && ch[0] == ch.last() && valid_chain(repo, ch)
}

/// A chain of the asked-for length that starts in the stalled set and
/// never leaves it.
proof fn extend_chain_in_stalled(repo: Repo, s: Seq<Oid>, n: nat) -> (ch: Seq<Oid>)
    requires
        stalled(repo, s),
    ensures
        ch.len() == n + 1,
        valid_chain(repo, ch),
        forall|k: int| 0 <= k < ch.len() ==> s.contains(#[trigger] ch[k]),
    decreases n,
{
    if n == 0 {
        let ch = seq![s[0]];
        assert(s.contains(ch[0]));
        ch
    } else {
        let ch = extend_chain_in_stalled(repo, s, (n - 1) as nat);
        let v = ch.last();
        assert(s.contains(v));
        let k = choose|k: int| 0 <= k < s.len() && s[k] == v;
        assert(keeps_parent_in(repo, s, s[k]));
        let p = choose|p: Oid| #[trigger] parent_edge(repo, v, p) && s.contains(p);
        let ch2 = ch.push(p);
        assert forall|i: int| 0 <= i < ch2.len() - 1 implies #[trigger] parent_edge(
            repo,
            ch2[i],
            ch2[i + 1],
        ) by {
            if i < ch.len() - 1 {
                assert(ch2[i] == ch[i] && ch2[i + 1] == ch[i + 1]);
            } else {
                assert(ch2[i] == v && ch2[i + 1] == p);
            }
        }
        assert forall|k2: int| 0 <= k2 < ch2.len() implies s.contains(#[trigger] ch2[k2]) by {
            if k2 < ch.len() {
                assert(ch2[k2] == ch[k2]);
            } else {
                assert(ch2[k2] == p);
            }
        }
        ch2
    }
}

/// Only a cyclic graph has a stalled set: driving a chain forward inside
/// the set must eventually revisit a commit.
pub proof fn lemma_stalled_implies_cycle(repo: Repo, s: Seq<Oid>)
    requires
        stalled(repo, s),
    ensures
        has_cycle(repo),
{
    let card = s.to_set().len();
    let ch = extend_chain_in_stalled(repo, s, card + 1);
    assert(!ch.no_duplicates()) by {
        if ch.no_duplicates() {
            ch.unique_seq_to_set();
            assert forall|x: Oid| ch.to_set().contains(x) implies s.to_set().contains(x) by {
                assert(ch.contains(x));
                let k = choose|k: int| 0 <= k < ch.len() && ch[k] == x;
                assert(s.contains(ch[k]));
            }
            vstd::set_lib::lemma_len_subset(ch.to_set(), s.to_set());
            assert(false);
        }
    }
    let (a, b) = choose|a: int, b: int|
        0 <= a < ch.len() && 0 <= b < ch.len() && a != b && ch[a] == ch[b];
    let i = if a < b {
        a
    } else {
        b
    };
    let j = if a < b {
        b
    } else {
        a
    };
    let cyc = ch.subrange(i, j + 1);
    assert(cyc.len() >= 2);
    assert(cyc[0] == ch[i] && cyc.last() == ch[j]);
    assert forall|k: int| 0 <= k < cyc.len() - 1 implies #[trigger] parent_edge(
        repo,
        cyc[k],
        cyc[k + 1],
    ) by {
        assert(cyc[k] == ch[i + k] && cyc[k + 1] == ch[i + k + 1]);
        let w: int = i + k;
        assert(parent_edge(repo, ch[w], ch[w + 1]));
    }
    assert(cyc.len() >= 2 && cyc[0] == cyc.last() && valid_chain(repo, cyc));
}

/// Removing index `i` by swapping in the last element keeps the elements
/// other than `s[i]`, each once.
proof fn lemma_swap_remove_facts(s: Seq<Oid>, i: int)
    requires
        0 <= i < s.len(),
        s.no_duplicates(),
    ensures
        ({
            let r = s.update(i, s[s.len() - 1]).drop_last();
            &&& r.no_duplicates()
            &&& forall|x: Oid| #[trigger] r.contains(x) <==> (s.contains(x) && x != s[i])
        }),
{
    let n = s.len() as int;
    let r = s.update(i, s[n - 1]).drop_last();
    assert forall|a: int, b: int| 0 <= a < b < r.len() implies r[a] != r[b] by {
        if a == i {
            assert(r[a] == s[n - 1] && r[b] == s[b]);
        } else if b == i {
            assert(r[b] == s[n - 1] && r[a] == s[a]);
        }
    }
    assert forall|x: Oid| #[trigger] r.contains(x) implies s.contains(x) && x != s[i] by {
        let k = choose|k: int| 0 <= k < r.len() && r[k] == x;
        if k == i {
            assert(s[n - 1] == x);
            assert(s.contains(x));
        } else {
            assert(s[k] == x);
            assert(s.contains(x));
        }
    }
    assert forall|x: Oid| s.contains(x) && x != s[i] implies #[trigger] r.contains(x) by {
        let k = choose|k: int| 0 <= k < s.len() && s[k] == x;
        assert(k != i);
        if k == n - 1 {
            assert(i < n - 1);
            assert(r[i] == x);
        } else {
            assert(r[k] == x);
        }
    }
}

/// Whether `x` occurs in `v`.
pub fn oid_in(v: &Vec<Oid>, x: Oid) -> (r: bool)
    ensures
        r == v@.contains(x),
{
    let mut i: usize = 0;
    while i < v.len()
        invariant
            i <= v.len(),
            forall|j: int| 0 <= j < i ==> v@[j] != x,
        decreases v.len() - i,
    {
        if v[i] == x {
            return true;
        }
        i += 1;
    }
    false
}

/// Every commit reachable from `seeds`, each exactly once.
pub fn ancestors(repo: &Repo, seeds: &Vec<Oid>) -> (r: Vec<Oid>)
    requires
        repo.wf(),
        forall|k: int| 0 <= k < seeds@.len() ==> repo.has_commit(#[trigger] seeds@[k]),
    ensures
        r@.no_duplicates(),
        forall|c: Oid| #[trigger] r@.contains(c) ==> repo.has_commit(c) && reaches_any(
            *repo,
            seeds@,
            c,
        ),
        forall|c: Oid| #[trigger] reaches_any(*repo, seeds@, c) ==> r@.contains(c),
{
    let mut visited: Vec<Oid> = Vec::new();
    let mut work: Vec<Oid> = Vec::new();
    let mut s: usize = 0;
    while s < seeds.len()
        invariant
            repo.wf(),
            forall|k: int| 0 <= k < seeds@.len() ==> repo.has_commit(#[trigger] seeds@[k]),
            s <= seeds@.len(),
            visited@.no_duplicates(),
            work@.no_duplicates(),
            forall|x: Oid| #[trigger] work@.contains(x) ==> visited@.contains(x),
            forall|x: Oid| #[trigger] visited@.contains(x) ==> repo.has_commit(x) && reaches_any(
                *repo,
                seeds@,
                x,
            ),
            forall|k: int| 0 <= k < s ==> visited@.contains(#[trigger] seeds@[k]),
            forall|x: Oid, p: Oid|
                visited@.contains(x) && !work@.contains(x) && #[trigger] parent_edge(*repo, x, p)
                    ==> visited@.contains(p),
        decreases seeds@.len() - s,
    {
        let sd = seeds[s];
        if !oid_in(&visited, sd) {
            proof {
                lemma_reaches_self(*repo, sd);
                assert(reaches_any(*repo, seeds@, sd));
                assert(!work@.contains(sd));
                assert(visited@.push(sd).no_duplicates());
                assert(work@.push(sd).no_duplicates());
            }
            visited.push(sd);
            work.push(sd);
        }
        s += 1;
    }
    proof {
        assert forall|k: int| 0 <= k < visited@.len() implies repo.has_commit(
            #[trigger] visited@[k],
        ) by {
            assert(visited@.contains(visited@[k]));
        }
        lemma_distinct_commits_bounded(*repo, visited@);
    }
    while work.len() > 0
        invariant
            repo.wf(),
            forall|k: int| 0 <= k < seeds@.len() ==> repo.has_commit(#[trigger] seeds@[k]),
            visited@.no_duplicates(),
            work@.no_duplicates(),
            visited@.len() <= repo.commits@.len(),
            forall|x: Oid| #[trigger] work@.contains(x) ==> visited@.contains(x),
            forall|x: Oid| #[trigger] visited@.contains(x) ==> repo.has_commit(x) && reaches_any(
                *repo,
                seeds@,
                x,
            ),
            forall|k: int| 0 <= k < seeds@.len() ==> visited@.contains(#[trigger] seeds@[k]),
            forall|x: Oid, p: Oid|
                visited@.contains(x) && !work@.contains(x) && #[trigger] parent_edge(*repo, x, p)
                    ==> visited@.contains(p),
        decreases repo.commits@.len() - visited@.len(), work@.len(),
    {
        let ghost pre_vis = visited@;
        let ghost pre_work = work@;
        let ghost pre_work_len = work@.len();
        let v = match work.pop() {
            Some(v) => v,
            None => {
                proof {
                    assert(false);
                }
                Oid::zero()
            },
        };
        proof {
            assert(pre_work =~= work@.push(v));
            assert(!work@.contains(v)) by {
                if work@.contains(v) {
                    let k = choose|k: int| 0 <= k < work@.len() && work@[k] == v;
                    assert(pre_work[k] == v);
                    assert(pre_work[pre_work.len() - 1] == v);
                    assert(false);
                }
            }
            assert(visited@.contains(v)) by {
                assert(pre_work.contains(v));
            }
            assert forall|x: Oid| #[trigger] work@.contains(x) implies visited@.contains(x) by {
                let k = choose|k: int| 0 <= k < work@.len() && work@[k] == x;
                assert(pre_work[k] == x);
                assert(pre_work.contains(x));
            }
            assert forall|x: Oid, p: Oid|
                visited@.contains(x) && !work@.contains(x) && x != v && #[trigger] parent_edge(
                    *repo,
                    x,
                    p,
                ) implies visited@.contains(p) by {
                assert(!pre_work.contains(x)) by {
                    if pre_work.contains(x) {
                        let k = choose|k: int| 0 <= k < pre_work.len() && pre_work[k] == x;
                        if k < pre_work.len() - 1 {
                            assert(work@[k] == x);
                            assert(false);
                        } else {
                            assert(x == v);
                            assert(false);
                        }
                    }
                }
            }
        }
        let ci = match find_idx(&repo.commits, v) {
            Some(ci) => ci,
            None => {
                proof {
                    assert(repo.has_commit(v));
                    assert(false);
                }
                0
            },
        };
        let mut j: usize = 0;
        while j < repo.commits[ci].1.parents.len()
            invariant
                repo.wf(),
                forall|k: int| 0 <= k < seeds@.len() ==> repo.has_commit(#[trigger] seeds@[k]),
                ci < repo.commits@.len(),
                repo.commits@[ci as int].0 == v,
                j <= repo.commits@[ci as int].1.parents@.len(),
                visited@.no_duplicates(),
                work@.no_duplicates(),
                visited@.len() <= repo.commits@.len(),
                visited@.contains(v),
                !work@.contains(v),
                visited@.len() >= pre_vis.len(),
                visited@.len() == pre_vis.len() ==> visited@ == pre_vis && work@.len()
                    == pre_work_len - 1,
                forall|x: Oid| #[trigger] work@.contains(x) ==> visited@.contains(x),
                forall|x: Oid| #[trigger] visited@.contains(x) ==> repo.has_commit(x)
                    && reaches_any(*repo, seeds@, x),
                forall|k: int| 0 <= k < seeds@.len() ==> visited@.contains(#[trigger] seeds@[k]),
                forall|b: int|
                    0 <= b < j ==> visited@.contains(
                        #[trigger] repo.commits@[ci as int].1.parents@[b],
                    ),
                forall|x: Oid, p: Oid|
                    visited@.contains(x) && !work@.contains(x) && x != v && #[trigger] parent_edge(
                        *repo,
                        x,
                        p,
                    ) ==> visited@.contains(p),
            decreases repo.commits@[ci as int].1.parents@.len() - j,
        {
            let p = repo.commits[ci].1.parents[j];
            proof {
                assert(repo.commit_of(v) == repo.commits@[ci as int].1) by {
                    let k = choose|k: int|
                        0 <= k < repo.commits@.len() && repo.commits@[k].0 == v;
                    assert(k == ci as int);
                }
                assert(repo.commit_of(v).parents@.contains(p));
                assert(parent_edge(*repo, v, p));
                // parents of a commit of a closed snapshot are commits
                assert(repo.has_commit(p));
            }
            if !oid_in(&visited, p) {
                proof {
                    let si = choose|i: int|
                        0 <= i < seeds@.len() && reaches(*repo, seeds@[i], v);
                    lemma_reaches_step(*repo, seeds@[si], v, p);
                    assert(reaches_any(*repo, seeds@, p));
                    assert(!work@.contains(p));
                    assert(visited@.push(p).no_duplicates());
                    assert(work@.push(p).no_duplicates());
                }
                visited.push(p);
                work.push(p);
                proof {
                    assert forall|k: int|
                        0 <= k < visited@.len() implies repo.has_commit(
                        #[trigger] visited@[k],
                    ) by {
                        assert(visited@.contains(visited@[k]));
                    }
                    lemma_distinct_commits_bounded(*repo, visited@);
                }
            }
            j += 1;
        }
        proof {
            assert(repo.commit_of(v) == repo.commits@[ci as int].1) by {
                let k = choose|k: int| 0 <= k < repo.commits@.len() && repo.commits@[k].0 == v;
                assert(k == ci as int);
            }
            assert forall|x: Oid, p: Oid|
                visited@.contains(x) && !work@.contains(x) && #[trigger] parent_edge(*repo, x, p)
                    implies visited@.contains(p) by {
                if x == v {
                    assert(repo.commit_of(v).parents@.contains(p));
                    let pj = choose|pj: int|
                        0 <= pj < repo.commits@[ci as int].1.parents@.len()
                            && repo.commits@[ci as int].1.parents@[pj] == p;
                    assert(visited@.contains(repo.commits@[ci as int].1.parents@[pj]));
                }
            }
        }
    }
    proof {
        let s = Set::new(|x: Oid| visited@.contains(x));
        assert forall|c: Oid| #[trigger] reaches_any(*repo, seeds@, c) implies visited@.contains(
            c,
        ) by {
            let i = choose|i: int| 0 <= i < seeds@.len() && reaches(*repo, seeds@[i], c);
            let ch = choose|ch: Seq<Oid>|
                ch.len() >= 1 && ch[0] == seeds@[i] && ch.last() == c && valid_chain(*repo, ch);
            assert(s.contains(ch[0]));
            assert forall|v: Oid, p: Oid|
                s.contains(v) && #[trigger] parent_edge(*repo, v, p) implies s.contains(p) by {
                assert(visited@.contains(v));
            }
            lemma_chain_in_closed_set(*repo, s, ch);
        }
    }
    visited
}

/// Find a commit in `remaining` none of whose parents is in `remaining`.
fn pick_ready(repo: &Repo, remaining: &Vec<Oid>) -> (r: Option<usize>)
    requires
        repo.wf(),
        forall|k: int| 0 <= k < remaining@.len() ==> repo.has_commit(#[trigger] remaining@[k]),
    ensures
        r matches Some(i) ==> i < remaining@.len() && forall|p: Oid|
            #[trigger] parent_edge(*repo, remaining@[i as int], p) ==> !remaining@.contains(p),
        r is None ==> forall|k: int|
            0 <= k < remaining@.len() ==> keeps_parent_in(*repo, remaining@, #[trigger] remaining@[k]),
{
    let mut i: usize = 0;
    while i < remaining.len()
        invariant
            repo.wf(),
            forall|k: int| 0 <= k < remaining@.len() ==> repo.has_commit(#[trigger] remaining@[k]),
            i <= remaining@.len(),
            forall|k: int|
                0 <= k < i ==> keeps_parent_in(*repo, remaining@, #[trigger] remaining@[k]),
        decreases remaining@.len() - i,
    {
        let c = remaining[i];
        let ci = match find_idx(&repo.commits, c) {
            Some(ci) => ci,
            None => {
                proof {
                    assert(remaining@.contains(c));
                    assert(false);
                }
                0
            },
        };
        proof {
            assert(repo.commit_of(c) == repo.commits@[ci as int].1) by {
                let k = choose|k: int| 0 <= k < repo.commits@.len() && repo.commits@[k].0 == c;
                assert(k == ci as int);
            }
        }
        let mut j: usize = 0;
        let mut blocked = false;
        while j < repo.commits[ci].1.parents.len() && !blocked
            invariant
                repo.wf(),
                ci < repo.commits@.len(),
                i < remaining@.len(),
                remaining@[i as int] == c,
                repo.commits@[ci as int].0 == c,
                repo.commit_of(c) == repo.commits@[ci as int].1,
                j <= repo.commits@[ci as int].1.parents@.len(),
                !blocked ==> forall|b: int|
                    0 <= b < j ==> !remaining@.contains(
                        #[trigger] repo.commits@[ci as int].1.parents@[b],
                    ),
                blocked ==> keeps_parent_in(*repo, remaining@, c),
            decreases repo.commits@[ci as int].1.parents@.len() - j + if blocked {
                0int
            } else {
                1int
            },
        {
            if oid_in(remaining, repo.commits[ci].1.parents[j]) {
                blocked = true;
                proof {
                    assert(parent_edge(*repo, c, repo.commits@[ci as int].1.parents@[j as int]));
                }
            } else {
                j += 1;
            }
        }
        if !blocked {
            proof {
                assert forall|p: Oid| #[trigger] parent_edge(*repo, c, p) implies !remaining@.contains(
                    p,
                ) by {
                    assert(repo.commit_of(c).parents@.contains(p));
                    let b = choose|b: int|
                        0 <= b < repo.commits@[ci as int].1.parents@.len()
                            && repo.commits@[ci as int].1.parents@[b] == p;
                    assert(!remaining@.contains(repo.commits@[ci as int].1.parents@[b]));
                }
            }
            return Some(i);
        }
        i += 1;
    }
    None
}

/// The commits to ingest, parents before children.  The result holds
/// exactly the elements of `nodes`; it is an error if no such order
/// exists, which only a cyclic graph can bring about.
pub fn topo_order(repo: &Repo, nodes: &Vec<Oid>) -> (r: Result<Vec<Oid>, IngestError>)
    requires
        repo.wf(),
        nodes@.no_duplicates(),
        forall|k: int| 0 <= k < nodes@.len() ==> repo.has_commit(#[trigger] nodes@[k]),
    ensures
        r matches Ok(out) ==> {
            &&& out@.no_duplicates()
            &&& forall|c: Oid| #[trigger] out@.contains(c) <==> nodes@.contains(c)
            &&& forall|k: int, p: Oid|
                0 <= k < out@.len() && #[trigger] parent_edge(*repo, out@[k], p)
                    && nodes@.contains(p) ==> exists|l: int| 0 <= l < k && out@[l] == p
        },
        r matches Err(e) ==> e == IngestError::CycleDetected && exists|s: Seq<Oid>|
            #[trigger] stalled(*repo, s) && (forall|k: int|
                0 <= k < s.len() ==> nodes@.contains(#[trigger] s[k])),
{
    let mut remaining = copy_oids(nodes);
    let mut out: Vec<Oid> = Vec::new();
    while remaining.len() > 0
        invariant
            repo.wf(),
            nodes@.no_duplicates(),
            forall|k: int| 0 <= k < nodes@.len() ==> repo.has_commit(#[trigger] nodes@[k]),
            out@.no_duplicates(),
            remaining@.no_duplicates(),
            forall|x: Oid| #[trigger] out@.contains(x) ==> nodes@.contains(x) && !remaining@.contains(
                x,
            ),
            forall|x: Oid| #[trigger] remaining@.contains(x) ==> nodes@.contains(x),
            forall|x: Oid| #[trigger] nodes@.contains(x) ==> out@.contains(x) || remaining@.contains(
                x,
            ),
            forall|k: int, p: Oid|
                0 <= k < out@.len() && #[trigger] parent_edge(*repo, out@[k], p)
                    && nodes@.contains(p) ==> exists|l: int| 0 <= l < k && out@[l] == p,
        decreases remaining@.len(),
    {
        proof {
            assert forall|k: int| 0 <= k < remaining@.len() implies repo.has_commit(
                #[trigger] remaining@[k],
            ) by {
                assert(remaining@.contains(remaining@[k]));
            }
        }
        let i = match pick_ready(repo, &remaining) {
            Some(i) => i,
            None => {
                proof {
                    assert forall|k: int| 0 <= k < remaining@.len() implies nodes@.contains(
                        #[trigger] remaining@[k],
                    ) by {
                        assert(remaining@.contains(remaining@[k]));
                    }
                    assert(stalled(*repo, remaining@));
                }
                return Err(IngestError::CycleDetected);
            },
        };
        let ghost pre_rem = remaining@;
        let n = remaining.swap_remove(i);
        proof {
            lemma_swap_remove_facts(pre_rem, i as int);
            assert(!out@.contains(n));
            assert(out@.push(n).no_duplicates());
        }
        let ghost pre_out = out@;
        out.push(n);
        proof {
            assert forall|x: Oid| #[trigger] out@.contains(x) implies nodes@.contains(x)
                && !remaining@.contains(x) by {
                if pre_out.contains(x) {
                    assert(!pre_rem.contains(x));
                    assert(!remaining@.contains(x));
                } else {
                    assert(x == n);
                    assert(pre_rem.contains(n));
                    assert(!remaining@.contains(n));
                }
            }
            assert forall|k: int, p: Oid|
                0 <= k < out@.len() && #[trigger] parent_edge(*repo, out@[k], p)
                    && nodes@.contains(p) implies exists|l: int| 0 <= l < k && out@[l] == p by {
                if k < pre_out.len() {
                    assert(pre_out[k] == out@[k]);
                    assert(parent_edge(*repo, pre_out[k], p));
                    let l = choose|l: int| 0 <= l < k && pre_out[l] == p;
                    assert(out@[l] == p);
                } else {
                    assert(out@[k] == n);
                    assert(n == pre_rem[i as int]);
                    assert(parent_edge(*repo, pre_rem[i as int], p));
                    assert(!pre_rem.contains(p));
                    assert(pre_out.contains(p));
                    let l = choose|l: int| 0 <= l < pre_out.len() && pre_out[l] == p;
                    assert(out@[l] == p);
                }
            }
        }
    }
    proof {
        assert forall|c: Oid| #[trigger] nodes@.contains(c) implies out@.contains(c) by {}
    }
    Ok(out)
}

/// `t` is the live target of some diffed reference.
pub open spec fn is_new_target(diffs: Seq<RefDiff>, t: Oid) -> bool {
    exists|i: int| 0 <= i < diffs.len() && (#[trigger] diffs[i]).new_target == Some(t)
}

/// `t` is the recorded old target of some diffed reference.
pub open spec fn is_old_target(diffs: Seq<RefDiff>, t: Oid) -> bool {
    exists|i: int| 0 <= i < diffs.len() && (#[trigger] diffs[i]).old_target == Some(t)
}

/// `c` is reachable from some diffed reference's live target.
pub open spec fn new_reach(repo: Repo, diffs: Seq<RefDiff>, c: Oid) -> bool {
    exists|t: Oid| #[trigger] is_new_target(diffs, t) && reaches(repo, t, c)
}

/// `c` is reachable from some diffed reference's recorded old target.
pub open spec fn old_reach(repo: Repo, diffs: Seq<RefDiff>, c: Oid) -> bool {
    exists|t: Oid| #[trigger] is_old_target(diffs, t) && reaches(repo, t, c)
}

/// The commits to ingest for a reference diff: every commit reachable from
/// a live target and not reachable from any recorded old target, each
/// once, parents before children.
pub fn walk_commits(repo: &Repo, diffs: &Vec<RefDiff>) -> (r: Result<Vec<Oid>, IngestError>)
    requires
        repo.wf(),
    ensures
        r matches Ok(out) ==> {
            &&& out@.no_duplicates()
            &&& forall|c: Oid| #[trigger] out@.contains(c) <==> (new_reach(*repo, diffs@, c)
                && !old_reach(*repo, diffs@, c))
            &&& forall|c: Oid| #[trigger] out@.contains(c) ==> repo.has_commit(c)
            &&& forall|k: int, p: Oid|
                0 <= k < out@.len() && #[trigger] parent_edge(*repo, out@[k], p) && out@.contains(p)
                    ==> exists|l: int| 0 <= l < k && out@[l] == p
        },
        r matches Err(e) ==> {
            ||| {
                &&& e matches IngestError::MissingObject(o)
                &&& (is_new_target(diffs@, o) || is_old_target(diffs@, o))
                &&& !repo.has_commit(o)
            }
            ||| {
                &&& e == IngestError::CycleDetected
                &&& has_cycle(*repo)
                &&& exists|s: Seq<Oid>|
                    #[trigger] stalled(*repo, s) && (forall|k: int|
                        0 <= k < s.len() ==> new_reach(*repo, diffs@, #[trigger] s[k]))
            }
        },
{
    let mut new_seeds: Vec<Oid> = Vec::new();
    let mut old_seeds: Vec<Oid> = Vec::new();
    let mut i: usize = 0;
    while i < diffs.len()
        invariant
            repo.wf(),
            i <= diffs@.len(),
            forall|k: int| 0 <= k < new_seeds@.len() ==> is_new_target(diffs@, #[trigger] new_seeds@[k])
                && repo.has_commit(new_seeds@[k]),
            forall|k: int| 0 <= k < old_seeds@.len() ==> is_old_target(diffs@, #[trigger] old_seeds@[k])
                && repo.has_commit(old_seeds@[k]),
            forall|d: int, t: Oid| #![trigger diffs@[d].new_target, new_seeds@.contains(t)]
                0 <= d < i && diffs@[d].new_target == Some(t) ==> new_seeds@.contains(t),
            forall|d: int, t: Oid| #![trigger diffs@[d].old_target, old_seeds@.contains(t)]
                0 <= d < i && diffs@[d].old_target == Some(t) ==> old_seeds@.contains(t),
        decreases diffs@.len() - i,
    {
        match diffs[i].new_target {
            Some(t) => {
                match find_idx(&repo.commits, t) {
                    Some(_) => {},
                    None => {
                        return Err(IngestError::MissingObject(t));
                    },
                }
                new_seeds.push(t);
            },
            None => {},
        }
        match diffs[i].old_target {
            Some(t) => {
                match find_idx(&repo.commits, t) {
                    Some(_) => {},
                    None => {
                        return Err(IngestError::MissingObject(t));
                    },
                }
                old_seeds.push(t);
            },
            None => {},
        }
        i += 1;
    }
    proof {
        assert forall|k: int| 0 <= k < new_seeds@.len() implies repo.has_commit(
            #[trigger] new_seeds@[k],
        ) by {}
        assert forall|k: int| 0 <= k < old_seeds@.len() implies repo.has_commit(
            #[trigger] old_seeds@[k],
        ) by {}
    }
    let incl = ancestors(repo, &new_seeds);
    let excl = ancestors(repo, &old_seeds);
    proof {
        assert forall|c: Oid| #[trigger] reaches_any(*repo, new_seeds@, c) <==> new_reach(
            *repo,
            diffs@,
            c,
        ) by {
            if reaches_any(*repo, new_seeds@, c) {
                let k = choose|k: int| 0 <= k < new_seeds@.len() && reaches(*repo, new_seeds@[k], c);
                assert(is_new_target(diffs@, new_seeds@[k]));
            }
            if new_reach(*repo, diffs@, c) {
                let t = choose|t: Oid| #[trigger] is_new_target(diffs@, t) && reaches(*repo, t, c);
                let d = choose|d: int| 0 <= d < diffs@.len() && diffs@[d].new_target == Some(t);
                assert(new_seeds@.contains(t));
                let k = choose|k: int| 0 <= k < new_seeds@.len() && new_seeds@[k] == t;
                assert(reaches(*repo, new_seeds@[k], c));
            }
        }
        assert forall|c: Oid| #[trigger] reaches_any(*repo, old_seeds@, c) <==> old_reach(
            *repo,
            diffs@,
            c,
        ) by {
            if reaches_any(*repo, old_seeds@, c) {
                let k = choose|k: int| 0 <= k < old_seeds@.len() && reaches(*repo, old_seeds@[k], c);
                assert(is_old_target(diffs@, old_seeds@[k]));
            }
            if old_reach(*repo, diffs@, c) {
                let t = choose|t: Oid| #[trigger] is_old_target(diffs@, t) && reaches(*repo, t, c);
                let d = choose|d: int| 0 <= d < diffs@.len() && diffs@[d].old_target == Some(t);
                assert(old_seeds@.contains(t));
                let k = choose|k: int| 0 <= k < old_seeds@.len() && old_seeds@[k] == t;
                assert(reaches(*repo, old_seeds@[k], c));
            }
        }
    }
    let mut nodes: Vec<Oid> = Vec::new();
    let mut k: usize = 0;
    while k < incl.len()
        invariant
            repo.wf(),
            k <= incl@.len(),
            incl@.no_duplicates(),
            forall|c: Oid| #[trigger] incl@.contains(c) ==> repo.has_commit(c),
            forall|x: Oid| #[trigger] nodes@.contains(x) ==> incl@.contains(x) && !excl@.contains(x),
            forall|x: Oid| #[trigger] nodes@.contains(x) ==> exists|b: int|
                0 <= b < k && incl@[b] == x,
            forall|b: int|
                0 <= b < k ==> excl@.contains(#[trigger] incl@[b]) || nodes@.contains(incl@[b]),
            nodes@.no_duplicates(),
        decreases incl@.len() - k,
    {
        let c = incl[k];
        if !oid_in(&excl, c) {
            proof {
                assert(!nodes@.contains(c)) by {
                    if nodes@.contains(c) {
                        let b = choose|b: int| 0 <= b < k && incl@[b] == c;
                        assert(incl@[b] == incl@[k as int]);
                        assert(false);
                    }
                }
                assert(nodes@.push(c).no_duplicates());
                assert(incl@.contains(c));
            }
            nodes.push(c);
        }
        k += 1;
    }
    proof {
        assert forall|b: int| 0 <= b < nodes@.len() implies repo.has_commit(
            #[trigger] nodes@[b],
        ) by {
            assert(nodes@.contains(nodes@[b]));
        }
    }
    let out = match topo_order(repo, &nodes) {
        Ok(out) => out,
        Err(e) => {
            proof {
                let s = choose|s: Seq<Oid>|
                    #[trigger] stalled(*repo, s) && (forall|k: int|
                        0 <= k < s.len() ==> nodes@.contains(#[trigger] s[k]));
                assert forall|k: int| 0 <= k < s.len() implies new_reach(
                    *repo,
                    diffs@,
                    #[trigger] s[k],
                ) by {
                    assert(nodes@.contains(s[k]));
                    assert(incl@.contains(s[k]));
                    assert(reaches_any(*repo, new_seeds@, s[k]));
                }
                assert(stalled(*repo, s) && (forall|k: int|
                    0 <= k < s.len() ==> new_reach(*repo, diffs@, #[trigger] s[k])));
                lemma_stalled_implies_cycle(*repo, s);
            }
            return Err(e);
        },
    };
    proof {
        assert forall|c: Oid| #[trigger] out@.contains(c) implies (new_reach(*repo, diffs@, c)
            && !old_reach(*repo, diffs@, c)) by {
            assert(nodes@.contains(c));
            assert(incl@.contains(c) && !excl@.contains(c));
            assert(reaches_any(*repo, new_seeds@, c));
            assert(!reaches_any(*repo, old_seeds@, c));
        }
        assert forall|c: Oid|
            new_reach(*repo, diffs@, c) && !old_reach(*repo, diffs@, c) implies #[trigger] out@.contains(
            c,
        ) by {
            assert(reaches_any(*repo, new_seeds@, c));
            assert(incl@.contains(c));
            assert(!excl@.contains(c)) by {
                if excl@.contains(c) {
                    assert(reaches_any(*repo, old_seeds@, c));
                }
            }
            let b = choose|b: int| 0 <= b < incl@.len() && incl@[b] == c;
            assert(excl@.contains(incl@[b]) || nodes@.contains(incl@[b]));
            assert(nodes@.contains(c));
        }
        assert forall|k2: int, p: Oid|
            0 <= k2 < out@.len() && #[trigger] parent_edge(*repo, out@[k2], p) && out@.contains(p)
            implies exists|l: int| 0 <= l < k2 && out@[l] == p by {
            assert(nodes@.contains(p));
        }
    }
    Ok(out)
}

/// A fresh copy of a commit list.
pub fn copy_oids(v: &Vec<Oid>) -> (r: Vec<Oid>)
    ensures
        r@ == v@,
{
    let mut out: Vec<Oid> = Vec::new();
    let mut i: usize = 0;
    while i < v.len()
        invariant
            i <= v.len(),
            out@ == v@.subrange(0, i as int),
        decreases v.len() - i,
    {
        out.push(v[i]);
        assert(out@ =~= v@.subrange(0, i + 1));
        i += 1;
    }
    assert(out@ =~= v@);
    out
}

} // verus!
