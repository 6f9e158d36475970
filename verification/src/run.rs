use crate::err::IngestError;
use crate::ingest::{
    blob_rows_valid, commit_row_matches, is_repo_edge, store_closed, Ingestor,
};
use crate::oid::Oid;
use crate::refdiff::{compare_refs, lemma_ref_diff_unchanged, spec_ref_diff, LiveRef, RefDiff};
use crate::repo::Repo;
use crate::store::Store;
use crate::walk::{new_reach, old_reach, parent_edge, walk_commits};
use vstd::prelude::*;

verus! {

/// What one run did: the references that differed and the commits that
/// were ingested, in ingestion order.
pub struct Report {
    pub diffs: Vec<RefDiff>,
    pub commits_ingested: Vec<Oid>,
}

/// A name occurs among the first `k` diff rows.
pub open spec fn diff_has_name(diffs: Seq<RefDiff>, k: int, n: Seq<u8>) -> bool {
    exists|i: int| 0 <= i < k && (#[trigger] diffs[i]).name@ == n
}

/// One run of ingestion: diff the references, walk the commit graph,
/// ingest every new commit, and record the new reference targets — all
/// against one store, atomically.  On any error the store is exactly as it
/// was.
pub fn run_ingest(repo: Repo, store: &mut Store, repo_id: u32, live: &Vec<LiveRef>) -> (r: Result<
    Report,
    IngestError,
>)
    requires
        repo.keys_ok(),
        old(store).wf(),
        store_closed(*old(store), repo),
        blob_rows_valid(*old(store), repo),
        forall|i: int, j: int|
            0 <= i < j < live@.len() ==> live@[i].name@ != live@[j].name@,
    ensures
        final(store).wf(),
        r matches Err(e) ==> {
            &&& final(store).direct_refs@ == old(store).direct_refs@
            &&& final(store).commits@ == old(store).commits@
            &&& final(store).tree_entries@ == old(store).tree_entries@
            &&& final(store).blobs@ == old(store).blobs@
            &&& (e matches IngestError::MissingObject(_) || e == IngestError::CycleDetected || e
                == IngestError::Compression)
            &&& (e == IngestError::Compression ==> exists|b: Oid|
                repo.has_blob(b) && !old(store).has_blob_row(b))
            &&& (e matches IngestError::MissingObject(o) ==> !repo.closed() || (!repo.has_commit(o)
                && (crate::walk::is_new_target(spec_ref_diff(*old(store), repo_id, live@), o)
                    || crate::walk::is_old_target(spec_ref_diff(*old(store), repo_id, live@), o))))
            &&& (e == IngestError::CycleDetected ==> crate::walk::has_cycle(repo))
        },
        r matches Ok(rep) ==> {
            &&& rep.diffs@.len() == spec_ref_diff(*old(store), repo_id, live@).len()
            &&& forall|i: int|
                0 <= i < rep.diffs@.len() ==> {
                    let d = #[trigger] rep.diffs@[i];
                    let s = spec_ref_diff(*old(store), repo_id, live@)[i];
                    d.name@ == s.name@ && d.old_target == s.old_target && d.new_target
                        == s.new_target
                }
            &&& repo.closed()
            &&& store_closed(*final(store), repo)
            &&& blob_rows_valid(*final(store), repo)
            &&& rep.commits_ingested@.no_duplicates()
            &&& forall|c: Oid| #[trigger]
                rep.commits_ingested@.contains(c) <==> (new_reach(repo, rep.diffs@, c)
                    && !old_reach(repo, rep.diffs@, c))
            &&& forall|k: int, p: Oid|
                0 <= k < rep.commits_ingested@.len() && #[trigger] parent_edge(
                    repo,
                    rep.commits_ingested@[k],
                    p,
                ) && rep.commits_ingested@.contains(p) ==> exists|l: int|
                    0 <= l < k && rep.commits_ingested@[l] == p
            &&& forall|c: Oid| #[trigger]
                rep.commits_ingested@.contains(c) ==> final(store).has_commit_row(c)
            &&& old(store).commits@.is_prefix_of(final(store).commits@)
            &&& forall|i: int|
                old(store).commits@.len() <= i < final(store).commits@.len() ==> commit_row_matches(
                    #[trigger] final(store).commits@[i],
                    repo,
                    final(store).commits@[i].oid,
                ) && rep.commits_ingested@.contains(final(store).commits@[i].oid)
            &&& old(store).tree_entries@.is_prefix_of(final(store).tree_entries@)
            &&& forall|i: int|
                old(store).tree_entries@.len() <= i < final(store).tree_entries@.len()
                    ==> is_repo_edge(repo, #[trigger] final(store).tree_entries@[i])
            &&& old(store).blobs@.is_prefix_of(final(store).blobs@)
            &&& forall|i: int|
                old(store).blobs@.len() <= i < final(store).blobs@.len() ==> repo.has_blob(
                    (#[trigger] final(store).blobs@[i]).oid,
                )
            &&& forall|i: int|
                0 <= i < rep.diffs@.len() ==> final(store).ref_target(
                    repo_id,
                    (#[trigger] rep.diffs@[i]).name@,
                ) == rep.diffs@[i].new_target
            &&& forall|rid: u32, n: Seq<u8>|
                !(rid == repo_id && diff_has_name(rep.diffs@, rep.diffs@.len() as int, n))
                    ==> #[trigger] final(store).ref_target(rid, n) == old(store).ref_target(rid, n)
        },
        (repo.closed() && forall|i: int|
            0 <= i < live@.len() ==> old(store).ref_target(repo_id, (#[trigger] live@[i]).name@)
                == Some(live@[i].target)) ==> {
            &&& final(store).direct_refs@ == old(store).direct_refs@
            &&& final(store).commits@ == old(store).commits@
            &&& final(store).tree_entries@ == old(store).tree_entries@
            &&& final(store).blobs@ == old(store).blobs@
            &&& r matches Ok(rep) && rep.diffs@.len() == 0 && rep.commits_ingested@.len() == 0
        },
{
    match repo.check_closed() {
        Ok(()) => {},
        Err(e) => {
            return Err(e);
        },
    }
    let diffs = compare_refs(store, repo_id, live);
    let order = match walk_commits(&repo, &diffs) {
        Ok(o) => o,
        Err(e) => {
            proof {
                if forall|i: int|
                    0 <= i < live@.len() ==> old(store).ref_target(
                        repo_id,
                        (#[trigger] live@[i]).name@,
                    ) == Some(live@[i].target) {
                    lemma_ref_diff_unchanged(*old(store), repo_id, live@);
                    assert(diffs@.len() == 0);
                    if e is CycleDetected {
                        let s = choose|s: Seq<Oid>|
                            #[trigger] crate::walk::stalled(repo, s) && (forall|k: int|
                                0 <= k < s.len() ==> new_reach(repo, diffs@, #[trigger] s[k]));
                        assert(s.len() > 0);
                        assert(new_reach(repo, diffs@, s[0]));
                        let t = choose|t: Oid|
                            #[trigger] crate::walk::is_new_target(diffs@, t) && crate::walk::reaches(
                                repo,
                                t,
                                s[0],
                            );
                        assert(false);
                    } else {
                        assert(false);
                    }
                }
                let rows = spec_ref_diff(*old(store), repo_id, live@);
                match e {
                    IngestError::MissingObject(o) => {
                        assert(crate::walk::is_new_target(diffs@, o) || crate::walk::is_old_target(
                            diffs@,
                            o,
                        ));
                        if crate::walk::is_new_target(diffs@, o) {
                            let i = choose|i: int|
                                0 <= i < diffs@.len() && (#[trigger] diffs@[i]).new_target == Some(
                                    o,
                                );
                            assert(rows[i].new_target == Some(o));
                            assert(crate::walk::is_new_target(rows, o));
                        } else {
                            let i = choose|i: int|
                                0 <= i < diffs@.len() && (#[trigger] diffs@[i]).old_target == Some(
                                    o,
                                );
                            assert(rows[i].old_target == Some(o));
                            assert(crate::walk::is_old_target(rows, o));
                        }
                    },
                    _ => {},
                }
            }
            return Err(e);
        },
    };
    proof {
        lemma_ref_diff_names(*old(store), repo_id, live@);
    }
    if diffs.len() == 0 {
        proof {
            assert(order@.len() == 0) by {
                if order@.len() > 0 {
                    assert(order@.contains(order@[0]));
                    let t = choose|t: Oid|
                        #[trigger] crate::walk::is_new_target(diffs@, t) && crate::walk::reaches(
                            repo,
                            t,
                            order@[0],
                        );
                }
            }
        }
        return Ok(Report { diffs, commits_ingested: order });
    }
    let base_commits = store.commits.len();
    let base_te = store.tree_entries.len();
    let base_blobs = store.blobs.len();
    let mut ing = Ingestor::new(repo);
    let mut k: usize = 0;
    while k < order.len()
        invariant
            ing.repo == repo,
            repo.wf(),
            store.wf(),
            store_closed(*store, repo),
            blob_rows_valid(*store, repo),
            store.direct_refs@ == old(store).direct_refs@,
            base_commits == old(store).commits@.len(),
            base_te == old(store).tree_entries@.len(),
            base_blobs == old(store).blobs@.len(),
            k <= order@.len(),
            diffs@.len() == spec_ref_diff(*old(store), repo_id, live@).len(),
            diffs@.len() > 0,
            forall|c: Oid| #[trigger] order@.contains(c) ==> repo.has_commit(c),
            old(store).commits@.is_prefix_of(store.commits@),
            forall|i: int|
                old(store).commits@.len() <= i < store.commits@.len() ==> commit_row_matches(
                    #[trigger] store.commits@[i],
                    repo,
                    store.commits@[i].oid,
                ) && order@.contains(store.commits@[i].oid),
            old(store).tree_entries@.is_prefix_of(store.tree_entries@),
            forall|i: int|
                old(store).tree_entries@.len() <= i < store.tree_entries@.len() ==> is_repo_edge(
                    repo,
                    #[trigger] store.tree_entries@[i],
                ),
            old(store).blobs@.is_prefix_of(store.blobs@),
            forall|i: int|
                old(store).blobs@.len() <= i < store.blobs@.len() ==> repo.has_blob(
                    (#[trigger] store.blobs@[i]).oid,
                ),
            forall|i: int| 0 <= i < k ==> store.has_commit_row(#[trigger] order@[i]),
        decreases order@.len() - k,
    {
        let ghost pre = *store;
        let c = order[k];
        proof {
            assert(order@.contains(c));
        }
        match ing.add_commit(store, c) {
            Ok(()) => {},
            Err(e) => {
                store.tree_entries.truncate(base_te);
                store.blobs.truncate(base_blobs);
                store.commits.truncate(base_commits);
                proof {
                    assert(store.tree_entries@ =~= old(store).tree_entries@);
                    assert(store.blobs@ =~= old(store).blobs@);
                    assert(store.commits@ =~= old(store).commits@);
                    assert(store.wf());
                    assert(repo.has_commit(c));
                    assert(e == IngestError::Compression);
                    let b = choose|b: Oid| repo.has_blob(b) && !pre.has_blob_row(b);
                    assert(!old(store).has_blob_row(b)) by {
                        if old(store).has_blob_row(b) {
                            let i = choose|i: int|
                                0 <= i < old(store).blobs@.len() && old(store).blobs@[i].oid == b;
                            assert(pre.blobs@[i] == old(store).blobs@[i]);
                            assert(pre.has_blob_row(b));
                            assert(false);
                        }
                    }
                    assert(repo.has_blob(b) && !old(store).has_blob_row(b));
                    if forall|i: int|
                        0 <= i < live@.len() ==> old(store).ref_target(
                            repo_id,
                            (#[trigger] live@[i]).name@,
                        ) == Some(live@[i].target) {
                        lemma_ref_diff_unchanged(*old(store), repo_id, live@);
                        assert(false);
                    }
                }
                return Err(e);
            },
        }
        proof {
            assert forall|i: int|
                old(store).tree_entries@.len() <= i < store.tree_entries@.len()
                    implies is_repo_edge(repo, #[trigger] store.tree_entries@[i]) by {
                if i < pre.tree_entries@.len() {
                    assert(store.tree_entries@[i] == pre.tree_entries@[i]);
                    assert(is_repo_edge(repo, pre.tree_entries@[i]));
                }
            }
            assert forall|i: int|
                old(store).blobs@.len() <= i < store.blobs@.len() implies repo.has_blob(
                (#[trigger] store.blobs@[i]).oid,
            ) by {
                if i < pre.blobs@.len() {
                    assert(store.blobs@[i] == pre.blobs@[i]);
                    assert(repo.has_blob(pre.blobs@[i].oid));
                }
            }
            assert forall|i: int| 0 <= i < k + 1 implies store.has_commit_row(
                #[trigger] order@[i],
            ) by {
                if i < k {
                    let w = choose|w: int|
                        0 <= w < pre.commits@.len() && pre.commits@[w].oid == order@[i];
                    assert(store.commits@[w].oid == order@[i]);
                }
            }
            assert forall|i: int|
                old(store).commits@.len() <= i < store.commits@.len() implies commit_row_matches(
                #[trigger] store.commits@[i],
                repo,
                store.commits@[i].oid,
            ) && order@.contains(store.commits@[i].oid) by {
                if i < pre.commits@.len() {
                    assert(store.commits@[i] == pre.commits@[i]);
                } else {
                    assert(i == store.commits@.len() - 1);
                    assert(store.commits@[i].oid == c);
                }
            }
        }
        k += 1;
    }
    let ghost mid = *store;
    proof {
        let rows = spec_ref_diff(*old(store), repo_id, live@);
        assert forall|i: int, j: int|
            0 <= i < j < diffs@.len() implies diffs@[i].name@ != diffs@[j].name@ by {
            assert(diffs@[i].name@ == rows[i].name@);
            assert(diffs@[j].name@ == rows[j].name@);
            assert(rows[i].name@ != rows[j].name@);
        }
        assert forall|i: int|
            0 <= i < diffs@.len() implies (#[trigger] diffs@[i]).new_target is Some by {
            assert(diffs@[i].new_target == rows[i].new_target);
            assert(rows[i].new_target is Some);
        }
    }
    let mut k2: usize = 0;
    while k2 < diffs.len()
        invariant
            store.wf(),
            k2 <= diffs@.len(),
            store.commits@ == mid.commits@,
            store.tree_entries@ == mid.tree_entries@,
            store.blobs@ == mid.blobs@,
            forall|i: int, j: int| 0 <= i < j < diffs@.len() ==> diffs@[i].name@ != diffs@[j].name@,
            forall|i: int| 0 <= i < diffs@.len() ==> (#[trigger] diffs@[i]).new_target is Some,
            forall|i: int|
                0 <= i < k2 ==> store.ref_target(repo_id, (#[trigger] diffs@[i]).name@)
                    == diffs@[i].new_target,
            forall|rid: u32, n: Seq<u8>|
                !(rid == repo_id && diff_has_name(diffs@, k2 as int, n)) ==> #[trigger] store.ref_target(
                    rid,
                    n,
                ) == mid.ref_target(rid, n),
        decreases diffs@.len() - k2,
    {
        let t = match diffs[k2].new_target {
            Some(t) => t,
            None => {
                proof {
                    assert(false);
                }
                Oid::zero()
            },
        };
        let name = crate::bytes::copy_bytes(&diffs[k2].name);
        let ghost pre_refs = *store;
        store.ref_set(repo_id, name, t);
        proof {
            assert forall|i: int|
                0 <= i < k2 + 1 implies store.ref_target(repo_id, (#[trigger] diffs@[i]).name@)
                == diffs@[i].new_target by {
                if i < k2 {
                    assert(diffs@[i].name@ != diffs@[k2 as int].name@);
                }
            }
            assert forall|rid: u32, n: Seq<u8>|
                !(rid == repo_id && diff_has_name(diffs@, k2 + 1, n)) implies #[trigger] store.ref_target(
                rid,
                n,
            ) == mid.ref_target(rid, n) by {
                assert(!(rid == repo_id && n == diffs@[k2 as int].name@));
                assert(!(rid == repo_id && diff_has_name(diffs@, k2 as int, n)));
                assert(pre_refs.ref_target(rid, n) == mid.ref_target(rid, n));
            }
        }
        k2 += 1;
    }
    proof {
        assert forall|c: Oid| #[trigger] order@.contains(c) implies store.has_commit_row(c) by {
            let i = choose|i: int| 0 <= i < order@.len() && order@[i] == c;
            assert(store.has_commit_row(order@[i]));
        }
        if forall|i: int|
            0 <= i < live@.len() ==> old(store).ref_target(repo_id, (#[trigger] live@[i]).name@)
                == Some(live@[i].target) {
            lemma_ref_diff_unchanged(*old(store), repo_id, live@);
            assert(false);
        }
    }
    Ok(Report { diffs, commits_ingested: order })
}

/// Every diff row targets something, rows keep live order, and with
/// pairwise distinct live names the rows' names are pairwise distinct.
proof fn lemma_ref_diff_names(store: Store, repo_id: u32, live: Seq<LiveRef>)
    requires
        forall|i: int, j: int| 0 <= i < j < live.len() ==> live[i].name@ != live[j].name@,
    ensures
        forall|i: int|
            0 <= i < spec_ref_diff(store, repo_id, live).len() ==> (#[trigger] spec_ref_diff(
                store,
                repo_id,
                live,
            )[i]).new_target is Some,
        forall|i: int|
            0 <= i < spec_ref_diff(store, repo_id, live).len() ==> exists|l: int|
                0 <= l < live.len() && (#[trigger] spec_ref_diff(store, repo_id, live)[i]).name@
                    == live[l].name@,
        forall|i: int, j: int|
            0 <= i < j < spec_ref_diff(store, repo_id, live).len() ==> spec_ref_diff(
                store,
                repo_id,
                live,
            )[i].name@ != spec_ref_diff(store, repo_id, live)[j].name@,
    decreases live.len(),
{
    if live.len() > 0 {
        let rest = live.drop_last();
        lemma_ref_diff_names(store, repo_id, rest);
        let rows = spec_ref_diff(store, repo_id, live);
        let prev = spec_ref_diff(store, repo_id, rest);
        assert forall|i: int|
            0 <= i < rows.len() implies ((#[trigger] rows[i]).new_target is Some && exists|l: int|
            0 <= l < live.len() && rows[i].name@ == live[l].name@) by {
            if i < prev.len() {
                assert(rows[i] == prev[i]);
                assert(prev[i].new_target is Some);
                let l = choose|l: int| 0 <= l < rest.len() && prev[i].name@ == rest[l].name@;
                assert(rows[i].name@ == live[l].name@);
            } else {
                assert(rows[i].name@ == live[live.len() - 1].name@);
            }
        }
        assert forall|i: int, j: int|
            0 <= i < j < rows.len() implies rows[i].name@ != rows[j].name@ by {
            if j < prev.len() {
                assert(rows[i] == prev[i] && rows[j] == prev[j]);
            } else if rows.len() > prev.len() {
                assert(rows[j].name@ == live[live.len() - 1].name@);
                assert(rows[i] == prev[i]);
                let l = choose|l: int| 0 <= l < rest.len() && prev[i].name@ == rest[l].name@;
                assert(live[l].name@ != live[live.len() - 1].name@);
            }
        }
    }
}

} // verus!
