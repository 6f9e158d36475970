use crate::bytes::copy_bytes;
use crate::codec::{compress_content, lz4_frame_of};
use crate::err::IngestError;
use crate::kind::ObjectKind;
use crate::oid::Oid;
use crate::repo::{find_idx, Repo, TreeChild};
use crate::store::{CommitRow, Store, TreeEntryRow};
use crate::walk::oid_in;
use vstd::prelude::*;

verus! {

broadcast use {vstd::seq_lib::seq_to_set_is_finite, vstd::seq_lib::group_seq_properties};

/// The tree entry row records an edge the snapshot shows.
pub open spec fn is_repo_edge(repo: Repo, e: TreeEntryRow) -> bool {
    repo.has_tree(e.tree) && exists|j: int|
        0 <= j < repo.children_of(e.tree).len() && (#[trigger] repo.children_of(e.tree)[j]).name@
            == e.name@ && repo.children_of(e.tree)[j].kind == e.kind && repo.children_of(
            e.tree,
        )[j].oid == e.child
}

/// Every edge of tree `t` in the snapshot has its row in the store.
pub open spec fn tree_recorded(store: Store, repo: Repo, t: Oid) -> bool {
    forall|j: int|
        0 <= j < repo.children_of(t).len() ==> store.has_tree_entry(
            t,
            (#[trigger] repo.children_of(t)[j]).name@,
            repo.children_of(t)[j].kind,
            repo.children_of(t)[j].oid,
        )
}

/// The store is closed under its recorded edges, but for trees still in
/// `pending`: a recorded edge to a tree means that tree's own edges are
/// recorded, and a recorded edge to a blob means the blob row is present.
pub open spec fn closed_except(store: Store, repo: Repo, pending: Seq<Oid>) -> bool {
    forall|i: int|
        0 <= i < store.tree_entries@.len() ==> {
            &&& ((#[trigger] store.tree_entries@[i]).kind == ObjectKind::Tree && repo.has_tree(
                store.tree_entries@[i].child,
            ) ==> pending.contains(store.tree_entries@[i].child) || tree_recorded(
                store,
                repo,
                store.tree_entries@[i].child,
            ))
            &&& (store.tree_entries@[i].kind == ObjectKind::Blob && repo.has_blob(
                store.tree_entries@[i].child,
            ) ==> store.has_blob_row(store.tree_entries@[i].child))
        }
}

/// The store is closed under its recorded edges: every recorded subtree is
/// fully recorded, every recorded blob edge has its blob row.
pub open spec fn store_closed(store: Store, repo: Repo) -> bool {
    closed_except(store, repo, Seq::empty())
}

/// Every blob row whose hash the snapshot knows holds exactly the
/// compressed frame of that blob's raw bytes.
pub open spec fn blob_rows_valid(store: Store, repo: Repo) -> bool {
    forall|i: int|
        0 <= i < store.blobs@.len() ==> (repo.has_blob((#[trigger] store.blobs@[i]).oid)
            ==> store.blobs@[i].content_lz4@ == lz4_frame_of(repo.blob_of(store.blobs@[i].oid)))
}

/// How many of the rows are blob edges.
pub open spec fn count_blob_edges(s: Seq<TreeEntryRow>) -> nat
    decreases s.len(),
{
    if s.len() == 0 {
        0
    } else {
        count_blob_edges(s.drop_last()) + if s.last().kind == ObjectKind::Blob {
            1nat
        } else {
            0nat
        }
    }
}

proof fn lemma_count_blob_edges_le(s: Seq<TreeEntryRow>)
    ensures
        count_blob_edges(s) <= s.len(),
    decreases s.len(),
{
    if s.len() > 0 {
        lemma_count_blob_edges_le(s.drop_last());
    }
}

/// Growing the tables preserves recorded rows.
proof fn lemma_store_grow(s1: Store, s2: Store, repo: Repo)
    requires
        s1.tree_entries@.is_prefix_of(s2.tree_entries@),
        s1.blobs@.is_prefix_of(s2.blobs@),
    ensures
        forall|t: Oid, n: Seq<u8>, k: ObjectKind, c: Oid|
            #[trigger] s1.has_tree_entry(t, n, k, c) ==> s2.has_tree_entry(t, n, k, c),
        forall|o: Oid| #[trigger] s1.has_blob_row(o) ==> s2.has_blob_row(o),
        forall|t: Oid| #[trigger] tree_recorded(s1, repo, t) ==> tree_recorded(s2, repo, t),
{
    assert forall|t: Oid, n: Seq<u8>, k: ObjectKind, c: Oid|
        #[trigger] s1.has_tree_entry(t, n, k, c) implies s2.has_tree_entry(t, n, k, c) by {
        let i = choose|i: int|
            0 <= i < s1.tree_entries@.len() && (#[trigger] s1.tree_entries@[i]).tree == t
                && s1.tree_entries@[i].name@ == n && s1.tree_entries@[i].kind == k
                && s1.tree_entries@[i].child == c;
        assert(s2.tree_entries@[i] == s1.tree_entries@[i]);
    }
    assert forall|o: Oid| #[trigger] s1.has_blob_row(o) implies s2.has_blob_row(o) by {
        let i = choose|i: int| 0 <= i < s1.blobs@.len() && s1.blobs@[i].oid == o;
        assert(s2.blobs@[i] == s1.blobs@[i]);
    }
    assert forall|t: Oid| #[trigger] tree_recorded(s1, repo, t) implies tree_recorded(
        s2,
        repo,
        t,
    ) by {
        assert forall|j: int| 0 <= j < repo.children_of(t).len() implies s2.has_tree_entry(
            t,
            (#[trigger] repo.children_of(t)[j]).name@,
            repo.children_of(t)[j].kind,
            repo.children_of(t)[j].oid,
        ) by {
            assert(s1.has_tree_entry(
                t,
                repo.children_of(t)[j].name@,
                repo.children_of(t)[j].kind,
                repo.children_of(t)[j].oid,
            ));
        }
    }
}

/// A duplicate-free list of trees of the snapshot is no longer than the
/// snapshot's tree list.
proof fn lemma_distinct_trees_bounded(repo: Repo, vs: Seq<Oid>)
    requires
        vs.no_duplicates(),
        forall|k: int| 0 <= k < vs.len() ==> repo.has_tree(#[trigger] vs[k]),
    ensures
        vs.len() <= repo.trees@.len(),
{
    let keys = repo.trees@.map_values(|p: (Oid, Vec<TreeChild>)| p.0);
    vs.unique_seq_to_set();
    keys.lemma_cardinality_of_set();
    assert forall|x: Oid| vs.to_set().contains(x) implies keys.to_set().contains(x) by {
        assert(vs.contains(x));
        assert(repo.has_tree(x));
        let i = choose|i: int| 0 <= i < repo.trees@.len() && repo.trees@[i].0 == x;
        assert(keys[i] == x);
        assert(keys.contains(x));
    }
    vstd::set_lib::lemma_len_subset(vs.to_set(), keys.to_set());
}

/// The fixed-stride concatenation of parent hashes, 20 bytes per parent.
pub open spec fn encode_parents_spec(ps: Seq<Oid>) -> Seq<u8>
    decreases ps.len(),
{
    if ps.len() == 0 {
        Seq::empty()
    } else {
        encode_parents_spec(ps.drop_last()) + ps.last().spec_bytes()
    }
}

/// Serialize parent hashes as a fixed-stride concatenation.  No length
/// prefix is needed: every element takes exactly 20 bytes.
pub fn encode_parents(ps: &Vec<Oid>) -> (r: Vec<u8>)
    ensures
        r@ == encode_parents_spec(ps@),
{
    let mut out: Vec<u8> = Vec::new();
    let mut i: usize = 0;
    while i < ps.len()
        invariant
            i <= ps@.len(),
            out@ == encode_parents_spec(ps@.subrange(0, i as int)),
        decreases ps@.len() - i,
    {
        ps[i].push_bytes(&mut out);
        proof {
            assert(ps@.subrange(0, i + 1).drop_last() =~= ps@.subrange(0, i as int));
            assert(ps@.subrange(0, i + 1).last() == ps@[i as int]);
        }
        i += 1;
    }
    proof {
        assert(ps@.subrange(0, ps@.len() as int) =~= ps@);
    }
    out
}

/// The persisted row for commit `oid` carries exactly the snapshot's
/// metadata for it.
pub open spec fn commit_row_matches(row: CommitRow, repo: Repo, oid: Oid) -> bool {
    let info = repo.commit_of(oid);
    &&& row.oid == oid
    &&& row.tree == info.tree
    &&& row.message@ == info.message@
    &&& row.parents@ == encode_parents_spec(info.parents@)
    &&& row.author_name@ == info.author_name@
    &&& row.author_email@ == info.author_email@
    &&& row.author_date == info.author_date
    &&& row.committer_name@ == info.committer_name@
    &&& row.committer_email@ == info.committer_email@
    &&& row.committer_date == info.committer_date
}

/// Work counters of one ingestion walk: with a warm store they stay small,
/// which is what the memoization is for.
#[derive(Clone, Copy, PartialEq, Eq, Structural, Debug)]
pub struct IngestStats {
    /// Tree entry rows actually added.
    pub entries_added: usize,
    /// Blob presence checks issued; one per newly added blob edge, none
    /// for edges that were already recorded.
    pub blob_checks: usize,
}

/// Walks the snapshot's object graph and persists what the store lacks.
pub struct Ingestor {
    pub repo: Repo,
    pub stats: IngestStats,
}

impl Ingestor {
    pub fn new(repo: Repo) -> (r: Ingestor)
        ensures
            r.repo == repo,
            r.stats.entries_added == 0,
            r.stats.blob_checks == 0,
    {
        Ingestor { repo, stats: IngestStats { entries_added: 0, blob_checks: 0 } }
    }

    /// Ensure every edge of the tree `root`, of every descendant tree, and
    /// every referenced blob's content is present in the store, without
    /// walking into subtrees whose edges were already recorded.
    ///
    /// The walk's work is exact: the blob checks issued equal the blob
    /// edges added, so an already-recorded subtree costs nothing.  It can
    /// fail only in compression, and so only when some snapshot blob had
    /// no stored row yet: over a warm store it succeeds.
    pub fn add_tree(&mut self, store: &mut Store, root: Oid) -> (r: Result<(), IngestError>)
        requires
            old(self).repo.wf(),
            old(store).wf(),
            closed_except(*old(store), old(self).repo, Seq::empty()),
            blob_rows_valid(*old(store), old(self).repo),
            old(self).repo.has_tree(root),
        ensures
            final(self).repo == old(self).repo,
            final(store).wf(),
            blob_rows_valid(*final(store), old(self).repo),
            final(store).commits@ == old(store).commits@,
            final(store).direct_refs@ == old(store).direct_refs@,
            old(store).tree_entries@.is_prefix_of(final(store).tree_entries@),
            forall|i: int|
                old(store).tree_entries@.len() <= i < final(store).tree_entries@.len()
                    ==> is_repo_edge(old(self).repo, #[trigger] final(store).tree_entries@[i]),
            old(store).blobs@.is_prefix_of(final(store).blobs@),
            forall|i: int|
                old(store).blobs@.len() <= i < final(store).blobs@.len() ==> old(
                    self,
                ).repo.has_blob((#[trigger] final(store).blobs@[i]).oid),
            r matches Ok(()) ==> closed_except(*final(store), old(self).repo, Seq::empty())
                && tree_recorded(*final(store), old(self).repo, root),
            r matches Err(e) ==> e == IngestError::Compression,
            r matches Err(e) ==> exists|b: Oid|
                old(self).repo.has_blob(b) && !old(store).has_blob_row(b),
            final(self).stats.entries_added == final(store).tree_entries@.len() - old(
                store,
            ).tree_entries@.len(),
            final(self).stats.blob_checks == count_blob_edges(
                final(store).tree_entries@.skip(old(store).tree_entries@.len() as int),
            ),
    {
        self.stats = IngestStats { entries_added: 0, blob_checks: 0 };
        let ghost base = store.tree_entries@.len() as int;
        let mut work: Vec<Oid> = Vec::new();
        let mut visited: Vec<Oid> = Vec::new();
        work.push(root);
        visited.push(root);
        proof {
            assert(store.tree_entries@.skip(base) =~= Seq::<TreeEntryRow>::empty());
            assert(old(store).tree_entries@.is_prefix_of(store.tree_entries@));
        }
        while work.len() > 0
            invariant
                self.repo == old(self).repo,
                self.repo.wf(),
                store.wf(),
                blob_rows_valid(*store, self.repo),
                store.commits@ == old(store).commits@,
                store.direct_refs@ == old(store).direct_refs@,
                base == old(store).tree_entries@.len() as int,
                old(store).tree_entries@.is_prefix_of(store.tree_entries@),
                forall|i: int|
                    base <= i < store.tree_entries@.len() ==> is_repo_edge(
                        self.repo,
                        #[trigger] store.tree_entries@[i],
                    ),
                old(store).blobs@.is_prefix_of(store.blobs@),
                forall|i: int|
                    old(store).blobs@.len() <= i < store.blobs@.len() ==> self.repo.has_blob(
                        (#[trigger] store.blobs@[i]).oid,
                    ),
                visited@.no_duplicates(),
                work@.no_duplicates(),
                forall|x: Oid| #[trigger] work@.contains(x) ==> visited@.contains(x),
                forall|x: Oid| #[trigger] visited@.contains(x) ==> self.repo.has_tree(x),
                visited@.contains(root),
                visited@.len() <= self.repo.trees@.len(),
                closed_except(*store, self.repo, work@),
                forall|x: Oid|
                    #[trigger] visited@.contains(x) ==> work@.contains(x) || tree_recorded(
                        *store,
                        self.repo,
                        x,
                    ),
                self.stats.entries_added == store.tree_entries@.len() - base,
                self.stats.blob_checks == count_blob_edges(store.tree_entries@.skip(base)),
            decreases self.repo.trees@.len() - visited@.len(), work@.len(),
        {
            let ghost pre_vis = visited@;
            let ghost pre_work = work@;
            let t = match work.pop() {
                Some(t) => t,
                None => {
                    proof {
                        assert(false);
                    }
                    Oid::zero()
                },
            };
            proof {
                assert(pre_work =~= work@.push(t));
                assert(!work@.contains(t)) by {
                    if work@.contains(t) {
                        let k = choose|k: int| 0 <= k < work@.len() && work@[k] == t;
                        assert(pre_work[k] == t);
                        assert(pre_work[pre_work.len() - 1] == t);
                        assert(false);
                    }
                }
                assert(visited@.contains(t)) by {
                    assert(pre_work.contains(t));
                }
                assert forall|x: Oid| #[trigger] work@.contains(x) implies visited@.contains(x) by {
                    let k = choose|k: int| 0 <= k < work@.len() && work@[k] == x;
                    assert(pre_work[k] == x);
                    assert(pre_work.contains(x));
                }
                assert forall|x: Oid| #[trigger] pre_work.contains(x) implies work@.contains(x) || x
                    == t by {
                    let k = choose|k: int| 0 <= k < pre_work.len() && pre_work[k] == x;
                    if k < pre_work.len() - 1 {
                        assert(work@[k] == x);
                    }
                }
                assert(closed_except(*store, self.repo, work@.push(t)));
                assert forall|x: Oid|
                    #[trigger] visited@.contains(x) implies work@.push(t).contains(x)
                    || tree_recorded(*store, self.repo, x) by {
                    if pre_work.contains(x) {
                        assert(pre_work =~= work@.push(t));
                    }
                }
            }
            let ti = match find_idx(&self.repo.trees, t) {
                Some(ti) => ti,
                None => {
                    proof {
                        assert(self.repo.has_tree(t));
                        assert(false);
                    }
                    0
                },
            };
            proof {
                assert(self.repo.children_of(t) == self.repo.trees@[ti as int].1@) by {
                    let k = choose|k: int|
                        0 <= k < self.repo.trees@.len() && self.repo.trees@[k].0 == t;
                    assert(k == ti as int);
                }
            }
            let mut j: usize = 0;
            while j < self.repo.trees[ti].1.len()
                invariant
                    self.repo == old(self).repo,
                    self.repo.wf(),
                    store.wf(),
                    blob_rows_valid(*store, self.repo),
                    store.commits@ == old(store).commits@,
                    store.direct_refs@ == old(store).direct_refs@,
                    base == old(store).tree_entries@.len() as int,
                    old(store).tree_entries@.is_prefix_of(store.tree_entries@),
                    forall|i: int|
                        base <= i < store.tree_entries@.len() ==> is_repo_edge(
                            self.repo,
                            #[trigger] store.tree_entries@[i],
                        ),
                    old(store).blobs@.is_prefix_of(store.blobs@),
                    forall|i: int|
                        old(store).blobs@.len() <= i < store.blobs@.len() ==> self.repo.has_blob(
                            (#[trigger] store.blobs@[i]).oid,
                        ),
                    visited@.no_duplicates(),
                    work@.no_duplicates(),
                    forall|x: Oid| #[trigger] work@.contains(x) ==> visited@.contains(x),
                    forall|x: Oid| #[trigger] visited@.contains(x) ==> self.repo.has_tree(x),
                    visited@.contains(root),
                    visited@.contains(t),
                    !work@.contains(t),
                    visited@.len() <= self.repo.trees@.len(),
                    visited@.len() >= pre_vis.len(),
                    visited@.len() == pre_vis.len() ==> visited@ == pre_vis && work@.len()
                        == pre_work.len() - 1,
                    ti < self.repo.trees@.len(),
                    self.repo.trees@[ti as int].0 == t,
                    self.repo.children_of(t) == self.repo.trees@[ti as int].1@,
                    j <= self.repo.trees@[ti as int].1@.len(),
                    closed_except(*store, self.repo, work@.push(t)),
                    forall|x: Oid|
                        #[trigger] visited@.contains(x) ==> work@.push(t).contains(x)
                            || tree_recorded(*store, self.repo, x),
                    forall|b: int|
                        0 <= b < j ==> store.has_tree_entry(
                            t,
                            (#[trigger] self.repo.trees@[ti as int].1@[b]).name@,
                            self.repo.trees@[ti as int].1@[b].kind,
                            self.repo.trees@[ti as int].1@[b].oid,
                        ),
                    self.stats.entries_added == store.tree_entries@.len() - base,
                    self.stats.blob_checks == count_blob_edges(store.tree_entries@.skip(base)),
                decreases self.repo.trees@[ti as int].1@.len() - j,
            {
                let ghost pre_store = *store;
                let name = copy_bytes(&self.repo.trees[ti].1[j].name);
                let kind = self.repo.trees[ti].1[j].kind;
                let child = self.repo.trees[ti].1[j].oid;
                let row = TreeEntryRow { tree: t, name, kind, child };
                let ghost rowv = row;
                let added = store.tree_entry_insert(row);
                proof {
                    lemma_store_grow(pre_store, *store, self.repo);
                    if added {
                        assert(store.tree_entries@ == pre_store.tree_entries@.push(rowv));
                        assert(store.tree_entries@.skip(base) =~= pre_store.tree_entries@.skip(
                            base,
                        ).push(rowv));
                        assert(count_blob_edges(store.tree_entries@.skip(base)) == count_blob_edges(
                            pre_store.tree_entries@.skip(base),
                        ) + if rowv.kind == ObjectKind::Blob {
                            1nat
                        } else {
                            0nat
                        }) by {
                            let s2 = store.tree_entries@.skip(base);
                            assert(s2.drop_last() =~= pre_store.tree_entries@.skip(base));
                            assert(s2.last() == rowv);
                        }
                        assert(is_repo_edge(self.repo, rowv)) by {
                            assert(self.repo.children_of(t)[j as int].name@ == rowv.name@);
                        }
                        lemma_count_blob_edges_le(store.tree_entries@.skip(base));
                    } else {
                        assert(store.tree_entries@ == pre_store.tree_entries@);
                    }
                    assert(store.has_tree_entry(rowv.tree, rowv.name@, rowv.kind, rowv.child)) by {
                        if added {
                            let last = store.tree_entries@.len() - 1;
                            assert(store.tree_entries@[last] == rowv);
                        }
                    }
                }
                if added {
                    let cur_len = store.tree_entries.len();
                    proof {
                        assert(self.stats.entries_added + 1 == cur_len - base);
                        lemma_count_blob_edges_le(pre_store.tree_entries@.skip(base));
                        assert(self.stats.blob_checks + 1 <= cur_len - base);
                    }
                    self.stats.entries_added = self.stats.entries_added + 1;
                    if matches!(kind, ObjectKind::Tree) {
                        proof {
                            assert(self.repo.has_tree(child));
                        }
                        if !oid_in(&visited, child) {
                            proof {
                                assert(!work@.contains(child));
                                assert(visited@.push(child).no_duplicates());
                                assert(work@.push(child).no_duplicates());
                            }
                            visited.push(child);
                            work.push(child);
                            proof {
                                assert forall|k: int|
                                    0 <= k < visited@.len() implies self.repo.has_tree(
                                    #[trigger] visited@[k],
                                ) by {
                                    assert(visited@.contains(visited@[k]));
                                }
                                lemma_distinct_trees_bounded(self.repo, visited@);
                            }
                        }
                    } else if matches!(kind, ObjectKind::Blob) {
                        proof {
                            assert(self.repo.has_blob(child));
                            lemma_count_blob_edges_le(store.tree_entries@.skip(base));
                        }
                        self.stats.blob_checks = self.stats.blob_checks + 1;
                        if !store.blob_exists(child) {
                            let ghost pre_blob = *store;
                            match self.insert_blob_content(store, child) {
                                Ok(()) => {},
                                Err(e) => {
                                    proof {
                                        assert(!pre_blob.has_blob_row(child));
                                        assert(!old(store).has_blob_row(child)) by {
                                            if old(store).has_blob_row(child) {
                                                let i = choose|i: int|
                                                    0 <= i < old(store).blobs@.len() && old(
                                                        store,
                                                    ).blobs@[i].oid == child;
                                                assert(pre_blob.blobs@[i] == old(
                                                    store,
                                                ).blobs@[i]);
                                                assert(false);
                                            }
                                        }
                                        assert(old(self).repo.has_blob(child) && !old(
                                            store,
                                        ).has_blob_row(child));
                                    }
                                    return Err(e);
                                },
                            }
                            proof {
                                lemma_store_grow(pre_blob, *store, self.repo);
                                assert forall|i: int|
                                    old(store).blobs@.len() <= i < store.blobs@.len()
                                        implies self.repo.has_blob(
                                    (#[trigger] store.blobs@[i]).oid,
                                ) by {
                                    if i < pre_blob.blobs@.len() {
                                        assert(store.blobs@[i] == pre_blob.blobs@[i]);
                                        assert(self.repo.has_blob(pre_blob.blobs@[i].oid));
                                    } else {
                                        assert(store.blobs@[i].oid == child);
                                    }
                                }
                            }
                        }
                    }
                }
                proof {
                    // the closed-except and settled invariants survive the
                    // row and blob additions
                    assert forall|x: Oid|
                        #[trigger] visited@.contains(x) implies work@.push(t).contains(x)
                        || tree_recorded(*store, self.repo, x) by {}
                    assert(closed_except(*store, self.repo, work@.push(t))) by {
                        assert forall|i: int|
                            0 <= i < store.tree_entries@.len() implies {
                            &&& ((#[trigger] store.tree_entries@[i]).kind == ObjectKind::Tree
                                && self.repo.has_tree(store.tree_entries@[i].child)
                                ==> work@.push(t).contains(store.tree_entries@[i].child)
                                || tree_recorded(*store, self.repo, store.tree_entries@[i].child))
                            &&& (store.tree_entries@[i].kind == ObjectKind::Blob
                                && self.repo.has_blob(store.tree_entries@[i].child)
                                ==> store.has_blob_row(store.tree_entries@[i].child))
                        } by {
                            if i < pre_store.tree_entries@.len() {
                                assert(store.tree_entries@[i] == pre_store.tree_entries@[i]);
                            } else {
                                assert(store.tree_entries@[i] == rowv);
                                if rowv.kind == ObjectKind::Tree && self.repo.has_tree(rowv.child) {
                                    assert(visited@.contains(rowv.child));
                                }
                            }
                        }
                    }
                }
                j += 1;
            }
            proof {
                assert(tree_recorded(*store, self.repo, t)) by {
                    assert forall|b: int|
                        0 <= b < self.repo.children_of(t).len() implies store.has_tree_entry(
                        t,
                        (#[trigger] self.repo.children_of(t)[b]).name@,
                        self.repo.children_of(t)[b].kind,
                        self.repo.children_of(t)[b].oid,
                    ) by {}
                }
                assert(closed_except(*store, self.repo, work@)) by {
                    assert forall|i: int|
                        0 <= i < store.tree_entries@.len() && (#[trigger] store.tree_entries@[i]).kind
                            == ObjectKind::Tree && self.repo.has_tree(store.tree_entries@[i].child)
                        implies work@.contains(store.tree_entries@[i].child) || tree_recorded(
                        *store,
                        self.repo,
                        store.tree_entries@[i].child,
                    ) by {
                        assert(work@.push(t).contains(store.tree_entries@[i].child)
                            || tree_recorded(*store, self.repo, store.tree_entries@[i].child));
                        if work@.push(t).contains(store.tree_entries@[i].child) {
                            if store.tree_entries@[i].child == t {
                            } else {
                                let k = choose|k: int|
                                    0 <= k < work@.push(t).len() && work@.push(t)[k]
                                        == store.tree_entries@[i].child;
                                assert(work@[k] == store.tree_entries@[i].child);
                            }
                        }
                    }
                }
                assert forall|x: Oid|
                    #[trigger] visited@.contains(x) implies work@.contains(x) || tree_recorded(
                    *store,
                    self.repo,
                    x,
                ) by {
                    if x != t && work@.push(t).contains(x) {
                        let k = choose|k: int|
                            0 <= k < work@.push(t).len() && work@.push(t)[k] == x;
                        assert(work@[k] == x);
                    }
                }
            }
        }
        proof {
            assert(closed_except(*store, self.repo, Seq::empty())) by {
                assert forall|i: int|
                    0 <= i < store.tree_entries@.len() && (#[trigger] store.tree_entries@[i]).kind
                        == ObjectKind::Tree && self.repo.has_tree(store.tree_entries@[i].child)
                    implies tree_recorded(*store, self.repo, store.tree_entries@[i].child) by {
                    assert(!Seq::<Oid>::empty().contains(store.tree_entries@[i].child));
                    assert(work@.contains(store.tree_entries@[i].child) || tree_recorded(
                        *store,
                        self.repo,
                        store.tree_entries@[i].child,
                    ));
                }
            }
            assert(tree_recorded(*store, self.repo, root)) by {
                assert(visited@.contains(root));
            }
        }
        Ok(())
    }

    /// Compress the snapshot's content for `oid` and insert its blob row
    /// if absent.
    fn insert_blob_content(&mut self, store: &mut Store, oid: Oid) -> (r: Result<
        (),
        IngestError,
    >)
        requires
            old(self).repo.keys_ok(),
            old(store).wf(),
            blob_rows_valid(*old(store), old(self).repo),
            old(self).repo.has_blob(oid),
        ensures
            *final(self) == *old(self),
            final(store).wf(),
            blob_rows_valid(*final(store), old(self).repo),
            final(store).commits@ == old(store).commits@,
            final(store).tree_entries@ == old(store).tree_entries@,
            final(store).direct_refs@ == old(store).direct_refs@,
            old(store).blobs@.is_prefix_of(final(store).blobs@),
            forall|i: int|
                old(store).blobs@.len() <= i < final(store).blobs@.len()
                    ==> (#[trigger] final(store).blobs@[i]).oid == oid,
            r matches Ok(()) ==> final(store).has_blob_row(oid),
            r matches Err(e) ==> e == IngestError::Compression && final(store).blobs@
                == old(store).blobs@,
    {
        let bi = match find_idx(&self.repo.blobs, oid) {
            Some(bi) => bi,
            None => {
                proof {
                    assert(false);
                }
                0
            },
        };
        proof {
            assert(self.repo.blob_of(oid) == self.repo.blobs@[bi as int].1@) by {
                let k = choose|k: int|
                    0 <= k < self.repo.blobs@.len() && self.repo.blobs@[k].0 == oid;
                assert(k == bi as int);
            }
        }
        let frame = match compress_content(&self.repo.blobs[bi].1) {
            Ok(f) => f,
            Err(e) => {
                return Err(e);
            },
        };
        store.blob_insert(oid, frame);
        Ok(())
    }

    /// Ensure the commit's metadata row exists and its whole tree is
    /// ingested.  Re-ingesting an already-present commit adds no row.
    pub fn add_commit(&mut self, store: &mut Store, commit_oid: Oid) -> (r: Result<
        (),
        IngestError,
    >)
        requires
            old(self).repo.wf(),
            old(store).wf(),
            store_closed(*old(store), old(self).repo),
            blob_rows_valid(*old(store), old(self).repo),
        ensures
            final(self).repo == old(self).repo,
            final(store).wf(),
            blob_rows_valid(*final(store), old(self).repo),
            final(store).direct_refs@ == old(store).direct_refs@,
            old(store).tree_entries@.is_prefix_of(final(store).tree_entries@),
            forall|i: int|
                old(store).tree_entries@.len() <= i < final(store).tree_entries@.len()
                    ==> is_repo_edge(old(self).repo, #[trigger] final(store).tree_entries@[i]),
            old(store).blobs@.is_prefix_of(final(store).blobs@),
            forall|i: int|
                old(store).blobs@.len() <= i < final(store).blobs@.len() ==> old(
                    self,
                ).repo.has_blob((#[trigger] final(store).blobs@[i]).oid),
            r matches Ok(()) ==> {
                &&& old(self).repo.has_commit(commit_oid)
                &&& store_closed(*final(store), old(self).repo)
                &&& tree_recorded(
                    *final(store),
                    old(self).repo,
                    old(self).repo.commit_of(commit_oid).tree,
                )
                &&& final(store).has_commit_row(commit_oid)
                &&& (old(store).has_commit_row(commit_oid) ==> final(store).commits@ == old(
                    store,
                ).commits@)
                &&& (!old(store).has_commit_row(commit_oid) ==> final(store).commits@.len() == old(
                    store,
                ).commits@.len() + 1 && old(store).commits@.is_prefix_of(final(store).commits@)
                    && commit_row_matches(
                    final(store).commits@.last(),
                    old(self).repo,
                    commit_oid,
                ))
            },
            r matches Err(e) ==> final(store).commits@ == old(store).commits@,
            r matches Err(e) ==> (e == IngestError::Compression ==> exists|b: Oid|
                old(self).repo.has_blob(b) && !old(store).has_blob_row(b)),
            r matches Err(e) ==> (e == IngestError::Compression && old(self).repo.has_commit(
                commit_oid,
            )) || (e == IngestError::MissingObject(commit_oid) && !old(self).repo.has_commit(
                commit_oid,
            )),
            !old(self).repo.has_commit(commit_oid) ==> r == Result::<(), IngestError>::Err(
                IngestError::MissingObject(commit_oid),
            ),
    {
        let ci = match find_idx(&self.repo.commits, commit_oid) {
            Some(ci) => ci,
            None => {
                return Err(IngestError::MissingObject(commit_oid));
            },
        };
        proof {
            assert(self.repo.commit_of(commit_oid) == self.repo.commits@[ci as int].1) by {
                let k = choose|k: int|
                    0 <= k < self.repo.commits@.len() && self.repo.commits@[k].0 == commit_oid;
                assert(k == ci as int);
            }
            assert(self.repo.has_tree(self.repo.commits@[ci as int].1.tree));
        }
        let tree_oid = self.repo.commits[ci].1.tree;
        match self.add_tree(store, tree_oid) {
            Ok(()) => {},
            Err(e) => {
                return Err(e);
            },
        }
        let parents = encode_parents(&self.repo.commits[ci].1.parents);
        let row = CommitRow {
            oid: commit_oid,
            tree: tree_oid,
            message: copy_bytes(&self.repo.commits[ci].1.message),
            parents,
            author_name: copy_bytes(&self.repo.commits[ci].1.author_name),
            author_email: copy_bytes(&self.repo.commits[ci].1.author_email),
            author_date: self.repo.commits[ci].1.author_date,
            committer_name: copy_bytes(&self.repo.commits[ci].1.committer_name),
            committer_email: copy_bytes(&self.repo.commits[ci].1.committer_email),
            committer_date: self.repo.commits[ci].1.committer_date,
        };
        let ghost rowv = row;
        let ghost pre = *store;
        let added = store.commit_insert(row);
        proof {
            lemma_store_grow(pre, *store, self.repo);
            assert(store.has_commit_row(commit_oid)) by {
                if added {
                    let last = store.commits@.len() - 1;
                    assert(store.commits@[last] == rowv);
                } else {
                    let k = choose|k: int|
                        0 <= k < pre.commits@.len() && pre.commits@[k].oid == commit_oid;
                    assert(store.commits@[k].oid == commit_oid);
                }
            }
            assert(commit_row_matches(rowv, self.repo, commit_oid));
            assert(tree_recorded(*store, self.repo, tree_oid));
            assert(closed_except(*store, self.repo, Seq::empty()));
        }
        Ok(())
    }
}

/// Tree `c` is a direct subtree of tree `t` in the snapshot.
pub open spec fn tree_edge(repo: Repo, t: Oid, c: Oid) -> bool {
    repo.has_tree(t) && exists|j: int|
        0 <= j < repo.children_of(t).len() && (#[trigger] repo.children_of(t)[j]).kind
            == ObjectKind::Tree && repo.children_of(t)[j].oid == c
}

/// Consecutive elements are joined by subtree edges.
pub open spec fn valid_tree_chain(repo: Repo, ch: Seq<Oid>) -> bool {
    forall|i: int| 0 <= i < ch.len() - 1 ==> #[trigger] tree_edge(repo, ch[i], ch[i + 1])
}

/// Tree `b` is tree `a` itself or one of its descendant subtrees.
pub open spec fn tree_reaches(repo: Repo, a: Oid, b: Oid) -> bool {
    exists|ch: Seq<Oid>| ch.len() >= 1 && ch[0] == a && ch.last() == b && valid_tree_chain(repo, ch)
}

/// The memoization is sound: once a tree's edges are recorded in a closed
/// store, every descendant tree's edges are recorded and every blob a
/// descendant references has its row — nothing under the tree needs to be
/// walked again.
pub proof fn lemma_subtree_ingested(store: Store, repo: Repo, root: Oid, t: Oid)
    requires
        repo.wf(),
        store_closed(store, repo),
        repo.has_tree(root),
        tree_recorded(store, repo, root),
        tree_reaches(repo, root, t),
    ensures
        tree_recorded(store, repo, t),
        forall|j: int|
            0 <= j < repo.children_of(t).len() && (#[trigger] repo.children_of(t)[j]).kind
                == ObjectKind::Blob && repo.has_blob(repo.children_of(t)[j].oid)
                ==> store.has_blob_row(repo.children_of(t)[j].oid),
{
    let ch = choose|ch: Seq<Oid>|
        ch.len() >= 1 && ch[0] == root && ch.last() == t && valid_tree_chain(repo, ch);
    lemma_tree_chain_recorded(store, repo, ch);
    assert forall|j: int|
        0 <= j < repo.children_of(t).len() && (#[trigger] repo.children_of(t)[j]).kind
            == ObjectKind::Blob && repo.has_blob(repo.children_of(t)[j].oid)
        implies store.has_blob_row(repo.children_of(t)[j].oid) by {
        assert(store.has_tree_entry(
            t,
            repo.children_of(t)[j].name@,
            repo.children_of(t)[j].kind,
            repo.children_of(t)[j].oid,
        ));
        let i = choose|i: int|
            0 <= i < store.tree_entries@.len() && (#[trigger] store.tree_entries@[i]).tree == t
                && store.tree_entries@[i].name@ == repo.children_of(t)[j].name@
                && store.tree_entries@[i].kind == repo.children_of(t)[j].kind
                && store.tree_entries@[i].child == repo.children_of(t)[j].oid;
    }
}

proof fn lemma_tree_chain_recorded(store: Store, repo: Repo, ch: Seq<Oid>)
    requires
        repo.wf(),
        store_closed(store, repo),
        valid_tree_chain(repo, ch),
        ch.len() >= 1,
        repo.has_tree(ch[0]),
        tree_recorded(store, repo, ch[0]),
    ensures
        tree_recorded(store, repo, ch.last()),
    decreases ch.len(),
{
    if ch.len() > 1 {
        let i0: int = 0;
        assert(tree_edge(repo, ch[i0], ch[i0 + 1]));
        let j = choose|j: int|
            0 <= j < repo.children_of(ch[0]).len() && (#[trigger] repo.children_of(ch[0])[j]).kind
                == ObjectKind::Tree && repo.children_of(ch[0])[j].oid == ch[1];
        assert(store.has_tree_entry(
            ch[0],
            repo.children_of(ch[0])[j].name@,
            repo.children_of(ch[0])[j].kind,
            repo.children_of(ch[0])[j].oid,
        ));
        let i = choose|i: int|
            0 <= i < store.tree_entries@.len() && (#[trigger] store.tree_entries@[i]).tree == ch[0]
                && store.tree_entries@[i].name@ == repo.children_of(ch[0])[j].name@
                && store.tree_entries@[i].kind == repo.children_of(ch[0])[j].kind
                && store.tree_entries@[i].child == repo.children_of(ch[0])[j].oid;
        // the snapshot is closed, so the subtree is a snapshot tree, and
        // the closed store then records its edges
        let ti = crate::repo::idx_of(repo.trees@, ch[0]);
        assert(repo.trees@[ti].0 == ch[0]);
        assert(repo.children_of(ch[0]) == repo.trees@[ti].1@);
        assert((repo.trees@[ti].1@[j]).kind == ObjectKind::Tree);
        assert(repo.has_tree(ch[1]));
        assert(tree_recorded(store, repo, ch[1])) by {
            assert(!Seq::<Oid>::empty().contains(ch[1]));
        }
        let ch2 = ch.drop_first();
        assert forall|k: int| 0 <= k < ch2.len() - 1 implies #[trigger] tree_edge(
            repo,
            ch2[k],
            ch2[k + 1],
        ) by {
            assert(ch2[k] == ch[k + 1] && ch2[k + 1] == ch[k + 2]);
        }
        lemma_tree_chain_recorded(store, repo, ch2);
        assert(ch2.last() == ch.last());
    }
}

} // verus!
