use crate::bytes::bytes_eq;
use crate::kind::ObjectKind;
use crate::oid::Oid;
use vstd::prelude::*;

verus! {

/// The last durably recorded target of one reference of one repository.
pub struct RefRow {
    pub repo_id: u32,
    pub name: Vec<u8>,
    pub target: Oid,
}

/// One persisted commit.  `parents` holds the parent hashes as a fixed
/// stride concatenation, 20 bytes per parent.
pub struct CommitRow {
    pub oid: Oid,
    pub tree: Oid,
    pub message: Vec<u8>,
    pub parents: Vec<u8>,
    pub author_name: Vec<u8>,
    pub author_email: Vec<u8>,
    pub author_date: i64,
    pub committer_name: Vec<u8>,
    pub committer_email: Vec<u8>,
    pub committer_date: i64,
}

/// One persisted tree edge, unique on the whole quadruple.
pub struct TreeEntryRow {
    pub tree: Oid,
    pub name: Vec<u8>,
    pub kind: ObjectKind,
    pub child: Oid,
}

/// One persisted blob: compressed, deduplicated file content.
pub struct BlobRow {
    pub oid: Oid,
    pub content_lz4: Vec<u8>,
}

/// The relational store, one field per table.  Every table is insert-only
/// but `direct_refs`, whose targets are overwritten between runs.
pub struct Store {
    pub direct_refs: Vec<RefRow>,
    pub commits: Vec<CommitRow>,
    pub tree_entries: Vec<TreeEntryRow>,
    pub blobs: Vec<BlobRow>,
}

impl Store {
    pub open spec fn has_commit_row(self, oid: Oid) -> bool {
        exists|i: int| 0 <= i < self.commits@.len() && self.commits@[i].oid == oid
    }

    pub open spec fn has_blob_row(self, oid: Oid) -> bool {
        exists|i: int| 0 <= i < self.blobs@.len() && self.blobs@[i].oid == oid
    }

    pub open spec fn blob_content_of(self, oid: Oid) -> Seq<u8> {
        self.blobs@[choose|i: int| 0 <= i < self.blobs@.len() && self.blobs@[i].oid
            == oid].content_lz4@
    }

    pub open spec fn has_tree_entry(self, tree: Oid, name: Seq<u8>, kind: ObjectKind, child: Oid) -> bool {
        exists|i: int|
            0 <= i < self.tree_entries@.len() && (#[trigger] self.tree_entries@[i]).tree == tree
                && self.tree_entries@[i].name@ == name && self.tree_entries@[i].kind == kind
                && self.tree_entries@[i].child == child
    }

    pub open spec fn has_ref(self, repo_id: u32, name: Seq<u8>) -> bool {
        exists|i: int|
            0 <= i < self.direct_refs@.len() && self.direct_refs@[i].repo_id == repo_id
                && self.direct_refs@[i].name@ == name
    }

    /// The recorded target of a reference, if one is recorded.
    pub open spec fn ref_target(self, repo_id: u32, name: Seq<u8>) -> Option<Oid> {
        if self.has_ref(repo_id, name) {
            Some(
                self.direct_refs@[choose|i: int|
                    0 <= i < self.direct_refs@.len() && self.direct_refs@[i].repo_id == repo_id
                        && self.direct_refs@[i].name@ == name].target,
            )
        } else {
            None
        }
    }

    /// Primary keys: commits and blobs by hash, tree entries by the whole
    /// quadruple, references by (repository, name).
    pub open spec fn wf(self) -> bool {
        &&& forall|i: int, j: int|
            0 <= i < j < self.commits@.len() ==> self.commits@[i].oid != self.commits@[j].oid
        &&& forall|i: int, j: int|
            0 <= i < j < self.blobs@.len() ==> self.blobs@[i].oid != self.blobs@[j].oid
        &&& forall|i: int, j: int|
            0 <= i < j < self.tree_entries@.len() ==> !((#[trigger] self.tree_entries@[i]).tree
                == (#[trigger] self.tree_entries@[j]).tree && self.tree_entries@[i].name@
                == self.tree_entries@[j].name@ && self.tree_entries@[i].kind
                == self.tree_entries@[j].kind && self.tree_entries@[i].child
                == self.tree_entries@[j].child)
        &&& forall|i: int, j: int|
            0 <= i < j < self.direct_refs@.len() ==> !(self.direct_refs@[i].repo_id
                == self.direct_refs@[j].repo_id && self.direct_refs@[i].name@
                == self.direct_refs@[j].name@)
    }

    /// An empty store.
    pub fn new() -> (r: Store)
        ensures
            r.direct_refs@.len() == 0,
            r.commits@.len() == 0,
            r.tree_entries@.len() == 0,
            r.blobs@.len() == 0,
            r.wf(),
    {
        Store {
            direct_refs: Vec::new(),
            commits: Vec::new(),
            tree_entries: Vec::new(),
            blobs: Vec::new(),
        }
    }

    /// Whether a blob row for `oid` is present.
    pub fn blob_exists(&self, oid: Oid) -> (r: bool)
        ensures
            r == self.has_blob_row(oid),
    {
        let mut i: usize = 0;
        while i < self.blobs.len()
            invariant
                i <= self.blobs@.len(),
                forall|j: int| 0 <= j < i ==> self.blobs@[j].oid != oid,
            decreases self.blobs@.len() - i,
        {
            if self.blobs[i].oid == oid {
                return true;
            }
            i += 1;
        }
        false
    }

    /// Insert a blob row if none exists for its hash; report whether a row
    /// was added.
    pub fn blob_insert(&mut self, oid: Oid, content_lz4: Vec<u8>) -> (r: bool)
        requires
            old(self).wf(),
        ensures
            final(self).wf(),
            r == !old(self).has_blob_row(oid),
            r ==> final(self).blobs@ == old(self).blobs@.push(
                BlobRow { oid, content_lz4 },
            ) && final(self).blobs@.last().content_lz4@ == content_lz4@,
            !r ==> final(self).blobs@ == old(self).blobs@,
            final(self).commits@ == old(self).commits@,
            final(self).tree_entries@ == old(self).tree_entries@,
            final(self).direct_refs@ == old(self).direct_refs@,
    {
        if self.blob_exists(oid) {
            return false;
        }
        self.blobs.push(BlobRow { oid, content_lz4 });
        true
    }

    /// Insert a commit row if none exists for its hash; report whether a
    /// row was added.
    pub fn commit_insert(&mut self, row: CommitRow) -> (r: bool)
        requires
            old(self).wf(),
        ensures
            final(self).wf(),
            r == !old(self).has_commit_row(row.oid),
            r ==> final(self).commits@ == old(self).commits@.push(row),
            !r ==> final(self).commits@ == old(self).commits@,
            final(self).blobs@ == old(self).blobs@,
            final(self).tree_entries@ == old(self).tree_entries@,
            final(self).direct_refs@ == old(self).direct_refs@,
    {
        let mut i: usize = 0;
        while i < self.commits.len()
            invariant
                *self == *old(self),
                self.wf(),
                i <= self.commits@.len(),
                forall|j: int| 0 <= j < i ==> self.commits@[j].oid != row.oid,
            decreases self.commits@.len() - i,
        {
            if self.commits[i].oid == row.oid {
                return false;
            }
            i += 1;
        }
        self.commits.push(row);
        true
    }

    /// Insert a tree edge if the exact quadruple is absent; report whether
    /// a row was added.  This report is what drives the memoized walk.
    pub fn tree_entry_insert(&mut self, row: TreeEntryRow) -> (r: bool)
        requires
            old(self).wf(),
        ensures
            final(self).wf(),
            r == !old(self).has_tree_entry(row.tree, row.name@, row.kind, row.child),
            r ==> final(self).tree_entries@ == old(self).tree_entries@.push(row),
            !r ==> final(self).tree_entries@ == old(self).tree_entries@,
            final(self).blobs@ == old(self).blobs@,
            final(self).commits@ == old(self).commits@,
            final(self).direct_refs@ == old(self).direct_refs@,
    {
        let mut i: usize = 0;
        while i < self.tree_entries.len()
            invariant
                *self == *old(self),
                self.wf(),
                i <= self.tree_entries@.len(),
                forall|j: int|
                    0 <= j < i ==> !((#[trigger] self.tree_entries@[j]).tree == row.tree
                        && self.tree_entries@[j].name@ == row.name@ && self.tree_entries@[j].kind
                        == row.kind && self.tree_entries@[j].child == row.child),
            decreases self.tree_entries@.len() - i,
        {
            let e = &self.tree_entries[i];
            if e.tree == row.tree && e.kind == row.kind && e.child == row.child && bytes_eq(
                &e.name,
                &row.name,
            ) {
                return false;
            }
            i += 1;
        }
        self.tree_entries.push(row);
        true
    }

    /// Record `target` as the last-known target of a reference, replacing
    /// any previously recorded target.
    #[verifier::rlimit(60)]
    pub fn ref_set(&mut self, repo_id: u32, name: Vec<u8>, target: Oid)
        requires
            old(self).wf(),
        ensures
            final(self).wf(),
            final(self).ref_target(repo_id, name@) == Some(target),
            forall|rid: u32, n: Seq<u8>|
                !(rid == repo_id && n == name@) ==> #[trigger] final(self).ref_target(rid, n)
                    == old(self).ref_target(rid, n),
            final(self).blobs@ == old(self).blobs@,
            final(self).commits@ == old(self).commits@,
            final(self).tree_entries@ == old(self).tree_entries@,
    {
        let ghost prev = self.direct_refs@;
        let mut i: usize = 0;
        let mut found = false;
        while i < self.direct_refs.len() && !found
            invariant
                *self == *old(self),
                self.wf(),
                i <= self.direct_refs@.len(),
                self.direct_refs@ == prev,
                !found ==> forall|j: int|
                    0 <= j < i ==> !(prev[j].repo_id == repo_id && prev[j].name@ == name@),
                found ==> i < prev.len() && prev[i as int].repo_id == repo_id
                    && prev[i as int].name@ == name@,
            decreases self.direct_refs@.len() - i + if found { 0int } else { 1int },
        {
            if self.direct_refs[i].repo_id == repo_id && bytes_eq(&self.direct_refs[i].name, &name)
            {
                found = true;
            } else {
                i += 1;
            }
        }
        if found {
            self.direct_refs.swap_remove(i);
        }
        let ghost mid = self.direct_refs@;
        proof {
            // positions of mid relate to positions of prev
            assert forall|k: int| 0 <= k < mid.len() implies mid[k] == prev[k] || (found && k
                == i as int && mid[k] == prev[prev.len() - 1]) by {
                if found {
                    assert(mid =~= prev.update(i as int, prev[prev.len() - 1]).drop_last());
                }
            }
            // no row of mid carries the written key
            assert forall|k: int|
                0 <= k < mid.len() implies !(mid[k].repo_id == repo_id && mid[k].name@
                == name@) by {
                if found {
                    if mid[k] == prev[k] && k != i as int {
                        if mid[k].repo_id == repo_id && mid[k].name@ == name@ {
                            assert(false);
                        }
                    } else {
                        if mid[k].repo_id == repo_id && mid[k].name@ == name@ {
                            assert(false);
                        }
                    }
                }
            }
            // prev rows with another key survive in mid
            assert forall|l: int|
                0 <= l < prev.len() && !(prev[l].repo_id == repo_id && prev[l].name@
                    == name@) implies exists|k: int| 0 <= k < mid.len() && #[trigger] mid[k]
                == prev[l] by {
                if found {
                    if l == prev.len() - 1 {
                        assert(i as int != l);
                        assert(mid[i as int] == prev[l]);
                    } else if l == i as int {
                        assert(false);
                    } else {
                        assert(mid[l] == prev[l]);
                    }
                } else {
                    assert(mid[l] == prev[l]);
                }
            }
            // keys in mid are still pairwise distinct
            assert forall|a: int, b: int|
                0 <= a < b < mid.len() implies !(mid[a].repo_id == mid[b].repo_id && mid[a].name@
                == mid[b].name@) by {
                if found {
                    if mid[a] == prev[a] && mid[b] == prev[b] {
                    } else if mid[a] == prev[a] && b == i as int {
                        assert(mid[b] == prev[prev.len() - 1]);
                        assert(a != prev.len() - 1);
                    } else if a == i as int && mid[b] == prev[b] {
                        assert(mid[a] == prev[prev.len() - 1]);
                        assert(b != prev.len() - 1);
                    }
                }
            }
        }
        let row = RefRow { repo_id, name, target };
        self.direct_refs.push(row);
        proof {
            let cur = self.direct_refs@;
            let last = cur.len() - 1;
            assert(cur[last].repo_id == repo_id && cur[last].name@ == name@ && cur[last].target
                == target);
            assert(final(self).has_ref(repo_id, name@));
            let k = choose|k: int|
                0 <= k < cur.len() && cur[k].repo_id == repo_id && cur[k].name@ == name@;
            assert(k == last);
            assert forall|rid: u32, n: Seq<u8>|
                !(rid == repo_id && n == name@) implies #[trigger] final(self).ref_target(rid, n)
                == old(self).ref_target(rid, n) by {
                if old(self).has_ref(rid, n) {
                    let l = choose|l: int|
                        0 <= l < prev.len() && prev[l].repo_id == rid && prev[l].name@ == n;
                    assert(!(prev[l].repo_id == repo_id && prev[l].name@ == name@));
                    let k2 = choose|k2: int| 0 <= k2 < mid.len() && mid[k2] == prev[l];
                    assert(cur[k2] == prev[l]);
                    assert(final(self).has_ref(rid, n));
                    let m = choose|m: int|
                        0 <= m < cur.len() && cur[m].repo_id == rid && cur[m].name@ == n;
                    // both rows carry the same key, and keys are unique
                    if m != k2 {
                        if m == last {
                            assert(false);
                        } else {
                            assert(!(mid[m].repo_id == mid[k2].repo_id && mid[m].name@
                                == mid[k2].name@));
                            assert(false);
                        }
                    }
                } else {
                    if final(self).has_ref(rid, n) {
                        let m = choose|m: int|
                            0 <= m < cur.len() && cur[m].repo_id == rid && cur[m].name@ == n;
                        assert(m != last);
                        let l = choose|l: int| 0 <= l < prev.len() && prev[l] == mid[m];
                        assert(false);
                    }
                }
            }
        }
    }

    /// The recorded target of a reference, if any.
    pub fn ref_target_get(&self, repo_id: u32, name: &Vec<u8>) -> (r: Option<Oid>)
        requires
            self.wf(),
        ensures
            r == self.ref_target(repo_id, name@),
    {
        let mut i: usize = 0;
        while i < self.direct_refs.len()
            invariant
                self.wf(),
                i <= self.direct_refs@.len(),
                forall|j: int|
                    0 <= j < i ==> !(self.direct_refs@[j].repo_id == repo_id
                        && self.direct_refs@[j].name@ == name@),
            decreases self.direct_refs@.len() - i,
        {
            if self.direct_refs[i].repo_id == repo_id && bytes_eq(&self.direct_refs[i].name, name) {
                proof {
                    let k = choose|k: int|
                        0 <= k < self.direct_refs@.len() && self.direct_refs@[k].repo_id == repo_id
                            && self.direct_refs@[k].name@ == name@;
                    assert(k == i as int);
                }
                return Some(self.direct_refs[i].target);
            }
            i += 1;
        }
        None
    }
}

/// Content addressing: a well-formed store never holds two blob rows under
/// one hash, so content that hashes identically is stored exactly once, no
/// matter how many trees reference it.
pub proof fn lemma_blob_row_unique(store: Store, i: int, j: int)
    requires
        store.wf(),
        0 <= i < store.blobs@.len(),
        0 <= j < store.blobs@.len(),
        store.blobs@[i].oid == store.blobs@[j].oid,
    ensures
        i == j,
{
}

} // verus!
