use crate::kind::ObjectKind;
use crate::oid::Oid;
use vstd::prelude::*;

verus! {

/// One commit's metadata, as read from the repository.
pub struct CommitInfo {
    pub tree: Oid,
    pub parents: Vec<Oid>,
    pub message: Vec<u8>,
    pub author_name: Vec<u8>,
    pub author_email: Vec<u8>,
    pub author_date: i64,
    pub committer_name: Vec<u8>,
    pub committer_email: Vec<u8>,
    pub committer_date: i64,
}

/// One labeled edge of a tree object: a named child with its kind.
pub struct TreeChild {
    pub name: Vec<u8>,
    pub kind: ObjectKind,
    pub oid: Oid,
}

/// A snapshot of the repository's object graph: the collaborator that reads
/// the real repository hands the library plain values in this shape.
/// Content addressing makes every key list free of duplicates.
pub struct Repo {
    pub commits: Vec<(Oid, CommitInfo)>,
    pub trees: Vec<(Oid, Vec<TreeChild>)>,
    pub blobs: Vec<(Oid, Vec<u8>)>,
}

/// Whether the association list `s` has an entry under key `k`.
pub open spec fn has_key<V>(s: Seq<(Oid, V)>, k: Oid) -> bool {
    exists|i: int| 0 <= i < s.len() && s[i].0 == k
}

/// The index of key `k` in `s`.
pub open spec fn idx_of<V>(s: Seq<(Oid, V)>, k: Oid) -> int {
    choose|i: int| 0 <= i < s.len() && s[i].0 == k
}

/// The value under key `k` in `s`.
pub open spec fn val_of<V>(s: Seq<(Oid, V)>, k: Oid) -> V {
    s[idx_of(s, k)].1
}

/// Whether the keys of the association list `s` are pairwise distinct.
pub open spec fn keys_distinct<V>(s: Seq<(Oid, V)>) -> bool {
    forall|i: int, j: int| 0 <= i < j < s.len() ==> s[i].0 != s[j].0
}

/// Find the index of key `k` in the association list `v`.
pub fn find_idx<V>(v: &Vec<(Oid, V)>, k: Oid) -> (r: Option<usize>)
    ensures
        match r {
            Some(i) => i < v@.len() && v@[i as int].0 == k,
            None => !has_key(v@, k),
        },
{
    let mut i: usize = 0;
    while i < v.len()
        invariant
            i <= v.len(),
            forall|j: int| 0 <= j < i ==> v@[j].0 != k,
        decreases v.len() - i,
    {
        if v[i].0 == k {
            return Some(i);
        }
        i += 1;
    }
    None
}

impl Repo {
    pub open spec fn has_commit(self, k: Oid) -> bool {
        has_key(self.commits@, k)
    }

    pub open spec fn has_tree(self, k: Oid) -> bool {
        has_key(self.trees@, k)
    }

    pub open spec fn has_blob(self, k: Oid) -> bool {
        has_key(self.blobs@, k)
    }

    pub open spec fn commit_of(self, k: Oid) -> CommitInfo {
        val_of(self.commits@, k)
    }

    pub open spec fn children_of(self, k: Oid) -> Seq<TreeChild> {
        val_of(self.trees@, k)@
    }

    pub open spec fn blob_of(self, k: Oid) -> Seq<u8> {
        val_of(self.blobs@, k)@
    }

    /// The association lists are keyed by content hash, so their keys are
    /// pairwise distinct.
    pub open spec fn keys_ok(self) -> bool {
        keys_distinct(self.commits@) && keys_distinct(self.trees@) && keys_distinct(self.blobs@)
    }

    /// Every object the snapshot refers to is present in the snapshot:
    /// parents and root trees of commits, tree children of trees, blob
    /// children of trees.
    pub open spec fn closed(self) -> bool {
        &&& forall|i: int|
            0 <= i < self.commits@.len() ==> self.has_tree(#[trigger] self.commits@[i].1.tree)
        &&& forall|i: int, j: int|
            0 <= i < self.commits@.len() && 0 <= j < self.commits@[i].1.parents@.len()
                ==> self.has_commit(#[trigger] self.commits@[i].1.parents@[j])
        &&& forall|i: int, j: int|
            0 <= i < self.trees@.len() && 0 <= j < self.trees@[i].1@.len() ==> {
                &&& ((#[trigger] self.trees@[i].1@[j]).kind == ObjectKind::Tree ==> self.has_tree(
                    self.trees@[i].1@[j].oid,
                ))
                &&& (self.trees@[i].1@[j].kind == ObjectKind::Blob ==> self.has_blob(
                    self.trees@[i].1@[j].oid,
                ))
            }
    }

    pub open spec fn wf(self) -> bool {
        self.keys_ok() && self.closed()
    }

    /// An empty snapshot.
    pub fn new() -> (r: Repo)
        ensures
            r.commits@.len() == 0,
            r.trees@.len() == 0,
            r.blobs@.len() == 0,
            r.wf(),
    {
        Repo { commits: Vec::new(), trees: Vec::new(), blobs: Vec::new() }
    }

    /// Check that the snapshot is closed, naming a missing object if not.
    pub fn check_closed(&self) -> (r: Result<(), crate::err::IngestError>)
        ensures
            r matches Ok(()) <==> self.closed(),
            r matches Err(e) ==> e matches crate::err::IngestError::MissingObject(_),
    {
        let mut i: usize = 0;
        while i < self.commits.len()
            invariant
                i <= self.commits@.len(),
                forall|a: int| 0 <= a < i ==> self.has_tree(#[trigger] self.commits@[a].1.tree),
                forall|a: int, j: int|
                    0 <= a < i && 0 <= j < self.commits@[a].1.parents@.len() ==> self.has_commit(
                        #[trigger] self.commits@[a].1.parents@[j],
                    ),
            decreases self.commits@.len() - i,
        {
            match find_idx(&self.trees, self.commits[i].1.tree) {
                None => {
                    assert(!self.closed());
                    return Err(crate::err::IngestError::MissingObject(self.commits[i].1.tree));
                },
                Some(_) => {
                    assert(self.has_tree(self.commits@[i as int].1.tree));
                },
            }
            let mut j: usize = 0;
            while j < self.commits[i].1.parents.len()
                invariant
                    i < self.commits@.len(),
                    j <= self.commits@[i as int].1.parents@.len(),
                    self.has_tree(self.commits@[i as int].1.tree),
                    forall|b: int|
                        0 <= b < j ==> self.has_commit(
                            #[trigger] self.commits@[i as int].1.parents@[b],
                        ),
                decreases self.commits@[i as int].1.parents@.len() - j,
            {
                match find_idx(&self.commits, self.commits[i].1.parents[j]) {
                    None => {
                        assert(!self.has_commit(self.commits@[i as int].1.parents@[j as int]));
                        assert(!self.closed());
                        return Err(
                            crate::err::IngestError::MissingObject(self.commits[i].1.parents[j]),
                        );
                    },
                    Some(_) => {
                        assert(self.has_commit(self.commits@[i as int].1.parents@[j as int]));
                    },
                }
                j += 1;
            }
            assert(forall|b: int|
                0 <= b < self.commits@[i as int].1.parents@.len() ==> self.has_commit(
                    #[trigger] self.commits@[i as int].1.parents@[b],
                ));
            i += 1;
        }
        let mut i: usize = 0;
        while i < self.trees.len()
            invariant
                i <= self.trees@.len(),
                forall|a: int, j: int|
                    0 <= a < i && 0 <= j < self.trees@[a].1@.len() ==> {
                        &&& ((#[trigger] self.trees@[a].1@[j]).kind == ObjectKind::Tree
                            ==> self.has_tree(self.trees@[a].1@[j].oid))
                        &&& (self.trees@[a].1@[j].kind == ObjectKind::Blob ==> self.has_blob(
                            self.trees@[a].1@[j].oid,
                        ))
                    },
                forall|a: int|
                    0 <= a < self.commits@.len() ==> self.has_tree(
                        #[trigger] self.commits@[a].1.tree,
                    ),
                forall|a: int, j: int|
                    0 <= a < self.commits@.len() && 0 <= j < self.commits@[a].1.parents@.len()
                        ==> self.has_commit(#[trigger] self.commits@[a].1.parents@[j]),
            decreases self.trees@.len() - i,
        {
            let mut j: usize = 0;
            while j < self.trees[i].1.len()
                invariant
                    i < self.trees@.len(),
                    j <= self.trees@[i as int].1@.len(),
                    forall|b: int|
                        0 <= b < j ==> {
                            &&& ((#[trigger] self.trees@[i as int].1@[b]).kind == ObjectKind::Tree
                                ==> self.has_tree(self.trees@[i as int].1@[b].oid))
                            &&& (self.trees@[i as int].1@[b].kind == ObjectKind::Blob
                                ==> self.has_blob(self.trees@[i as int].1@[b].oid))
                        },
                decreases self.trees@[i as int].1@.len() - j,
            {
                let ck = self.trees[i].1[j].kind;
                let co = self.trees[i].1[j].oid;
                if matches!(ck, ObjectKind::Tree) {
                    match find_idx(&self.trees, co) {
                        None => {
                            assert(!self.closed());
                            return Err(crate::err::IngestError::MissingObject(co));
                        },
                        Some(_) => {
                            assert(self.has_tree(co));
                        },
                    }
                } else if matches!(ck, ObjectKind::Blob) {
                    match find_idx(&self.blobs, co) {
                        None => {
                            assert(!self.closed());
                            return Err(crate::err::IngestError::MissingObject(co));
                        },
                        Some(_) => {
                            assert(self.has_blob(co));
                        },
                    }
                }
                j += 1;
            }
            i += 1;
        }
        Ok(())
    }
}

} // verus!
