use repomirror::codec::{compress_content, decompress_content};
use repomirror::err::IngestError;
use repomirror::ingest::Ingestor;
use repomirror::kind::{object_type_from_int, object_type_to_int, ObjectKind};
use repomirror::oid::Oid;
use repomirror::refdiff::{compare_refs, LiveRef};
use repomirror::repo::{CommitInfo, Repo, TreeChild};
use repomirror::run::run_ingest;
use repomirror::store::Store;
use repomirror::walk::walk_commits;

fn oid(n: u64) -> Oid {
    Oid { hi: n, mid: 0, lo: 0 }
}

fn commit(tree: Oid, parents: Vec<Oid>) -> CommitInfo {
    CommitInfo {
        tree,
        parents,
        message: b"msg".to_vec(),
        author_name: b"a".to_vec(),
        author_email: b"a@x".to_vec(),
        author_date: 1,
        committer_name: b"c".to_vec(),
        committer_email: b"c@x".to_vec(),
        committer_date: 2,
    }
}

fn child(name: &[u8], kind: ObjectKind, o: Oid) -> TreeChild {
    TreeChild { name: name.to_vec(), kind, oid: o }
}

fn live(name: &[u8], target: Oid) -> LiveRef {
    LiveRef { name: name.to_vec(), target }
}

fn index_of(v: &[Oid], x: Oid) -> usize {
    v.iter().position(|&o| o == x).unwrap()
}

#[test]
fn kind_tags_round_trip() {
    let kinds = [
        ObjectKind::Unknown,
        ObjectKind::Any,
        ObjectKind::Commit,
        ObjectKind::Tree,
        ObjectKind::Blob,
        ObjectKind::Tag,
    ];
    for (i, k) in kinds.iter().enumerate() {
        assert_eq!(object_type_to_int(*k) as usize, i);
        assert_eq!(object_type_from_int(i as u8).unwrap(), *k);
    }
    assert_eq!(
        object_type_from_int(9),
        Err(IngestError::UnknownKindTag(9))
    );
}

#[test]
fn compress_round_trip() {
    let raw = b"hello, compressed world".to_vec();
    let frame = compress_content(&raw).unwrap();
    let back = decompress_content(&frame).unwrap();
    assert_eq!(back, raw);
}

#[test]
fn compress_empty_round_trip() {
    let raw: Vec<u8> = Vec::new();
    let frame = compress_content(&raw).unwrap();
    let back = decompress_content(&frame).unwrap();
    assert_eq!(back, raw);
}

/// The concrete end-to-end scenario: stored `main` at A (empty tree), live
/// `main` at B adding `f.txt` with content `"hi"`.
#[test]
fn scenario_main_moves_one_commit() {
    let a = oid(1);
    let b = oid(2);
    let tree_a = oid(10);
    let tree_b = oid(11);
    let blob_hi = oid(20);
    let mk = || Repo {
        commits: vec![(a, commit(tree_a, vec![])), (b, commit(tree_b, vec![a]))],
        trees: vec![
            (tree_a, vec![]),
            (tree_b, vec![child(b"f.txt", ObjectKind::Blob, blob_hi)]),
        ],
        blobs: vec![(blob_hi, b"hi".to_vec())],
    };
    let mut store = Store::new();
    // first run: main at A
    let rep0 = run_ingest(mk(), &mut store, 7, &vec![live(b"refs/heads/main", a)]).unwrap();
    assert_eq!(rep0.commits_ingested, vec![a]);
    assert_eq!(store.commits.len(), 1);
    assert_eq!(store.tree_entries.len(), 0);
    assert_eq!(store.blobs.len(), 0);

    // second run: live main moved to B
    let rep = run_ingest(mk(), &mut store, 7, &vec![live(b"refs/heads/main", b)]).unwrap();
    assert_eq!(rep.diffs.len(), 1);
    assert_eq!(rep.diffs[0].name, b"refs/heads/main".to_vec());
    assert_eq!(rep.diffs[0].old_target, Some(a));
    assert_eq!(rep.diffs[0].new_target, Some(b));
    assert_eq!(rep.commits_ingested, vec![b]);
    // one new commit row, one tree entry, one blob
    assert_eq!(store.commits.len(), 2);
    assert_eq!(store.tree_entries.len(), 1);
    assert_eq!(store.blobs.len(), 1);
    let row = &store.tree_entries[0];
    assert_eq!(row.tree, tree_b);
    assert_eq!(row.name, b"f.txt".to_vec());
    assert_eq!(row.kind, ObjectKind::Blob);
    assert_eq!(row.child, blob_hi);
    let blob = &store.blobs[0];
    assert_eq!(blob.oid, blob_hi);
    assert_eq!(decompress_content(&blob.content_lz4).unwrap(), b"hi".to_vec());
    // A's data untouched, reference recorded at B
    assert_eq!(store.commits[0].oid, a);
    assert_eq!(
        store.ref_target_get(7, &b"refs/heads/main".to_vec()),
        Some(b)
    );
    // commit row contents for B
    let brow = &store.commits[1];
    assert_eq!(brow.oid, b);
    assert_eq!(brow.tree, tree_b);
    assert_eq!(brow.message, b"msg".to_vec());
    assert_eq!(brow.parents.len(), 20);
    assert_eq!(brow.author_date, 1);
    assert_eq!(brow.committer_date, 2);
}

/// Running ingestion twice against an unchanged repository adds nothing.
#[test]
fn idempotent_second_run() {
    let a = oid(1);
    let tree_a = oid(10);
    let blob = oid(20);
    let mk = || Repo {
        commits: vec![(a, commit(tree_a, vec![]))],
        trees: vec![(tree_a, vec![child(b"x", ObjectKind::Blob, blob)])],
        blobs: vec![(blob, b"data".to_vec())],
    };
    let mut store = Store::new();
    let lv = vec![live(b"refs/heads/main", a)];
    run_ingest(mk(), &mut store, 1, &lv).unwrap();
    let commits = store.commits.len();
    let entries = store.tree_entries.len();
    let blobs = store.blobs.len();
    let refs = store.direct_refs.len();
    let rep = run_ingest(mk(), &mut store, 1, &lv).unwrap();
    assert_eq!(rep.diffs.len(), 0);
    assert_eq!(rep.commits_ingested.len(), 0);
    assert_eq!(store.commits.len(), commits);
    assert_eq!(store.tree_entries.len(), entries);
    assert_eq!(store.blobs.len(), blobs);
    assert_eq!(store.direct_refs.len(), refs);
}

/// Identical content appears as exactly one blob row however many trees
/// reference it.
#[test]
fn content_addressed_blob_dedup() {
    let a = oid(1);
    let tree_a = oid(10);
    let sub = oid(11);
    let blob = oid(20);
    let repo = Repo {
        commits: vec![(a, commit(tree_a, vec![]))],
        trees: vec![
            (
                tree_a,
                vec![
                    child(b"one", ObjectKind::Blob, blob),
                    child(b"dir", ObjectKind::Tree, sub),
                ],
            ),
            (sub, vec![child(b"two", ObjectKind::Blob, blob)]),
        ],
        blobs: vec![(blob, b"same".to_vec())],
    };
    let mut store = Store::new();
    run_ingest(repo, &mut store, 1, &vec![live(b"refs/heads/main", a)]).unwrap();
    let rows: Vec<_> = store.blobs.iter().filter(|r| r.oid == blob).collect();
    assert_eq!(rows.len(), 1);
    assert_eq!(store.blobs.len(), 1);
}

/// A subtree that is already recorded is not walked again: adding a second
/// tree that reuses it issues no blob check and recurses no further.
#[test]
fn memoized_subtree_not_rewalked() {
    let shared = oid(10);
    let root1 = oid(11);
    let root2 = oid(12);
    let blob = oid(20);
    let repo = Repo {
        commits: vec![],
        trees: vec![
            (shared, vec![child(b"f", ObjectKind::Blob, blob)]),
            (root1, vec![child(b"d", ObjectKind::Tree, shared)]),
            (root2, vec![child(b"e", ObjectKind::Tree, shared)]),
        ],
        blobs: vec![(blob, b"content".to_vec())],
    };
    let mut store = Store::new();
    let mut ing = Ingestor::new(repo);
    ing.add_tree(&mut store, root1).unwrap();
    assert_eq!(ing.stats.entries_added, 2);
    assert_eq!(ing.stats.blob_checks, 1);
    // the shared subtree is found at a different path; its entries exist
    ing.add_tree(&mut store, root2).unwrap();
    assert_eq!(ing.stats.entries_added, 1);
    assert_eq!(ing.stats.blob_checks, 0);
    assert_eq!(store.blobs.len(), 1);
}

/// Parents are ingested before their children.
#[test]
fn topological_order_parents_first() {
    let a = oid(1);
    let b = oid(2);
    let c = oid(3);
    let m = oid(4);
    let t = oid(10);
    let repo = Repo {
        commits: vec![
            (c, commit(t, vec![b])),
            (m, commit(t, vec![a, b])),
            (b, commit(t, vec![a])),
            (a, commit(t, vec![])),
        ],
        trees: vec![(t, vec![])],
        blobs: vec![],
    };
    let mut store = Store::new();
    let rep = run_ingest(
        repo,
        &mut store,
        1,
        &vec![live(b"refs/heads/x", c), live(b"refs/heads/y", m)],
    )
    .unwrap();
    let order = &rep.commits_ingested;
    assert_eq!(order.len(), 4);
    assert!(index_of(order, a) < index_of(order, b));
    assert!(index_of(order, b) < index_of(order, c));
    assert!(index_of(order, a) < index_of(order, m));
    assert!(index_of(order, b) < index_of(order, m));
}

/// The walk emits exactly the commits reachable from the new target and
/// not from the old one, the classic two-sided range.
#[test]
fn ref_diff_exclusion_range() {
    let a = oid(1);
    let b = oid(2);
    let base = oid(3);
    let t = oid(10);
    let repo = Repo {
        commits: vec![
            (base, commit(t, vec![])),
            (a, commit(t, vec![base])),
            (b, commit(t, vec![a])),
        ],
        trees: vec![(t, vec![])],
        blobs: vec![],
    };
    let store = Store::new();
    let live_refs = vec![live(b"refs/heads/main", b)];
    let mut stored = store;
    stored.ref_set(1, b"refs/heads/main".to_vec(), a);
    let diffs = compare_refs(&stored, 1, &live_refs);
    assert_eq!(diffs.len(), 1);
    assert_eq!(diffs[0].old_target, Some(a));
    assert_eq!(diffs[0].new_target, Some(b));
    let order = walk_commits(&repo, &diffs).unwrap();
    assert_eq!(order, vec![b]);
}

/// A pair whose old and new targets agree contributes nothing.
#[test]
fn walker_tolerates_equal_targets() {
    let a = oid(1);
    let t = oid(10);
    let repo = Repo {
        commits: vec![(a, commit(t, vec![]))],
        trees: vec![(t, vec![])],
        blobs: vec![],
    };
    let diffs = vec![repomirror::refdiff::RefDiff {
        name: b"refs/heads/main".to_vec(),
        old_target: Some(a),
        new_target: Some(a),
    }];
    let order = walk_commits(&repo, &diffs).unwrap();
    assert_eq!(order.len(), 0);
}

/// A reference present only in the store (deleted live) yields no diff; an
/// unchanged one yields none either; a new one carries no old target.
#[test]
fn differ_rules() {
    let a = oid(1);
    let b = oid(2);
    let mut store = Store::new();
    store.ref_set(1, b"refs/heads/kept".to_vec(), a);
    store.ref_set(1, b"refs/heads/gone".to_vec(), a);
    store.ref_set(2, b"refs/heads/other-repo".to_vec(), a);
    let live_refs = vec![live(b"refs/heads/kept", a), live(b"refs/heads/new", b)];
    let diffs = compare_refs(&store, 1, &live_refs);
    assert_eq!(diffs.len(), 1);
    assert_eq!(diffs[0].name, b"refs/heads/new".to_vec());
    assert_eq!(diffs[0].old_target, None);
    assert_eq!(diffs[0].new_target, Some(b));
}

/// An aborted run leaves the store exactly as it was: none of the commits'
/// rows, not some of them.
#[test]
fn atomic_abort_on_missing_object() {
    let t = oid(10);
    let mut commits = Vec::new();
    let mut prev: Option<Oid> = None;
    for i in 1..=10u64 {
        let c = oid(i);
        let parents = match prev {
            Some(p) => vec![p],
            None => vec![],
        };
        // the fifth commit points at a tree the reader cannot return
        let tree = if i == 5 { oid(99) } else { t };
        commits.push((c, commit(tree, parents)));
        prev = Some(c);
    }
    let repo = Repo { commits, trees: vec![(t, vec![])], blobs: vec![] };
    let mut store = Store::new();
    store.ref_set(1, b"refs/heads/other".to_vec(), oid(42));
    let refs_before = store.direct_refs.len();
    let r = run_ingest(repo, &mut store, 1, &vec![live(b"refs/heads/main", oid(10))]);
    assert_eq!(r.err(), Some(IngestError::MissingObject(oid(99))));
    assert_eq!(store.commits.len(), 0);
    assert_eq!(store.tree_entries.len(), 0);
    assert_eq!(store.blobs.len(), 0);
    assert_eq!(store.direct_refs.len(), refs_before);
}

/// A cyclic commit graph is reported, not looped over.
#[test]
fn cycle_detected() {
    let a = oid(1);
    let b = oid(2);
    let t = oid(10);
    let repo = Repo {
        commits: vec![(a, commit(t, vec![b])), (b, commit(t, vec![a]))],
        trees: vec![(t, vec![])],
        blobs: vec![],
    };
    let mut store = Store::new();
    let r = run_ingest(repo, &mut store, 1, &vec![live(b"refs/heads/main", a)]);
    assert_eq!(r.err(), Some(IngestError::CycleDetected));
    assert_eq!(store.commits.len(), 0);
}

/// A live target the repository cannot resolve aborts the run.
#[test]
fn missing_target_reported() {
    let repo = Repo { commits: vec![], trees: vec![], blobs: vec![] };
    let mut store = Store::new();
    let r = run_ingest(repo, &mut store, 1, &vec![live(b"refs/heads/main", oid(5))]);
    assert_eq!(r.err(), Some(IngestError::MissingObject(oid(5))));
}

/// Submodule links and tags are recorded as rows but never walked into and
/// never fetch content.
#[test]
fn other_kinds_recorded_not_walked() {
    let a = oid(1);
    let t = oid(10);
    let module = oid(30);
    let tagged = oid(31);
    let repo = Repo {
        commits: vec![(a, commit(t, vec![]))],
        trees: vec![(
            t,
            vec![
                child(b"module", ObjectKind::Commit, module),
                child(b"tagged", ObjectKind::Tag, tagged),
            ],
        )],
        blobs: vec![],
    };
    let mut store = Store::new();
    run_ingest(repo, &mut store, 1, &vec![live(b"refs/heads/main", a)]).unwrap();
    assert_eq!(store.tree_entries.len(), 2);
    assert_eq!(store.tree_entries[0].kind, ObjectKind::Commit);
    assert_eq!(store.tree_entries[1].kind, ObjectKind::Tag);
    assert_eq!(store.blobs.len(), 0);
    assert_eq!(store.commits.len(), 1);
}

/// A hash survives the trip through its 20-byte form.
#[test]
fn oid_bytes_round_trip() {
    let o = Oid { hi: 0x0102030405060708, mid: 0x090a0b0c0d0e0f10, lo: 0x11121314 };
    let mut bytes: Vec<u8> = Vec::new();
    o.push_bytes(&mut bytes);
    assert_eq!(bytes.len(), 20);
    assert_eq!(bytes[0], 1);
    assert_eq!(bytes[19], 0x14);
    assert_eq!(Oid::from_bytes(&bytes), o);
}

/// Parent hashes are serialized as fixed 20-byte strides.
#[test]
fn parents_fixed_stride() {
    let pa = Oid { hi: 0x0102030405060708, mid: 0x1112131415161718, lo: 0x21222324 };
    let pb = oid(7);
    let bytes = repomirror::ingest::encode_parents(&vec![pa, pb]);
    assert_eq!(bytes.len(), 40);
    assert_eq!(&bytes[0..8], &[1, 2, 3, 4, 5, 6, 7, 8]);
    assert_eq!(&bytes[8..16], &[0x11, 0x12, 0x13, 0x14, 0x15, 0x16, 0x17, 0x18]);
    assert_eq!(&bytes[16..20], &[0x21, 0x22, 0x23, 0x24]);
    assert_eq!(&bytes[20..28], &[0, 0, 0, 0, 0, 0, 0, 7]);
}
