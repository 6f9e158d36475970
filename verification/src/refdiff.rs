use crate::bytes::copy_bytes;
use crate::oid::Oid;
use crate::store::Store;
use vstd::prelude::*;

verus! {

/// A reference of the live repository: a name with its direct target.
/// Symbolic references carry no target and are filtered out upstream.
pub struct LiveRef {
    pub name: Vec<u8>,
    pub target: Oid,
}

/// One reference whose live target differs from the recorded target.
pub struct RefDiff {
    pub name: Vec<u8>,
    pub old_target: Option<Oid>,
    pub new_target: Option<Oid>,
}

/// The diff rows for a live reference list: one row per live reference
/// whose target is not the recorded target, in live order.  References
/// that only exist in the store (deleted live) produce no row.
pub open spec fn spec_ref_diff(store: Store, repo_id: u32, live: Seq<LiveRef>) -> Seq<RefDiff>
    decreases live.len(),
{
    if live.len() == 0 {
        Seq::empty()
    } else {
        let l = live.last();
        let rest = spec_ref_diff(store, repo_id, live.drop_last());
        if store.ref_target(repo_id, l.name@) == Some(l.target) {
            rest
        } else {
            rest.push(
                RefDiff {
                    name: l.name,
                    old_target: store.ref_target(repo_id, l.name@),
                    new_target: Some(l.target),
                },
            )
        }
    }
}

/// Compare the live references against the store's recorded targets and
/// emit the differing ones.
pub fn compare_refs(store: &Store, repo_id: u32, live: &Vec<LiveRef>) -> (r: Vec<RefDiff>)
    requires
        store.wf(),
    ensures
        r@.len() == spec_ref_diff(*store, repo_id, live@).len(),
        forall|i: int|
            0 <= i < r@.len() ==> {
                let d = #[trigger] r@[i];
                let s = spec_ref_diff(*store, repo_id, live@)[i];
                d.name@ == s.name@ && d.old_target == s.old_target && d.new_target == s.new_target
            },
{
    let mut out: Vec<RefDiff> = Vec::new();
    let mut i: usize = 0;
    while i < live.len()
        invariant
            store.wf(),
            i <= live@.len(),
            out@.len() == spec_ref_diff(*store, repo_id, live@.subrange(0, i as int)).len(),
            forall|k: int|
                0 <= k < out@.len() ==> {
                    let d = #[trigger] out@[k];
                    let s = spec_ref_diff(*store, repo_id, live@.subrange(0, i as int))[k];
                    d.name@ == s.name@ && d.old_target == s.old_target && d.new_target
                        == s.new_target
                },
        decreases live@.len() - i,
    {
        let ghost pre = live@.subrange(0, i as int);
        let ghost now = live@.subrange(0, i + 1);
        proof {
            assert(now.drop_last() =~= pre);
            assert(now.last() == live@[i as int]);
        }
        let old_target = store.ref_target_get(repo_id, &live[i].name);
        let differs = match old_target {
            Some(t) => t != live[i].target,
            None => true,
        };
        if differs {
            out.push(
                RefDiff {
                    name: copy_bytes(&live[i].name),
                    old_target,
                    new_target: Some(live[i].target),
                },
            );
        }
        i += 1;
    }
    proof {
        assert(live@.subrange(0, live@.len() as int) =~= live@);
    }
    out
}

/// When every live reference already carries its recorded target, the diff
/// is empty.
pub proof fn lemma_ref_diff_unchanged(store: Store, repo_id: u32, live: Seq<LiveRef>)
    requires
        forall|i: int|
            0 <= i < live.len() ==> store.ref_target(repo_id, (#[trigger] live[i]).name@) == Some(
                live[i].target,
            ),
    ensures
        spec_ref_diff(store, repo_id, live).len() == 0,
    decreases live.len(),
{
    if live.len() > 0 {
        lemma_ref_diff_unchanged(store, repo_id, live.drop_last());
    }
}

} // verus!
