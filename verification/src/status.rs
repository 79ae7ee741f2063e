//! How statuses follow from a leaf that was finished, and why the tree
//! stays sound when they are recomputed along the leaf's path.

use vstd::prelude::*;
use crate::task::{TaskStatus, TaskView};
use crate::tree::{
    amount, children_done, children_present, is_prefix, lemma_child_sum_same, lemma_prefix_basics,
    lemma_prefix_transitive, lemma_step_is_child, node_covered, node_rolled_up, node_settled,
    parent_linked, rolled_up, surplus, well_formed, well_shaped, Tree,
};

verus! {

/// Every task that hangs beside the path to `id`, below one of the
/// ancestors of `id` at depth `d` or deeper, is done.
pub open spec fn off_path_done(m: Tree, id: Seq<u32>, d: nat) -> bool {
    forall|i: int, t: u32|
        d <= i < id.len() && 1 <= t <= m[id.take(i)].num_children && t != id[i] ==> (
        #[trigger] m[id.take(i).push(t)]).status == TaskStatus::Done
}

/// The status that falls to `k` once the leaf `id` is done.
pub open spec fn status_after(m: Tree, id: Seq<u32>, k: Seq<u32>) -> TaskStatus {
    if off_path_done(m, id, k.len()) {
        TaskStatus::Done
    } else {
        TaskStatus::InProgress
    }
}

/// The tree in which the leaf `id` is done and each task on the way to it,
/// from depth `from` downwards, is done exactly when all its children are.
pub open spec fn resettled_from(m: Tree, id: Seq<u32>, from: nat) -> Tree {
    Map::new(
        |k: Seq<u32>| m.contains_key(k),
        |k: Seq<u32>|
            if is_prefix(k, id) && k.len() >= from {
                TaskView { status: status_after(m, id, k), ..m[k] }
            } else {
                m[k]
            },
    )
}

/// The tree after the leaf `id` was finished: the leaf is done, and each
/// of its ancestors is done exactly when all its children are.
pub open spec fn resettled(m: Tree, id: Seq<u32>) -> Tree {
    resettled_from(m, id, 0)
}

/// Once the statuses below depth `d` on the path are recomputed, the
/// children of the ancestor at depth `d` are all done exactly when every
/// task beside the path from there on is done.
pub proof fn lemma_children_done_on_path(m: Tree, id: Seq<u32>, d: nat)
    requires
        well_shaped(m),
        m.contains_key(id),
        m[id].num_children == 0,
        d <= id.len(),
    ensures
        children_done(resettled_from(m, id, d + 1), id.take(d as int)) <==> off_path_done(
            m,
            id,
            d,
        ),
{
    let r = resettled_from(m, id, d + 1);
    let k = id.take(d as int);
    lemma_prefix_basics(id, 0, id);
    if d < id.len() {
        assert(is_prefix(k, id));
        lemma_step_is_child(m, k, id);
        let j = id[d as int];
        let c = k.push(j);
        assert(r[c].status == status_after(m, id, c));
        assert(children_present(m, k));
        assert forall|t: u32| 1 <= t <= m[k].num_children && t != j implies (#[trigger] r[k.push(
            t,
        )]) == m[k.push(t)] by {}
        if off_path_done(m, id, d) {
            assert forall|t: u32| 1 <= t <= r[k].num_children implies (#[trigger] r[k.push(
                t,
            )]).status == TaskStatus::Done by {}
        }
        if children_done(r, k) {
            assert forall|i: int, t: u32|
                d <= i < id.len() && 1 <= t <= m[id.take(i)].num_children && t
                    != id[i] implies (#[trigger] m[id.take(i).push(t)]).status
                == TaskStatus::Done by {
                if i == d {
                    assert(r[k.push(t)].status == TaskStatus::Done);
                }
            }
        }
    }
}

/// Recomputing the statuses along the path of a finished leaf keeps the
/// tree sound and touches no amount.
pub proof fn lemma_resettled_well_formed(m: Tree, id: Seq<u32>)
    requires
        well_formed(m),
        m.contains_key(id),
        m[id].num_children == 0,
    ensures
        well_formed(resettled(m, id)),
        rolled_up(m) ==> rolled_up(resettled(m, id)),
{
    let r = resettled(m, id);
    assert forall|k: Seq<u32>| r.contains_key(k) implies #[trigger] parent_linked(r, k) by {
        assert(parent_linked(m, k));
    }
    assert forall|k: Seq<u32>| r.contains_key(k) implies #[trigger] children_present(r, k) by {
        assert(children_present(m, k));
    }
    assert forall|k: Seq<u32>, cost: bool| r.contains_key(k) implies #[trigger] surplus(r, k, cost)
        == surplus(m, k, cost) by {
        assert forall|t: u32| 1 <= t <= m[k].num_children implies amount(
            r[#[trigger] k.push(t)],
            cost,
        ) == amount(m[k.push(t)], cost) by {
            assert(children_present(m, k));
        }
        lemma_child_sum_same(r, m, k, k, m[k].num_children as nat, cost);
    }
    assert forall|k: Seq<u32>| r.contains_key(k) implies #[trigger] node_covered(r, k) by {
        assert(node_covered(m, k));
    }
    if rolled_up(m) {
        assert forall|k: Seq<u32>| r.contains_key(k) implies #[trigger] node_rolled_up(r, k) by {
            assert(node_rolled_up(m, k));
        }
    }
    assert forall|k: Seq<u32>| r.contains_key(k) implies #[trigger] node_settled(r, k) by {
        if r[k].num_children > 0 {
            assert(children_present(m, k));
            if is_prefix(k, id) {
                let d = k.len();
                lemma_children_done_on_path(m, id, d);
                let mid = resettled_from(m, id, d + 1);
                assert forall|t: u32| 1 <= t <= m[k].num_children implies (#[trigger] mid[k.push(
                    t,
                )]) == r[k.push(t)] by {}
                assert(children_done(mid, k) <==> children_done(r, k)) by {
                    if children_done(mid, k) {
                        assert forall|t: u32| 1 <= t <= r[k].num_children implies (
                        #[trigger] r[k.push(t)]).status == TaskStatus::Done by {
                            assert(mid[k.push(t)].status == TaskStatus::Done);
                        }
                    }
                    if children_done(r, k) {
                        assert forall|t: u32| 1 <= t <= mid[k].num_children implies (
                        #[trigger] mid[k.push(t)]).status == TaskStatus::Done by {}
                    }
                }
            } else {
                assert(node_settled(m, k));
                assert forall|t: u32| 1 <= t <= m[k].num_children implies (#[trigger] r[k.push(
                    t,
                )]) == m[k.push(t)] by {
                    let ch = k.push(t);
                    lemma_prefix_basics(k, t, k);
                    if is_prefix(ch, id) {
                        lemma_prefix_transitive(k, ch, id);
                    }
                }
                assert(children_done(r, k) <==> children_done(m, k)) by {
                    if children_done(m, k) {
                        assert forall|t: u32| 1 <= t <= r[k].num_children implies (
                        #[trigger] r[k.push(t)]).status == TaskStatus::Done by {}
                    }
                    if children_done(r, k) {
                        assert forall|t: u32| 1 <= t <= m[k].num_children implies (
                        #[trigger] m[k.push(t)]).status == TaskStatus::Done by {
                            assert(r[k.push(t)].status == TaskStatus::Done);
                        }
                    }
                }
            }
        }
    }
}

} // verus!
