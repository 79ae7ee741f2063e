//! What adding a task does to the tree, and why the tree stays sound.

use vstd::prelude::*;
use crate::task::{fresh_task, TaskStatus, TaskView};
use crate::tree::{
    amount, children_done, children_present, is_prefix, lemma_child_sum_same, lemma_step_is_child,
    node_covered, node_rolled_up, node_settled, parent_linked, rolled_up, surplus, well_formed,
    well_shaped, Tree,
};

verus! {

/// The tree in which the ids on the way to `c` that are shorter than `upto`
/// are in progress.
pub open spec fn reopened(m: Tree, c: Seq<u32>, upto: nat) -> Tree {
    Map::new(
        |k: Seq<u32>| m.contains_key(k),
        |k: Seq<u32>|
            if is_prefix(k, c) && k.len() < upto {
                TaskView { status: TaskStatus::InProgress, ..m[k] }
            } else {
                m[k]
            },
    )
}

/// The id that the next child of `p` gets: one past the children it has.
pub open spec fn next_child(m: Tree, p: Seq<u32>) -> Seq<u32> {
    p.push((m[p].num_children + 1) as u32)
}

/// The tree with one more child below `p`, before any status is touched.
pub open spec fn grown(m: Tree, p: Seq<u32>, name: Seq<char>) -> Tree {
    m.insert(p, TaskView { num_children: (m[p].num_children + 1) as u32, ..m[p] }).insert(
        next_child(m, p),
        fresh_task(next_child(m, p), name),
    )
}

/// The tree after a task named `name` was added below `p`: `p` counts one
/// more child, the new leaf stands under the next index, and every task
/// from the root down to the new leaf is in progress.
pub open spec fn added(m: Tree, p: Seq<u32>, name: Seq<char>) -> Tree {
    reopened(grown(m, p, name), next_child(m, p), next_child(m, p).len() + 1)
}

/// The next child's id is free.
pub proof fn lemma_next_child_is_new(m: Tree, p: Seq<u32>)
    requires
        well_shaped(m),
        m.contains_key(p),
        m[p].num_children < u32::MAX,
    ensures
        !m.contains_key(next_child(m, p)),
{
    let c = next_child(m, p);
    if m.contains_key(c) {
        assert(parent_linked(m, c));
        assert(c.drop_last() =~= p);
    }
}

/// Adding a task keeps the tree sound. It keeps every task's surplus, so
/// the amounts still roll up where they did, unless the parent was a leaf
/// that carried amounts of its own.
pub proof fn lemma_added_well_formed(m: Tree, p: Seq<u32>, name: Seq<char>)
    requires
        well_formed(m),
        m.contains_key(p),
        m[p].num_children < u32::MAX,
    ensures
        well_formed(added(m, p, name)),
        rolled_up(m) && (m[p].num_children > 0 || (m[p].planned_value == 0 && m[p].actual_cost
            == 0)) ==> rolled_up(added(m, p, name)),
{
    let c = next_child(m, p);
    let n = (m[p].num_children + 1) as u32;
    let a = added(m, p, name);
    lemma_next_child_is_new(m, p);
    assert(c.drop_last() =~= p);
    assert(is_prefix(p, c));
    // Shape.
    assert forall|k: Seq<u32>| a.contains_key(k) implies #[trigger] parent_linked(a, k) by {
        if k != c {
            assert(parent_linked(m, k));
        }
    }
    assert forall|k: Seq<u32>| a.contains_key(k) implies #[trigger] children_present(a, k) by {
        if k != c {
            assert(children_present(m, k));
            assert forall|t: u32| 1 <= t <= a[k].num_children implies a.contains_key(
                #[trigger] k.push(t),
            ) by {}
        }
    }
    // A child of a stored task other than `p` is stored and is not the new leaf.
    assert forall|k: Seq<u32>, t: u32|
        m.contains_key(k) && 1 <= t <= a[k].num_children && !(k == p && t == n) implies m.contains_key(
        #[trigger] k.push(t),
    ) && k.push(t) != c by {
        assert(children_present(m, k));
    }
    // Amounts: every surplus is kept.
    assert forall|k: Seq<u32>, cost: bool| m.contains_key(k) implies #[trigger] surplus(a, k, cost)
        == surplus(m, k, cost) by {
        let old_n = m[k].num_children as nat;
        assert forall|t: u32| 1 <= t <= old_n implies amount(a[#[trigger] k.push(t)], cost)
            == amount(m[k.push(t)], cost) by {}
        lemma_child_sum_same(a, m, k, k, old_n, cost);
    }
    assert forall|k: Seq<u32>| a.contains_key(k) implies #[trigger] node_covered(a, k) by {
        if k != c {
            assert(node_covered(m, k));
        }
    }
    if rolled_up(m) && (m[p].num_children > 0 || (m[p].planned_value == 0 && m[p].actual_cost
        == 0)) {
        assert forall|k: Seq<u32>| a.contains_key(k) implies #[trigger] node_rolled_up(a, k) by {
            if k != c {
                assert(node_rolled_up(m, k));
            }
        }
    }
    // Statuses.
    assert forall|k: Seq<u32>| a.contains_key(k) implies #[trigger] node_settled(a, k) by {
        if k != c {
            if is_prefix(k, c) {
                // The child of `k` on the way to the new leaf is in progress.
                assert(k.len() < c.len()) by {
                    assert(c.take(c.len() as int) =~= c);
                }
                let j = c[k.len() as int];
                let step = k.push(j);
                if k != p {
                    assert(is_prefix(k, p)) by {
                        assert(p.take(k.len() as int) =~= c.take(k.len() as int));
                    }
                    lemma_step_is_child(m, k, p);
                    assert(is_prefix(step, c)) by {
                        assert(c.take(step.len() as int) =~= p.take(step.len() as int));
                    }
                }
                assert(a[step].status == TaskStatus::InProgress);
            } else {
                assert(node_settled(m, k));
                assert forall|t: u32| 1 <= t <= m[k].num_children implies (#[trigger] a[k.push(
                    t,
                )]) == m[k.push(t)] by {
                    let ch = k.push(t);
                    if is_prefix(ch, c) {
                        assert(c.take(k.len() as int) =~= ch.take(k.len() as int));
                        assert(ch.take(k.len() as int) =~= k);
                    }
                }
                assert(children_done(a, k) <==> children_done(m, k)) by {
                    if children_done(m, k) {
                        assert forall|t: u32| 1 <= t <= a[k].num_children implies (#[trigger] a[k.push(
                            t,
                        )]).status == TaskStatus::Done by {}
                    }
                    if children_done(a, k) {
                        assert forall|t: u32| 1 <= t <= m[k].num_children implies (#[trigger] m[k.push(
                            t,
                        )]).status == TaskStatus::Done by {
                            assert(a[k.push(t)].status == TaskStatus::Done);
                        }
                    }
                }
            }
        }
    }
}

} // verus!
