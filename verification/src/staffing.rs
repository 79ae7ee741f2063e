//! What assigning a member to a leaf does to the tree: the member's name
//! is put on the leaf and on every task above it.

use vstd::prelude::*;
use crate::task::{with_member, without_member, TaskStatus, TaskView};
use crate::tree::{
    amount, children_done, children_present, covered, is_prefix, lemma_child_sum_same,
    node_covered, node_rolled_up, node_settled, parent_linked, rolled_up, settled, surplus,
    well_formed, well_shaped, Tree,
};

verus! {

/// The names on a task once `name` was put on it (`add`) or taken off it.
pub open spec fn restaffed(names: Seq<Seq<char>>, name: Seq<char>, add: bool) -> Seq<Seq<char>> {
    if add {
        with_member(names, name)
    } else {
        without_member(names, name)
    }
}

/// The tree in which `name` was put on, or taken off, the tasks on the way
/// to `id` whose ids are shorter than `upto`.
pub open spec fn staffed_upto(m: Tree, id: Seq<u32>, name: Seq<char>, add: bool, upto: nat) -> Tree {
    Map::new(
        |k: Seq<u32>| m.contains_key(k),
        |k: Seq<u32>|
            if is_prefix(k, id) && k.len() < upto {
                TaskView { members: restaffed(m[k].members, name, add), ..m[k] }
            } else {
                m[k]
            },
    )
}

/// The tree in which `name` was put on, or taken off, the task `id` and
/// every task above it.
pub open spec fn staffed(m: Tree, id: Seq<u32>, name: Seq<char>, add: bool) -> Tree {
    staffed_upto(m, id, name, add, id.len() + 1)
}

/// Two trees that differ only in who works on the tasks are sound
/// together, and their amounts roll up together.
pub proof fn lemma_staff_is_free(m: Tree, r: Tree)
    requires
        forall|k: Seq<u32>| m.contains_key(k) <==> r.contains_key(k),
        forall|k: Seq<u32>|
            m.contains_key(k) ==> #[trigger] r[k] == (TaskView { members: r[k].members, ..m[k] }),
    ensures
        well_formed(m) ==> well_formed(r),
        rolled_up(m) && well_shaped(m) ==> rolled_up(r),
{
    if well_shaped(m) {
        assert forall|k: Seq<u32>| r.contains_key(k) implies #[trigger] parent_linked(r, k) by {
            assert(parent_linked(m, k));
        }
        assert forall|k: Seq<u32>| r.contains_key(k) implies #[trigger] children_present(r, k) by {
            assert(children_present(m, k));
        }
        assert forall|k: Seq<u32>| #[trigger] r.contains_key(k) implies r[k].id == k by {}
        assert forall|k: Seq<u32>, cost: bool| r.contains_key(k) implies #[trigger] surplus(
            r,
            k,
            cost,
        ) == surplus(m, k, cost) by {
            assert(children_present(m, k));
            assert forall|t: u32| 1 <= t <= m[k].num_children implies amount(
                r[#[trigger] k.push(t)],
                cost,
            ) == amount(m[k.push(t)], cost) by {}
            lemma_child_sum_same(r, m, k, k, m[k].num_children as nat, cost);
        }
        if covered(m) {
            assert forall|k: Seq<u32>| r.contains_key(k) implies #[trigger] node_covered(r, k) by {
                assert(node_covered(m, k));
            }
        }
        if rolled_up(m) {
            assert forall|k: Seq<u32>| r.contains_key(k) implies #[trigger] node_rolled_up(r, k) by {
                assert(node_rolled_up(m, k));
            }
        }
        if settled(m) {
            assert forall|k: Seq<u32>| r.contains_key(k) implies #[trigger] node_settled(r, k) by {
                assert(node_settled(m, k));
                assert(children_present(m, k));
                if children_done(m, k) {
                    assert forall|t: u32| 1 <= t <= r[k].num_children implies (#[trigger] r[k.push(
                        t,
                    )]).status == TaskStatus::Done by {}
                }
                if children_done(r, k) {
                    assert forall|t: u32| 1 <= t <= m[k].num_children implies (#[trigger] m[k.push(
                        t,
                    )]).status == TaskStatus::Done by {}
                }
            }
        }
    }
}

} // verus!
