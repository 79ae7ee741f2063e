//! What setting an amount on a leaf does to the tree, and why the tree
//! stays sound.

use vstd::prelude::*;
use crate::tree::{
    amount, children_done, children_present, is_prefix, lemma_ancestor_dominates,
    lemma_child_sum_one_changed, lemma_child_sum_same, lemma_prefix_basics,
    lemma_prefix_transitive, lemma_step_is_child, node_covered, node_rolled_up, node_settled,
    parent_linked, rolled_up, surplus, well_formed, with_amount, Tree,
};

verus! {

/// What an ancestor of a leaf holds once the leaf's amount went from `old`
/// to `v`: the difference is carried over.
pub open spec fn carried(held: u64, old: u64, v: u64) -> u64 {
    (held - old + v) as u64
}

/// The tree in which the leaf `id` holds `v` as its amount of the given
/// kind, and the difference to what it held was carried to its ancestors
/// with ids shorter than `upto`.
pub open spec fn revalued_upto(m: Tree, id: Seq<u32>, cost: bool, v: u64, upto: nat) -> Tree {
    Map::new(
        |k: Seq<u32>| m.contains_key(k),
        |k: Seq<u32>|
            if k == id {
                with_amount(m[k], cost, v)
            } else if is_prefix(k, id) && k.len() < upto {
                with_amount(m[k], cost, carried(amount(m[k], cost), amount(m[id], cost), v))
            } else {
                m[k]
            },
    )
}

/// The tree after the leaf `id` was given the amount `v`: the leaf holds
/// `v`, each of its ancestors holds as much more or less as the leaf does,
/// and nothing else has changed.
pub open spec fn revalued(m: Tree, id: Seq<u32>, cost: bool, v: u64) -> Tree {
    revalued_upto(m, id, cost, v, id.len())
}

/// Whether the project's total stays within the largest amount when the
/// leaf `id` is given the amount `v`.
pub open spec fn total_fits(m: Tree, id: Seq<u32>, cost: bool, v: u64) -> bool {
    amount(m[Seq::<u32>::empty()], cost) - amount(m[id], cost) + v <= u64::MAX
}

/// What each ancestor of the leaf will hold lies between the new amount of
/// the leaf and the new total, so it is an amount.
pub proof fn lemma_carried_in_range(m: Tree, id: Seq<u32>, cost: bool, v: u64, k: Seq<u32>)
    requires
        well_formed(m),
        m.contains_key(id),
        total_fits(m, id, cost, v),
        is_prefix(k, id),
    ensures
        m.contains_key(k),
        m.contains_key(Seq::<u32>::empty()),
        amount(m[k], cost) >= amount(m[id], cost),
        amount(m[k], cost) <= amount(m[Seq::<u32>::empty()], cost),
        carried(amount(m[k], cost), amount(m[id], cost), v) == amount(m[k], cost) - amount(
            m[id],
            cost,
        ) + v,
{
    lemma_ancestor_dominates(m, k, id, cost);
    let root = Seq::<u32>::empty();
    assert(is_prefix(root, k)) by {
        assert(k.take(0) =~= root);
    }
    lemma_ancestor_dominates(m, root, k, cost);
}

/// Setting an amount on a leaf keeps the tree sound, and keeps the surplus
/// of every task but the leaf itself: where the amounts rolled up before,
/// they still do.
pub proof fn lemma_revalued_well_formed(m: Tree, id: Seq<u32>, cost: bool, v: u64)
    requires
        well_formed(m),
        m.contains_key(id),
        m[id].num_children == 0,
        total_fits(m, id, cost, v),
    ensures
        well_formed(revalued(m, id, cost, v)),
        rolled_up(m) ==> rolled_up(revalued(m, id, cost, v)),
{
    let r = revalued(m, id, cost, v);
    assert forall|k: Seq<u32>| r.contains_key(k) implies #[trigger] parent_linked(r, k) by {
        assert(parent_linked(m, k));
    }
    assert forall|k: Seq<u32>| r.contains_key(k) implies #[trigger] children_present(r, k) by {
        assert(children_present(m, k));
    }
    assert forall|k: Seq<u32>| r.contains_key(k) implies #[trigger] node_settled(r, k) by {
        assert(node_settled(m, k));
        assert(children_done(r, k) <==> children_done(m, k)) by {
            assert(children_present(m, k));
            if children_done(m, k) {
                assert forall|t: u32| 1 <= t <= r[k].num_children implies (#[trigger] r[k.push(
                    t,
                )]).status == crate::task::TaskStatus::Done by {}
            }
            if children_done(r, k) {
                assert forall|t: u32| 1 <= t <= m[k].num_children implies (#[trigger] m[k.push(
                    t,
                )]).status == crate::task::TaskStatus::Done by {
                    assert(r[k.push(t)].status == crate::task::TaskStatus::Done);
                }
            }
        }
    }
    assert forall|k: Seq<u32>, other: bool|
        r.contains_key(k) && k != id implies #[trigger] surplus(r, k, other) == surplus(
        m,
        k,
        other,
    ) by {
        let n = m[k].num_children as nat;
        assert(children_present(m, k));
        if other != cost {
            assert forall|t: u32| 1 <= t <= n implies amount(r[#[trigger] k.push(t)], other)
                == amount(m[k.push(t)], other) by {}
            lemma_child_sum_same(r, m, k, k, n, other);
        } else if is_prefix(k, id) {
            assert(k.len() < id.len()) by {
                assert(id.take(id.len() as int) =~= id);
            }
            lemma_step_is_child(m, k, id);
            let j = id[k.len() as int];
            let c = k.push(j);
            lemma_carried_in_range(m, id, cost, v, k);
            lemma_carried_in_range(m, id, cost, v, c);
            assert forall|t: u32| 1 <= t <= n && t != j implies amount(
                m[#[trigger] k.push(t)],
                cost,
            ) == amount(r[k.push(t)], cost) by {
                let ch = k.push(t);
                if is_prefix(ch, id) {
                    assert(id.take(ch.len() as int)[k.len() as int] == ch[k.len() as int]);
                }
            }
            lemma_child_sum_one_changed(m, r, k, n, cost, j);
            if c != id {
                lemma_prefix_basics(id, 0, c);
            }
        } else {
            assert forall|t: u32| 1 <= t <= n implies amount(r[#[trigger] k.push(t)], cost)
                == amount(m[k.push(t)], cost) by {
                let ch = k.push(t);
                lemma_prefix_basics(k, t, k);
                if is_prefix(ch, id) {
                    lemma_prefix_transitive(k, ch, id);
                }
            }
            lemma_child_sum_same(r, m, k, k, n, cost);
        }
    }
    assert forall|k: Seq<u32>| r.contains_key(k) implies #[trigger] node_covered(r, k) by {
        if k != id {
            assert(node_covered(m, k));
        }
    }
    if rolled_up(m) {
        assert forall|k: Seq<u32>| r.contains_key(k) implies #[trigger] node_rolled_up(r, k) by {
            if k != id {
                assert(node_rolled_up(m, k));
            }
        }
    }
}

} // verus!
