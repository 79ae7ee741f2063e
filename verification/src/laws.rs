//! What holds of every sound project, stated for its users.

use vstd::prelude::*;
use crate::amounts::{lemma_carried_in_range, lemma_revalued_well_formed, revalued, total_fits};
use crate::calls::{accepted, after_call, after_calls, refused_with, Call};
use crate::error::Error;
use crate::growth::{added, lemma_added_well_formed};
use crate::removal::{
    behind, lemma_behind_basics, lemma_leaf_has_no_descendants, lemma_unlinked_child,
    lemma_unlinked_node, lemma_unlinked_well_formed, lowered, origin, raised, unlinked,
};
use crate::removal::cleared;
use crate::status::{lemma_resettled_well_formed, resettled};
use crate::task::{TaskStatus, TaskView};
use crate::tree::{
    child_sum, children_present, fits, is_prefix, lemma_ancestor_present, lemma_prefix_basics,
    lemma_prefix_transitive, lemma_step_is_child, node_rolled_up, node_settled, parent_linked,
    rolled_up, well_formed, well_shaped, Tree,
};

verus! {

/// Whether the call adds a task below a leaf that holds a planned value
/// or an actual cost of its own. The new parent keeps that amount, which
/// no child accounts for.
pub open spec fn covers_own_amount(m: Tree, c: Call) -> bool {
    match c {
        Call::Add { parent, name } => accepted(m, c) && m[parent].num_children == 0 && (
        m[parent].planned_value != 0 || m[parent].actual_cost != 0),
        _ => false,
    }
}

/// No call of the sequence adds a task below a leaf that holds an amount
/// of its own.
pub open spec fn adds_below_bare_tasks(m: Tree, calls: Seq<Call>) -> bool
    decreases calls.len(),
{
    calls.len() > 0 ==> adds_below_bare_tasks(m, calls.drop_last()) && !covers_own_amount(
        after_calls(m, calls.drop_last()),
        calls.last(),
    )
}

/// A call leaves a sound project sound. Where the amounts rolled up, they
/// still do, unless the call added a task below a leaf that held an amount
/// of its own.
pub proof fn law_call_keeps_sound(m: Tree, c: Call)
    requires
        well_formed(m),
    ensures
        well_formed(after_call(m, c)),
        rolled_up(m) && !covers_own_amount(m, c) ==> rolled_up(after_call(m, c)),
{
    if accepted(m, c) {
        match c {
            Call::Add { parent, name } => {
                lemma_added_well_formed(m, parent, name);
            },
            Call::SetActualCost { id, value } => {
                lemma_revalued_well_formed(m, id, true, value);
                lemma_resettled_well_formed(revalued(m, id, true, value), id);
            },
            Call::SetPlannedValue { id, value } => {
                lemma_revalued_well_formed(m, id, false, value);
            },
            Call::Remove { id, staffed } => {
                lemma_cleared_well_formed(m, id);
                lemma_unlinked_well_formed(cleared(m, id), id);
            },
        }
    }
}

/// Clearing a leaf keeps the project sound and leaves the leaf done and
/// holding nothing.
pub proof fn lemma_cleared_well_formed(m: Tree, id: Seq<u32>)
    requires
        well_formed(m),
        m.contains_key(id),
        id.len() > 0,
        m[id].num_children == 0,
    ensures
        well_formed(cleared(m, id)),
        rolled_up(m) ==> rolled_up(cleared(m, id)),
        cleared(m, id).contains_key(id),
        cleared(m, id)[id].num_children == 0,
        cleared(m, id)[id].planned_value == 0,
        cleared(m, id)[id].actual_cost == 0,
        cleared(m, id)[id].status == TaskStatus::Done,
        total_fits(m, id, true, 0),
        total_fits(resettled(revalued(m, id, true, 0), id), id, false, 0),
{
    lemma_prefix_basics(id, 0, id);
    lemma_carried_in_range(m, id, true, 0, id);
    lemma_revalued_well_formed(m, id, true, 0);
    let a = revalued(m, id, true, 0);
    lemma_resettled_well_formed(a, id);
    let b = resettled(a, id);
    lemma_revalued_well_formed(b, id, false, 0);
}

/// Every sequence of calls leaves a sound project sound: the ids form a
/// gapless tree, no task holds less than its children together, and a
/// task with children is done exactly when all its children are.
pub proof fn law_calls_keep_sound(m: Tree, calls: Seq<Call>)
    requires
        well_formed(m),
    ensures
        well_formed(after_calls(m, calls)),
    decreases calls.len(),
{
    if calls.len() > 0 {
        law_calls_keep_sound(m, calls.drop_last());
        law_call_keeps_sound(after_calls(m, calls.drop_last()), calls.last());
    }
}

/// After every sequence of calls on a sound project whose amounts roll
/// up, each task with children holds, in both amounts, exactly the sum
/// over its children, provided that no call added a task below a leaf
/// that held an amount of its own.
pub proof fn law_calls_keep_sums(m: Tree, calls: Seq<Call>)
    requires
        well_formed(m),
        rolled_up(m),
        adds_below_bare_tasks(m, calls),
    ensures
        rolled_up(after_calls(m, calls)),
    decreases calls.len(),
{
    if calls.len() > 0 {
        law_calls_keep_sums(m, calls.drop_last());
        law_calls_keep_sound(m, calls.drop_last());
        law_call_keeps_sound(after_calls(m, calls.drop_last()), calls.last());
    }
}

/// A task with children, the root included, can neither be removed nor
/// be given an amount: such a call changes nothing, whether or not members
/// are assigned to the task, and the error with which it is refused is the
/// one that names the task as one with children.
pub proof fn law_trunk_is_protected(m: Tree, id: Seq<u32>, value: u64, staffed: bool)
    requires
        m.contains_key(id),
        m[id].num_children > 0,
    ensures
        !accepted(m, (Call::Remove { id, staffed })),
        !accepted(m, (Call::SetActualCost { id, value })),
        !accepted(m, (Call::SetPlannedValue { id, value })),
        after_call(m, (Call::Remove { id, staffed })) == m,
        after_call(m, (Call::SetActualCost { id, value })) == m,
        after_call(m, (Call::SetPlannedValue { id, value })) == m,
        forall|e: Error|
            #[trigger] refused_with(m, (Call::Remove { id, staffed }), e) ==> (
            e matches Error::TrunkCannotBeRemoved(i) && i@ == id),
        forall|e: Error|
            #[trigger] refused_with(m, (Call::SetActualCost { id, value }), e) ==> (
            e matches Error::TrunkCannotChangeCost(i) && i@ == id),
        forall|e: Error|
            #[trigger] refused_with(m, (Call::SetPlannedValue { id, value }), e) ==> (
            e matches Error::TrunkCannotChangeValue(i) && i@ == id),
{
}

/// In a sound project every component of every id is at least 1: ids
/// are paths of child indices.
pub proof fn law_stored_ids_are_positive(m: Tree, k: Seq<u32>, i: int)
    requires
        well_shaped(m),
        m.contains_key(k),
        0 <= i < k.len(),
    ensures
        k[i] >= 1,
{
    lemma_ancestor_present(m, k, i + 1);
    let c = k.take(i + 1);
    assert(parent_linked(m, c));
}

/// Where the amounts roll up, a task with children holds in each amount
/// exactly the sum over its children.
pub proof fn law_trunk_holds_sums(m: Tree, k: Seq<u32>)
    requires
        rolled_up(m),
        m.contains_key(k),
        m[k].num_children > 0,
    ensures
        m[k].planned_value == child_sum(m, k, m[k].num_children as nat, false),
        m[k].actual_cost == child_sum(m, k, m[k].num_children as nat, true),
{
    assert(node_rolled_up(m, k));
}

/// In a sound project a task with children is done if and only if every
/// one of its children is done.
pub proof fn law_status_follows_children(m: Tree, k: Seq<u32>)
    requires
        well_formed(m),
        m.contains_key(k),
        m[k].num_children > 0,
    ensures
        m[k].status == TaskStatus::Done <==> (forall|t: u32|
            1 <= t <= m[k].num_children ==> (#[trigger] m[k.push(t)]).status == TaskStatus::Done),
{
    assert(node_settled(m, k));
}

/// In a sound project a task with children is done if and only if every
/// leaf below it is done: statuses follow from the leaves all the way up.
pub proof fn law_status_follows_leaves(m: Tree, k: Seq<u32>, bound: nat)
    requires
        well_formed(m),
        m.contains_key(k),
        m[k].num_children > 0,
        fits(m, bound),
    ensures
        m[k].status == TaskStatus::Done <==> (forall|l: Seq<u32>|
            #[trigger] m.contains_key(l) && is_prefix(k, l) && m[l].num_children == 0 ==> m[l].status
                == TaskStatus::Done),
    decreases bound - k.len(),
{
    assert(node_settled(m, k));
    assert(children_present(m, k));
    let all_leaves = forall|l: Seq<u32>|
        #[trigger] m.contains_key(l) && is_prefix(k, l) && m[l].num_children == 0 ==> m[l].status
            == TaskStatus::Done;
    if m[k].status == TaskStatus::Done {
        assert forall|l: Seq<u32>|
            #[trigger] m.contains_key(l) && is_prefix(k, l) && m[l].num_children
                == 0 implies m[l].status == TaskStatus::Done by {
            lemma_prefix_basics(l, 0, k);
            lemma_step_is_child(m, k, l);
            let c = k.push(l[k.len() as int]);
            assert(m[c].status == TaskStatus::Done);
            if m[c].num_children > 0 {
                law_status_follows_leaves(m, c, bound);
            } else {
                lemma_leaf_has_no_descendants(m, c, l);
            }
        }
    }
    if all_leaves {
        assert forall|t: u32| 1 <= t <= m[k].num_children implies (#[trigger] m[k.push(
            t,
        )]).status == TaskStatus::Done by {
            let c = k.push(t);
            lemma_prefix_basics(k, t, c);
            if m[c].num_children > 0 {
                law_status_follows_leaves(m, c, bound);
                assert forall|l: Seq<u32>|
                    #[trigger] m.contains_key(l) && is_prefix(c, l) && m[l].num_children
                        == 0 implies m[l].status == TaskStatus::Done by {
                    lemma_prefix_transitive(k, c, l);
                }
            }
        }
    }
}

/// Once a leaf that is done and holds nothing was taken out of a sound
/// project, the children of its former parent stand under exactly the
/// indices from 1 to their number; every task that is left is a task that
/// was there, with its name, amounts, status, members and children as they
/// were; and no other task is lost. Only ids have changed: what stood
/// behind the leaf stands one index lower at the leaf's layer.
pub proof fn lemma_unlinked_keeps_tasks(m: Tree, id: Seq<u32>)
    requires
        well_formed(m),
        m.contains_key(id),
        id.len() > 0,
        m[id].num_children == 0,
        m[id].planned_value == 0,
        m[id].actual_cost == 0,
        m[id].status == TaskStatus::Done,
    ensures
        unlinked(m, id)[id.drop_last()].num_children == m[id.drop_last()].num_children - 1,
        forall|t: u32|
            unlinked(m, id).contains_key(#[trigger] id.drop_last().push(t)) <==> 1 <= t
                <= unlinked(m, id)[id.drop_last()].num_children,
        forall|k: Seq<u32>| #[trigger]
            unlinked(m, id).contains_key(k) ==> {
                &&& m.contains_key(origin(id, k))
                &&& origin(id, k) != id
                &&& unlinked(m, id)[k].id == k
                &&& unlinked(m, id)[k].name == m[origin(id, k)].name
                &&& unlinked(m, id)[k].planned_value == m[origin(id, k)].planned_value
                &&& unlinked(m, id)[k].actual_cost == m[origin(id, k)].actual_cost
                &&& unlinked(m, id)[k].status == m[origin(id, k)].status
                &&& unlinked(m, id)[k].members == m[origin(id, k)].members
                &&& k != id.drop_last() ==> unlinked(m, id)[k].num_children == m[origin(
                    id,
                    k,
                )].num_children
            },
        forall|k: Seq<u32>, t: u32|
            unlinked(m, id).contains_key(k) && k != id.drop_last() && 1 <= t <= unlinked(
                m,
                id,
            )[k].num_children ==> origin(id, #[trigger] k.push(t)) == origin(id, k).push(t),
        forall|k: Seq<u32>|
            #[trigger] m.contains_key(k) && k != id ==> exists|now: Seq<u32>|
                unlinked(m, id).contains_key(now) && origin(id, now) == k,
{
    let u = unlinked(m, id);
    let p = id.drop_last();
    let layer = id.len() - 1;
    lemma_unlinked_well_formed(m, id);
    assert(parent_linked(m, id));
    lemma_unlinked_node(m, id, p);
    assert(children_present(u, p));
    assert forall|t: u32| u.contains_key(#[trigger] p.push(t)) implies 1 <= t
        <= u[p].num_children by {
        assert(parent_linked(u, p.push(t)));
        assert(p.push(t).drop_last() =~= p);
    }
    assert forall|k: Seq<u32>| #[trigger] u.contains_key(k) implies {
        &&& m.contains_key(origin(id, k))
        &&& origin(id, k) != id
        &&& u[k].id == k
        &&& u[k].name == m[origin(id, k)].name
        &&& u[k].planned_value == m[origin(id, k)].planned_value
        &&& u[k].actual_cost == m[origin(id, k)].actual_cost
        &&& u[k].status == m[origin(id, k)].status
        &&& u[k].members == m[origin(id, k)].members
        &&& k != p ==> u[k].num_children == m[origin(id, k)].num_children
    } by {}
    assert forall|k: Seq<u32>, t: u32|
        u.contains_key(k) && k != p && 1 <= t <= u[k].num_children implies origin(
        id,
        #[trigger] k.push(t),
    ) == origin(id, k).push(t) by {
        lemma_unlinked_child(m, id, k, t);
    }
    assert forall|k: Seq<u32>| #[trigger] m.contains_key(k) && k != id implies exists|
        now: Seq<u32>,
    |
        u.contains_key(now) && origin(id, now) == k by {
        lemma_behind_basics(id, k);
        if behind(id, k) {
            if k[layer] == id.last() {
                lemma_leaf_has_no_descendants(m, id, k);
            }
            let now = lowered(k, layer);
            lemma_behind_basics(id, now);
            assert(now.take(layer) =~= k.take(layer));
            assert(raised(now, layer) =~= k);
            assert(u.contains_key(now) && origin(id, now) == k);
        } else {
            assert(u.contains_key(k) && origin(id, k) == k);
        }
    }
}

/// Clearing a leaf changes the leaf and the tasks above it, which hold
/// as much less as the leaf held, and nothing else.
pub proof fn lemma_cleared_at(m: Tree, id: Seq<u32>, k: Seq<u32>)
    requires
        well_formed(m),
        m.contains_key(id),
        id.len() > 0,
        m[id].num_children == 0,
    ensures
        m.contains_key(k) <==> cleared(m, id).contains_key(k),
        m.contains_key(k) && !is_prefix(k, id) ==> cleared(m, id)[k] == m[k],
        is_prefix(k, id) && k != id ==> {
            let c = cleared(m, id)[k];
            &&& m.contains_key(k)
            &&& c.id == k
            &&& c.name == m[k].name
            &&& c.members == m[k].members
            &&& c.num_children == m[k].num_children
            &&& c.planned_value == m[k].planned_value - m[id].planned_value
            &&& c.actual_cost == m[k].actual_cost - m[id].actual_cost
        },
{
    let a = revalued(m, id, true, 0);
    let b = resettled(a, id);
    lemma_revalued_well_formed(m, id, true, 0);
    lemma_resettled_well_formed(a, id);
    lemma_prefix_basics(id, 0, id);
    if is_prefix(k, id) && k != id {
        lemma_prefix_basics(id, 0, k);
        lemma_carried_in_range(m, id, true, 0, k);
        lemma_carried_in_range(b, id, false, 0, k);
    }
}

/// After a leaf was removed from a sound project, the children of its
/// former parent stand under exactly the indices from 1 to their number.
/// Every task that stood behind the leaf, or below such a task, stands one
/// index lower at the leaf's layer and is otherwise as it was: name,
/// amounts, status, members and number of children, and its children are
/// the tasks that were its children. The tasks above the leaf hold as much
/// less as the leaf held. Every other task is as it was, and no task but
/// the leaf is lost.
pub proof fn law_removal_renumbers(m: Tree, id: Seq<u32>)
    requires
        well_formed(m),
        accepted(m, (Call::Remove { id, staffed: false })),
    ensures
        ({
            let u = after_call(m, (Call::Remove { id, staffed: false }));
            let p = id.drop_last();
            let layer = id.len() - 1;
            &&& well_formed(u)
            &&& u[p].num_children == m[p].num_children - 1
            &&& forall|t: u32|
                u.contains_key(#[trigger] p.push(t)) <==> 1 <= t <= u[p].num_children
            &&& forall|k: Seq<u32>|
                #[trigger] u.contains_key(k) && behind(id, k) ==> m.contains_key(raised(k, layer))
                    && u[k] == (TaskView { id: k, ..m[raised(k, layer)] })
            &&& forall|k: Seq<u32>|
                #[trigger] u.contains_key(k) && !behind(id, k) && !is_prefix(k, id)
                    ==> m.contains_key(k) && u[k] == m[k]
            &&& forall|k: Seq<u32>|
                is_prefix(k, id) && k != id ==> #[trigger] u.contains_key(k) && m.contains_key(k)
                    && u[k].name == m[k].name && u[k].members == m[k].members && u[k].planned_value
                    == m[k].planned_value - m[id].planned_value && u[k].actual_cost
                    == m[k].actual_cost - m[id].actual_cost && (k != p ==> u[k].num_children
                    == m[k].num_children)
            &&& forall|k: Seq<u32>, t: u32|
                behind(id, k) ==> raised(#[trigger] k.push(t), layer) == raised(k, layer).push(t)
            &&& forall|k: Seq<u32>| #[trigger] u.contains_key(k) ==> origin(id, k) != id
            &&& forall|k: Seq<u32>|
                #[trigger] m.contains_key(k) && k != id ==> exists|now: Seq<u32>|
                    u.contains_key(now) && origin(id, now) == k
        }),
{
    let c = cleared(m, id);
    let u = unlinked(c, id);
    let p = id.drop_last();
    let layer = id.len() - 1;
    lemma_cleared_well_formed(m, id);
    lemma_cleared_at(m, id, p);
    lemma_behind_basics(id, id);
    assert(well_formed(u)) by {
        lemma_unlinked_well_formed(c, id);
    }
    assert(u[p].num_children == m[p].num_children - 1 && (forall|t: u32|
        u.contains_key(#[trigger] p.push(t)) <==> 1 <= t <= u[p].num_children)) by {
        lemma_unlinked_keeps_tasks(c, id);
    }
    assert forall|k: Seq<u32>, t: u32| behind(id, k) implies raised(#[trigger] k.push(t), layer)
        == raised(k, layer).push(t) by {
        assert(raised(k.push(t), layer) =~= raised(k, layer).push(t));
    }
    assert forall|k: Seq<u32>| #[trigger] u.contains_key(k) implies origin(id, k) != id by {
        lemma_unlinked_node(c, id, k);
    }
    assert forall|k: Seq<u32>| #[trigger] m.contains_key(k) && k != id implies exists|
        now: Seq<u32>,
    |
        u.contains_key(now) && origin(id, now) == k by {
        lemma_cleared_at(m, id, k);
        lemma_unlinked_keeps_tasks(c, id);
    }
    assert forall|k: Seq<u32>| #[trigger] u.contains_key(k) && behind(id, k) implies m.contains_key(
        raised(k, layer),
    ) && u[k] == (TaskView { id: k, ..m[raised(k, layer)] }) by {
        lemma_unlinked_node(c, id, k);
        let o = raised(k, layer);
        lemma_behind_basics(id, k);
        lemma_behind_basics(id, o);
        if is_prefix(o, id) {
            assert(id.take(o.len() as int)[layer] == o[layer]);
        }
        lemma_cleared_at(m, id, o);
    }
    assert forall|k: Seq<u32>|
        #[trigger] u.contains_key(k) && !behind(id, k) && !is_prefix(k, id) implies m.contains_key(
        k,
    ) && u[k] == m[k] by {
        lemma_unlinked_node(c, id, k);
        lemma_prefix_basics(id, 0, p);
        lemma_cleared_at(m, id, k);
    }
    assert forall|k: Seq<u32>| is_prefix(k, id) && k != id implies #[trigger] u.contains_key(k)
        && m.contains_key(k) && u[k].name == m[k].name && u[k].members == m[k].members
        && u[k].planned_value == m[k].planned_value - m[id].planned_value && u[k].actual_cost
        == m[k].actual_cost - m[id].actual_cost && (k != p ==> u[k].num_children
        == m[k].num_children) by {
        lemma_prefix_basics(id, 0, k);
        lemma_behind_basics(id, k);
        lemma_cleared_at(m, id, k);
        assert(u.contains_key(k));
        lemma_unlinked_node(c, id, k);
    }
}

} // verus!
