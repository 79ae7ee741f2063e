//! The tree of tasks as a mathematical value: a map from ids to tasks, and
//! what it means for such a map to be a sound work breakdown structure.

use vstd::prelude::*;
use crate::task::{TaskStatus, TaskView};

verus! {

/// All tasks of a project, each under its id.
pub type Tree = Map<Seq<u32>, TaskView>;

/// Whether `a` leads to `b`: `a` is `b` or one of its ancestors.
pub open spec fn is_prefix(a: Seq<u32>, b: Seq<u32>) -> bool {
    a.len() <= b.len() && b.take(a.len() as int) == a
}

/// Leading to is transitive.
pub proof fn lemma_prefix_transitive(a: Seq<u32>, b: Seq<u32>, c: Seq<u32>)
    requires
        is_prefix(a, b),
        is_prefix(b, c),
    ensures
        is_prefix(a, c),
{
    assert(c.take(a.len() as int) =~= c.take(b.len() as int).take(a.len() as int));
}

/// A task leads to itself and to each of its children, and an id that
/// leads to one of the same length is that id.
pub proof fn lemma_prefix_basics(k: Seq<u32>, t: u32, a: Seq<u32>)
    ensures
        is_prefix(k, k),
        is_prefix(k, k.push(t)),
        is_prefix(Seq::<u32>::empty(), k),
        is_prefix(a, k) && a.len() == k.len() ==> a == k,
        is_prefix(a, k.push(t)) ==> a == k.push(t) || is_prefix(a, k),
{
    assert(k.take(k.len() as int) =~= k);
    assert(k.push(t).take(k.len() as int) =~= k);
    assert(k.take(0) =~= Seq::<u32>::empty());
    if is_prefix(a, k.push(t)) && a.len() <= k.len() {
        assert(k.take(a.len() as int) =~= k.push(t).take(a.len() as int));
    }
}

/// One of a task's two amounts: its actual cost if `cost`, else its
/// planned value.
pub open spec fn amount(t: TaskView, cost: bool) -> u64 {
    if cost {
        t.actual_cost
    } else {
        t.planned_value
    }
}

/// The task `t` with one of its amounts replaced.
pub open spec fn with_amount(t: TaskView, cost: bool, v: u64) -> TaskView {
    if cost {
        TaskView { actual_cost: v, ..t }
    } else {
        TaskView { planned_value: v, ..t }
    }
}

/// A task other than the root hangs below a stored parent, at an index
/// that the parent counts.
pub open spec fn parent_linked(m: Tree, k: Seq<u32>) -> bool {
    k.len() > 0 ==> m.contains_key(k.drop_last()) && 1 <= k.last()
        <= m[k.drop_last()].num_children
}

/// Every child that the task counts is stored.
pub open spec fn children_present(m: Tree, k: Seq<u32>) -> bool {
    forall|t: u32| 1 <= t <= m[k].num_children ==> m.contains_key(#[trigger] k.push(t))
}

/// The ids form a tree below the root in which the children of each task
/// are numbered `1..=num_children` without gaps, and each task is stored
/// under its own id.
pub open spec fn well_shaped(m: Tree) -> bool {
    &&& m.contains_key(Seq::<u32>::empty())
    &&& forall|k: Seq<u32>| #[trigger] m.contains_key(k) ==> m[k].id == k
    &&& forall|k: Seq<u32>| m.contains_key(k) ==> #[trigger] parent_linked(m, k)
    &&& forall|k: Seq<u32>| m.contains_key(k) ==> #[trigger] children_present(m, k)
}

/// The sum of one amount over the first `n` children of `k`.
pub open spec fn child_sum(m: Tree, k: Seq<u32>, n: nat, cost: bool) -> int
    decreases n,
{
    if n == 0 {
        0
    } else {
        child_sum(m, k, (n - 1) as nat, cost) + amount(m[k.push(n as u32)], cost)
    }
}

/// What a task holds of one amount beyond the sum over its children. For a
/// leaf that is the leaf's own amount.
pub open spec fn surplus(m: Tree, k: Seq<u32>, cost: bool) -> int {
    amount(m[k], cost) - child_sum(m, k, m[k].num_children as nat, cost)
}

/// A task holds at least the sum over its children, in both amounts.
pub open spec fn node_covered(m: Tree, k: Seq<u32>) -> bool {
    surplus(m, k, false) >= 0 && surplus(m, k, true) >= 0
}

/// Every task holds at least the sum over its children.
pub open spec fn covered(m: Tree) -> bool {
    forall|k: Seq<u32>| m.contains_key(k) ==> #[trigger] node_covered(m, k)
}

/// A task with children holds, in both amounts, exactly the sum over its
/// children.
pub open spec fn node_rolled_up(m: Tree, k: Seq<u32>) -> bool {
    m[k].num_children > 0 ==> surplus(m, k, false) == 0 && surplus(m, k, true) == 0
}

/// Every task with children holds exactly the sums over its children.
pub open spec fn rolled_up(m: Tree) -> bool {
    forall|k: Seq<u32>| m.contains_key(k) ==> #[trigger] node_rolled_up(m, k)
}

/// Every child of `k` is done.
pub open spec fn children_done(m: Tree, k: Seq<u32>) -> bool {
    forall|t: u32|
        1 <= t <= m[k].num_children ==> (#[trigger] m[k.push(t)]).status == TaskStatus::Done
}

/// A task with children is done exactly when all its children are.
pub open spec fn node_settled(m: Tree, k: Seq<u32>) -> bool {
    m[k].num_children > 0 ==> (m[k].status == TaskStatus::Done <==> children_done(m, k))
}

/// Every task with children is done exactly when all its children are.
pub open spec fn settled(m: Tree) -> bool {
    forall|k: Seq<u32>| m.contains_key(k) ==> #[trigger] node_settled(m, k)
}

/// A sound work breakdown structure: a gapless tree in which no task holds
/// less than its children together and the statuses follow from the leaves.
pub open spec fn well_formed(m: Tree) -> bool {
    &&& well_shaped(m)
    &&& covered(m)
    &&& settled(m)
}

/// The sum over children is the same in two trees that agree on the
/// children's amounts.
pub proof fn lemma_child_sum_same(m1: Tree, m2: Tree, k1: Seq<u32>, k2: Seq<u32>, n: nat, cost: bool)
    requires
        n <= u32::MAX,
        forall|t: u32|
            1 <= t <= n ==> amount(m1[#[trigger] k1.push(t)], cost) == amount(
                m2[k2.push(t)],
                cost,
            ),
    ensures
        child_sum(m1, k1, n, cost) == child_sum(m2, k2, n, cost),
    decreases n,
{
    if n > 0 {
        lemma_child_sum_same(m1, m2, k1, k2, (n - 1) as nat, cost);
    }
}

/// Changing the amount of one child changes the sum by as much.
pub proof fn lemma_child_sum_one_changed(
    m1: Tree,
    m2: Tree,
    k: Seq<u32>,
    n: nat,
    cost: bool,
    j: u32,
)
    requires
        n <= u32::MAX,
        1 <= j <= n,
        forall|t: u32|
            1 <= t <= n && t != j ==> amount(m1[#[trigger] k.push(t)], cost) == amount(
                m2[k.push(t)],
                cost,
            ),
    ensures
        child_sum(m2, k, n, cost) == child_sum(m1, k, n, cost) - amount(m1[k.push(j)], cost)
            + amount(m2[k.push(j)], cost),
    decreases n,
{
    if n == j {
        lemma_child_sum_same(m1, m2, k, k, (n - 1) as nat, cost);
    } else {
        lemma_child_sum_one_changed(m1, m2, k, (n - 1) as nat, cost, j);
    }
}

/// The sum over children is at least the amount of each of them.
pub proof fn lemma_child_sum_bounds(m: Tree, k: Seq<u32>, n: nat, cost: bool, j: u32)
    requires
        n <= u32::MAX,
        1 <= j <= n,
    ensures
        child_sum(m, k, n, cost) >= amount(m[k.push(j)], cost),
        child_sum(m, k, n, cost) >= 0,
    decreases n,
{
    lemma_child_sum_nonnegative(m, k, (n - 1) as nat, cost);
    if n != j {
        lemma_child_sum_bounds(m, k, (n - 1) as nat, cost, j);
    }
}

/// A sum over children is not negative.
pub proof fn lemma_child_sum_nonnegative(m: Tree, k: Seq<u32>, n: nat, cost: bool)
    ensures
        child_sum(m, k, n, cost) >= 0,
    decreases n,
{
    if n > 0 {
        lemma_child_sum_nonnegative(m, k, (n - 1) as nat, cost);
    }
}

/// A task holds at least as much as each of its descendants.
pub proof fn lemma_ancestor_dominates(m: Tree, a: Seq<u32>, k: Seq<u32>, cost: bool)
    requires
        well_shaped(m),
        covered(m),
        m.contains_key(k),
        is_prefix(a, k),
    ensures
        m.contains_key(a),
        amount(m[a], cost) >= amount(m[k], cost),
    decreases k.len() - a.len(),
{
    if a.len() == k.len() {
        assert(k.take(a.len() as int) =~= k);
    } else {
        lemma_step_is_child(m, a, k);
        let j = k[a.len() as int];
        let c = a.push(j);
        lemma_ancestor_dominates(m, c, k, cost);
        assert(node_covered(m, a));
        lemma_child_sum_bounds(m, a, m[a].num_children as nat, cost, j);
    }
}

/// No id of the tree is longer than `bound`.
pub open spec fn fits(m: Tree, bound: nat) -> bool {
    forall|k: Seq<u32>| #[trigger] m.contains_key(k) ==> k.len() <= bound
}

/// The length of the longest id of the tree.
pub open spec fn tree_depth(m: Tree) -> nat {
    choose|h: nat| fits(m, h)
}

/// The ancestors of a stored task are stored.
pub proof fn lemma_ancestor_present(m: Tree, k: Seq<u32>, i: int)
    requires
        well_shaped(m),
        m.contains_key(k),
        0 <= i <= k.len(),
    ensures
        m.contains_key(k.take(i)),
    decreases k.len() - i,
{
    if i == k.len() {
        assert(k.take(i) =~= k);
    } else {
        lemma_ancestor_present(m, k, i + 1);
        let c = k.take(i + 1);
        assert(parent_linked(m, c));
        assert(c.drop_last() =~= k.take(i));
    }
}

/// The step of a path below `a`: the child of `a` that leads to `k`.
pub proof fn lemma_step_is_child(m: Tree, a: Seq<u32>, k: Seq<u32>)
    requires
        well_shaped(m),
        m.contains_key(k),
        is_prefix(a, k),
        a.len() < k.len(),
    ensures
        m.contains_key(a),
        m.contains_key(a.push(k[a.len() as int])),
        1 <= k[a.len() as int] <= m[a].num_children,
        is_prefix(a.push(k[a.len() as int]), k),
{
    let i = a.len() as int;
    lemma_ancestor_present(m, k, i + 1);
    let c = k.take(i + 1);
    assert(c =~= a.push(k[i]));
    assert(parent_linked(m, c));
    assert(c.drop_last() =~= a);
}

} // verus!
