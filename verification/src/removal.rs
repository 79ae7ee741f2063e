//! What removing a leaf does to the tree: the siblings behind it move up
//! by one index, each with its whole subtree.

use vstd::prelude::*;
use crate::amounts::revalued;
use crate::status::resettled;
use crate::task::{TaskStatus, TaskView};
use crate::tree::{
    amount, child_sum, children_done, children_present, is_prefix, lemma_child_sum_same,
    lemma_prefix_basics, lemma_prefix_transitive, lemma_step_is_child, node_covered,
    node_rolled_up, node_settled, parent_linked, rolled_up, surplus, well_formed, well_shaped,
    Tree,
};

verus! {

/// The id `k` with its component at `layer` made one smaller.
pub open spec fn lowered(k: Seq<u32>, layer: int) -> Seq<u32> {
    k.update(layer, (k[layer] - 1) as u32)
}

/// The id `k` with its component at `layer` made one larger.
pub open spec fn raised(k: Seq<u32>, layer: int) -> Seq<u32> {
    k.update(layer, (k[layer] + 1) as u32)
}

/// No task is stored at or below `c`.
pub open spec fn vacant(m: Tree, c: Seq<u32>) -> bool {
    forall|k: Seq<u32>| is_prefix(c, k) ==> !#[trigger] m.contains_key(k)
}

/// At and below `c` the ids form a gapless tree.
pub open spec fn subtree_shaped(m: Tree, c: Seq<u32>) -> bool {
    &&& forall|k: Seq<u32>|
        m.contains_key(k) && is_prefix(c, k) && k.len() > c.len() ==> #[trigger] parent_linked(
            m,
            k,
        )
    &&& forall|k: Seq<u32>|
        m.contains_key(k) && is_prefix(c, k) ==> #[trigger] children_present(m, k)
}

/// The tree in which the task `c` and all tasks below it stand one index
/// lower at `layer`, each under its new id.
pub open spec fn moved_subtree(m: Tree, c: Seq<u32>, layer: int) -> Tree {
    Map::new(
        |k: Seq<u32>|
            if is_prefix(lowered(c, layer), k) {
                m.contains_key(raised(k, layer))
            } else {
                !is_prefix(c, k) && m.contains_key(k)
            },
        |k: Seq<u32>|
            if is_prefix(lowered(c, layer), k) {
                TaskView { id: k, ..m[raised(k, layer)] }
            } else {
                m[k]
            },
    )
}

/// The tree in which the task `c` itself and the subtrees of its first
/// `done` children stand one index lower at `layer`.
pub open spec fn moved_upto(m: Tree, c: Seq<u32>, layer: int, done: nat) -> Tree {
    Map::new(
        |k: Seq<u32>|
            if is_prefix(lowered(c, layer), k) {
                (k.len() == c.len() || 1 <= k[c.len() as int] <= done) && m.contains_key(
                    raised(k, layer),
                )
            } else if is_prefix(c, k) {
                k.len() > c.len() && !(1 <= k[c.len() as int] <= done) && m.contains_key(k)
            } else {
                m.contains_key(k)
            },
        |k: Seq<u32>|
            if is_prefix(lowered(c, layer), k) {
                TaskView { id: k, ..m[raised(k, layer)] }
            } else {
                m[k]
            },
    )
}

/// Lowering and raising a component undo each other, keep the length, and
/// carry over to longer ids.
pub proof fn lemma_shift_basics(c: Seq<u32>, k: Seq<u32>, layer: int, t: u32)
    requires
        0 <= layer < c.len(),
        1 <= c[layer],
    ensures
        lowered(c, layer).len() == c.len(),
        raised(lowered(c, layer), layer) == c,
        lowered(c.push(t), layer) == lowered(c, layer).push(t),
        !is_prefix(c, lowered(c, layer)),
        !is_prefix(lowered(c, layer), c),
        is_prefix(lowered(c, layer), k) ==> is_prefix(c, raised(k, layer)) && raised(k, layer).len()
            == k.len() && lowered(raised(k, layer), layer) == k && !is_prefix(c, k),
        is_prefix(c, k) ==> is_prefix(lowered(c, layer), lowered(k, layer)) && raised(
            lowered(k, layer),
            layer,
        ) == k && !is_prefix(lowered(c, layer), k),
{
    let lc = lowered(c, layer);
    assert(raised(lc, layer) =~= c);
    assert(lowered(c.push(t), layer) =~= lc.push(t));
    if is_prefix(c, lc) {
        assert(lc.take(c.len() as int) =~= lc);
        assert(lc[layer] == c[layer]);
    }
    if is_prefix(lc, c) {
        assert(c.take(c.len() as int) =~= c);
        assert(lc[layer] == c[layer]);
    }
    if is_prefix(lc, k) {
        let r = raised(k, layer);
        assert(k.take(c.len() as int)[layer] == lc[layer]);
        assert(r.take(c.len() as int) =~= k.take(c.len() as int).update(layer, (k[layer] + 1) as u32));
        assert(r.take(c.len() as int) =~= c);
        assert(lowered(r, layer) =~= k);
        if is_prefix(c, k) {
            assert(k.take(c.len() as int)[layer] == c[layer]);
        }
    }
    if is_prefix(c, k) {
        let l = lowered(k, layer);
        assert(k.take(c.len() as int)[layer] == c[layer]);
        assert(l.take(c.len() as int) =~= k.take(c.len() as int).update(layer, (k[layer] - 1) as u32));
        assert(l.take(c.len() as int) =~= lc);
        assert(raised(l, layer) =~= k);
        if is_prefix(lc, k) {
            assert(k.take(c.len() as int)[layer] == lc[layer]);
        }
    }
}

/// A task stored strictly below `c` hangs below one of the children that
/// `c` counts, and `c` itself is stored.
pub proof fn lemma_subtree_step(m: Tree, c: Seq<u32>, k: Seq<u32>)
    requires
        subtree_shaped(m, c),
        m.contains_key(k),
        is_prefix(c, k),
        k.len() > c.len(),
    ensures
        m.contains_key(c),
        1 <= k[c.len() as int] <= m[c].num_children,
    decreases k.len(),
{
    assert(parent_linked(m, k));
    let p = k.drop_last();
    if k.len() != c.len() + 1 {
        assert(is_prefix(c, p)) by {
            assert(p.take(c.len() as int) =~= k.take(c.len() as int));
        }
        lemma_subtree_step(m, c, p);
    }
}

/// Moving the task `c` alone is the first stage of moving its subtree.
pub proof fn lemma_moved_first(m: Tree, c: Seq<u32>, layer: int)
    requires
        0 <= layer < c.len(),
        1 <= c[layer],
        m.contains_key(c),
        vacant(m, lowered(c, layer)),
    ensures
        moved_upto(m, c, layer, 0) == m.remove(c).insert(
            lowered(c, layer),
            (TaskView { id: lowered(c, layer), ..m[c] }),
        ),
{
    let lc = lowered(c, layer);
    let a = moved_upto(m, c, layer, 0);
    let b = m.remove(c).insert(lc, TaskView { id: lc, ..m[c] });
    lemma_shift_basics(c, c, layer, 0);
    assert forall|k: Seq<u32>| a.contains_key(k) <==> b.contains_key(k) by {
        lemma_prefix_basics(k, 0, lc);
    }
    assert forall|k: Seq<u32>| a.contains_key(k) implies #[trigger] a[k] == b[k] by {
        lemma_prefix_basics(k, 0, lc);
    }
}

/// Moving the subtree of the next child takes one stage to the next.
pub proof fn lemma_moved_next(m: Tree, c: Seq<u32>, layer: int, i: u32)
    requires
        0 <= layer < c.len(),
        1 <= c[layer],
        1 <= i,
        vacant(m, lowered(c, layer)),
    ensures
        moved_subtree(moved_upto(m, c, layer, (i - 1) as nat), c.push(i), layer) == moved_upto(
            m,
            c,
            layer,
            i as nat,
        ),
{
    let lc = lowered(c, layer);
    let ch = c.push(i);
    let lch = lowered(ch, layer);
    let before = moved_upto(m, c, layer, (i - 1) as nat);
    let a = moved_subtree(before, ch, layer);
    let b = moved_upto(m, c, layer, i as nat);
    lemma_shift_basics(c, c, layer, i);
    assert forall|k: Seq<u32>|
        (#[trigger] a.contains_key(k) <==> b.contains_key(k)) && (a.contains_key(k) ==> a[k]
            == b[k]) by {
        lemma_prefix_basics(c, i, c);
        lemma_prefix_basics(lc, i, lc);
        if is_prefix(lch, k) {
            lemma_prefix_transitive(lc, lch, k);
            assert(k[c.len() as int] == i) by {
                assert(k.take(lch.len() as int)[c.len() as int] == lch[c.len() as int]);
            }
        } else if is_prefix(lc, k) {
            if k.len() > c.len() {
                if k[c.len() as int] == i {
                    assert(k.take(lch.len() as int) =~= k.take(c.len() as int).push(i));
                }
            }
        } else if is_prefix(c, k) {
            if is_prefix(ch, k) {
                assert(k[c.len() as int] == i) by {
                    assert(k.take(ch.len() as int)[c.len() as int] == ch[c.len() as int]);
                }
            } else if k.len() > c.len() {
                if k[c.len() as int] == i {
                    assert(k.take(ch.len() as int) =~= k.take(c.len() as int).push(i));
                }
            }
        } else {
            if is_prefix(ch, k) {
                lemma_prefix_transitive(c, ch, k);
            }
        }
    }
}

/// Once the subtrees of all children that `c` counts are moved, the whole
/// subtree of `c` is.
pub proof fn lemma_moved_last(m: Tree, c: Seq<u32>, layer: int)
    requires
        0 <= layer < c.len(),
        1 <= c[layer],
        m.contains_key(c),
        subtree_shaped(m, c),
    ensures
        moved_upto(m, c, layer, m[c].num_children as nat) == moved_subtree(m, c, layer),
{
    let lc = lowered(c, layer);
    let a = moved_upto(m, c, layer, m[c].num_children as nat);
    let b = moved_subtree(m, c, layer);
    assert forall|k: Seq<u32>|
        (#[trigger] a.contains_key(k) <==> b.contains_key(k)) && (a.contains_key(k) ==> a[k]
            == b[k]) by {
        lemma_shift_basics(c, k, layer, 0);
        if is_prefix(lc, k) {
            let r = raised(k, layer);
            if m.contains_key(r) && k.len() > c.len() {
                lemma_subtree_step(m, c, r);
            }
        } else if is_prefix(c, k) {
            if m.contains_key(k) && k.len() > c.len() {
                lemma_subtree_step(m, c, k);
            }
        }
    }
}

/// While the subtree of `c` is being moved, the subtree of its next child
/// is still whole, the place it will move to is free, and no id is longer
/// than before.
pub proof fn lemma_moved_stage(m: Tree, c: Seq<u32>, layer: int, i: u32, bound: nat)
    requires
        0 <= layer < c.len(),
        1 <= c[layer],
        m.contains_key(c),
        subtree_shaped(m, c),
        vacant(m, lowered(c, layer)),
        1 <= i <= m[c].num_children,
        forall|k: Seq<u32>| m.contains_key(k) ==> k.len() <= bound,
    ensures
        moved_upto(m, c, layer, (i - 1) as nat).contains_key(c.push(i)),
        subtree_shaped(moved_upto(m, c, layer, (i - 1) as nat), c.push(i)),
        vacant(moved_upto(m, c, layer, (i - 1) as nat), lowered(c.push(i), layer)),
        forall|k: Seq<u32>| #[trigger]
            moved_upto(m, c, layer, (i - 1) as nat).contains_key(k) ==> k.len() <= bound,
        c.len() < bound,
{
    let lc = lowered(c, layer);
    let ch = c.push(i);
    let lch = lowered(ch, layer);
    let s = moved_upto(m, c, layer, (i - 1) as nat);
    lemma_shift_basics(c, ch, layer, i);
    lemma_prefix_basics(c, i, c);
    assert(children_present(m, c));
    assert(s.contains_key(ch));
    // Below `ch` nothing has moved yet.
    assert forall|k: Seq<u32>| #[trigger] is_prefix(ch, k) implies (s.contains_key(k)
        <==> m.contains_key(k)) && (m.contains_key(k) ==> s[k] == m[k]) && is_prefix(c, k)
        && k.len() > c.len() && k[c.len() as int] == i by {
        lemma_prefix_transitive(c, ch, k);
    }
    assert forall|k: Seq<u32>|
        s.contains_key(k) && is_prefix(ch, k) && k.len() > ch.len() implies #[trigger] parent_linked(
        s,
        k,
    ) by {
        assert(parent_linked(m, k));
        let p = k.drop_last();
        assert(is_prefix(ch, p)) by {
            assert(p.take(ch.len() as int) =~= k.take(ch.len() as int));
        }
    }
    assert forall|k: Seq<u32>| s.contains_key(k) && is_prefix(ch, k) implies #[trigger] children_present(
        s,
        k,
    ) by {
        assert(children_present(m, k));
        assert forall|t: u32| 1 <= t <= s[k].num_children implies s.contains_key(
            #[trigger] k.push(t),
        ) by {}
    }
    assert forall|k: Seq<u32>| is_prefix(lch, k) implies !#[trigger] s.contains_key(k) by {
        lemma_prefix_transitive(lc, lch, k);
    }
    assert forall|k: Seq<u32>| #[trigger] s.contains_key(k) implies k.len() <= bound by {}
}

/// Whether `k` stands at or behind the place of `id` among the children
/// of the parent of `id`, or below such a place.
pub open spec fn behind(id: Seq<u32>, k: Seq<u32>) -> bool {
    k.len() >= id.len() && is_prefix(id.drop_last(), k) && k[id.len() - 1] >= id.last()
}

/// The tree without the leaf `id`, in which the parent counts one child
/// less and the siblings of `id` up to index `upto` have moved up by one,
/// each with its subtree; the place of sibling `upto` is free.
pub open spec fn shifted_upto(m: Tree, id: Seq<u32>, upto: nat) -> Tree {
    Map::new(
        |k: Seq<u32>|
            if behind(id, k) {
                if k[id.len() - 1] < upto {
                    m.contains_key(raised(k, id.len() - 1))
                } else {
                    k[id.len() - 1] > upto && m.contains_key(k)
                }
            } else {
                m.contains_key(k)
            },
        |k: Seq<u32>|
            if behind(id, k) && k[id.len() - 1] < upto {
                TaskView { id: k, ..m[raised(k, id.len() - 1)] }
            } else if k == id.drop_last() {
                TaskView { num_children: (m[k].num_children - 1) as u32, ..m[k] }
            } else {
                m[k]
            },
    )
}

/// The tree after the leaf `id` was taken out: its parent counts one child
/// less, and every sibling that stood behind it stands one index lower,
/// together with its whole subtree. Nothing else has changed: each task
/// keeps its name, amounts, status and number of children.
pub open spec fn unlinked(m: Tree, id: Seq<u32>) -> Tree {
    Map::new(
        |k: Seq<u32>|
            if behind(id, k) {
                k[id.len() - 1] < u32::MAX && m.contains_key(raised(k, id.len() - 1))
            } else {
                m.contains_key(k)
            },
        |k: Seq<u32>|
            if behind(id, k) {
                TaskView { id: k, ..m[raised(k, id.len() - 1)] }
            } else if k == id.drop_last() {
                TaskView { num_children: (m[k].num_children - 1) as u32, ..m[k] }
            } else {
                m[k]
            },
    )
}

/// A leaf has nothing below it.
pub proof fn lemma_leaf_has_no_descendants(m: Tree, id: Seq<u32>, k: Seq<u32>)
    requires
        well_shaped(m),
        m.contains_key(id),
        m[id].num_children == 0,
        m.contains_key(k),
        is_prefix(id, k),
    ensures
        k == id,
{
    if k.len() > id.len() {
        lemma_step_is_child(m, id, k);
    }
}

/// How the ids behind a gap relate to the parent of the gap.
pub proof fn lemma_behind_basics(id: Seq<u32>, k: Seq<u32>)
    requires
        id.len() > 0,
    ensures
        behind(id, k) ==> k.len() > 0 && k != id.drop_last() && is_prefix(
            id.drop_last().push(k[id.len() - 1]),
            k,
        ),
        behind(id, k) && k[id.len() - 1] == id.last() ==> is_prefix(id, k),
        is_prefix(id, k) ==> behind(id, k) && k[id.len() - 1] == id.last(),
        is_prefix(id.drop_last(), id),
        id.drop_last().push(id.last()) == id,
{
    let p = id.drop_last();
    let layer = id.len() - 1;
    assert(p.push(id.last()) =~= id);
    if behind(id, k) {
        assert(k.take(id.len() as int) =~= k.take(layer).push(k[layer]));
    }
    if is_prefix(id, k) {
        assert(k.take(layer) =~= k.take(id.len() as int).take(layer));
    }
}

/// Taking the leaf out of the store and lowering the parent's count is the
/// first stage of closing the gap.
pub proof fn lemma_shift_first(m: Tree, id: Seq<u32>)
    requires
        well_shaped(m),
        m.contains_key(id),
        m[id].num_children == 0,
        id.len() > 0,
    ensures
        shifted_upto(m, id, id.last() as nat) == m.remove(id).insert(
            id.drop_last(),
            (TaskView {
                num_children: (m[id.drop_last()].num_children - 1) as u32,
                ..m[id.drop_last()]
            }),
        ),
{
    let p = id.drop_last();
    let a = shifted_upto(m, id, id.last() as nat);
    let b = m.remove(id).insert(
        p,
        TaskView { num_children: (m[p].num_children - 1) as u32, ..m[p] },
    );
    assert(parent_linked(m, id));
    assert forall|k: Seq<u32>|
        (#[trigger] a.contains_key(k) <==> b.contains_key(k)) && (a.contains_key(k) ==> a[k]
            == b[k]) by {
        lemma_behind_basics(id, k);
        if m.contains_key(k) && is_prefix(id, k) {
            lemma_leaf_has_no_descendants(m, id, k);
        }
    }
}

/// Moving the subtree of the next sibling takes one stage of closing the
/// gap to the next.
pub proof fn lemma_shift_next(m: Tree, id: Seq<u32>, s: u32)
    requires
        id.len() > 0,
        1 <= id.last() < s,
    ensures
        moved_subtree(
            shifted_upto(m, id, (s - 1) as nat),
            id.drop_last().push(s),
            id.len() - 1,
        ) == shifted_upto(m, id, s as nat),
{
    let p = id.drop_last();
    let layer = id.len() - 1;
    let c = p.push(s);
    let lc = lowered(c, layer);
    let before = shifted_upto(m, id, (s - 1) as nat);
    let a = moved_subtree(before, c, layer);
    let b = shifted_upto(m, id, s as nat);
    assert(lc =~= p.push((s - 1) as u32));
    lemma_prefix_basics(p, s, p);
    lemma_prefix_basics(p, (s - 1) as u32, p);
    assert forall|k: Seq<u32>|
        (#[trigger] a.contains_key(k) <==> b.contains_key(k)) && (a.contains_key(k) ==> a[k]
            == b[k]) by {
        lemma_behind_basics(id, k);
        lemma_shift_basics(c, k, layer, 0);
        if is_prefix(lc, k) {
            lemma_prefix_transitive(p, lc, k);
            assert(k[layer] == s - 1);
        } else {
            if is_prefix(c, k) {
                lemma_prefix_transitive(p, c, k);
                assert(k[layer] == s);
            }
        }
    }
}

/// While the gap is being closed, the subtree of the next sibling is still
/// whole, the place it will move to is free, and no id is longer than
/// before.
pub proof fn lemma_shift_stage(m: Tree, id: Seq<u32>, s: u32, bound: nat)
    requires
        well_shaped(m),
        m.contains_key(id),
        id.len() > 0,
        id.last() < s <= m[id.drop_last()].num_children,
        forall|k: Seq<u32>| m.contains_key(k) ==> k.len() <= bound,
    ensures
        shifted_upto(m, id, (s - 1) as nat).contains_key(id.drop_last().push(s)),
        subtree_shaped(shifted_upto(m, id, (s - 1) as nat), id.drop_last().push(s)),
        vacant(
            shifted_upto(m, id, (s - 1) as nat),
            lowered(id.drop_last().push(s), id.len() - 1),
        ),
        forall|k: Seq<u32>| #[trigger]
            shifted_upto(m, id, (s - 1) as nat).contains_key(k) ==> k.len() <= bound,
{
    let p = id.drop_last();
    let layer = id.len() - 1;
    let c = p.push(s);
    let lc = lowered(c, layer);
    let st = shifted_upto(m, id, (s - 1) as nat);
    assert(lc =~= p.push((s - 1) as u32));
    assert(parent_linked(m, id));
    assert(children_present(m, p));
    lemma_prefix_basics(p, s, p);
    lemma_prefix_basics(p, (s - 1) as u32, p);
    // Below `c` nothing has moved yet.
    assert forall|k: Seq<u32>| #[trigger] is_prefix(c, k) implies (st.contains_key(k)
        <==> m.contains_key(k)) && (m.contains_key(k) ==> st[k] == m[k]) && behind(id, k)
        && k[layer] == s by {
        lemma_prefix_transitive(p, c, k);
    }
    assert forall|k: Seq<u32>|
        st.contains_key(k) && is_prefix(c, k) && k.len() > c.len() implies #[trigger] parent_linked(
        st,
        k,
    ) by {
        assert(parent_linked(m, k));
        let q = k.drop_last();
        assert(is_prefix(c, q)) by {
            assert(q.take(c.len() as int) =~= k.take(c.len() as int));
        }
    }
    assert forall|k: Seq<u32>| st.contains_key(k) && is_prefix(c, k) implies #[trigger] children_present(
        st,
        k,
    ) by {
        assert(children_present(m, k));
        assert forall|t: u32| 1 <= t <= st[k].num_children implies st.contains_key(
            #[trigger] k.push(t),
        ) by {}
    }
    assert forall|k: Seq<u32>| is_prefix(lc, k) implies !#[trigger] st.contains_key(k) by {
        lemma_prefix_transitive(p, lc, k);
        assert(k.take(lc.len() as int)[layer] == lc[layer]);
    }
    assert forall|k: Seq<u32>| #[trigger] st.contains_key(k) implies k.len() <= bound by {}
}

/// Once every sibling that the parent counted has moved, the gap is
/// closed.
pub proof fn lemma_shift_last(m: Tree, id: Seq<u32>)
    requires
        well_shaped(m),
        m.contains_key(id),
        id.len() > 0,
    ensures
        shifted_upto(m, id, m[id.drop_last()].num_children as nat) == unlinked(m, id),
{
    let p = id.drop_last();
    let layer = id.len() - 1;
    let n = m[p].num_children;
    let a = shifted_upto(m, id, n as nat);
    let b = unlinked(m, id);
    assert forall|k: Seq<u32>|
        (#[trigger] a.contains_key(k) <==> b.contains_key(k)) && (a.contains_key(k) ==> a[k]
            == b[k]) by {
        if behind(id, k) {
            if k[layer] >= n {
                // Neither `k` nor what would move to `k` is stored.
                if m.contains_key(k) {
                    lemma_step_is_child(m, p, k);
                }
                if k[layer] < u32::MAX {
                    let r = raised(k, layer);
                    if m.contains_key(r) {
                        assert(is_prefix(p, r)) by {
                            assert(r.take(layer) =~= k.take(layer));
                        }
                        lemma_step_is_child(m, p, r);
                    }
                }
            }
        }
    }
}

/// Where the task that stands under `k` once the gap is closed stood
/// before.
pub open spec fn origin(id: Seq<u32>, k: Seq<u32>) -> Seq<u32> {
    if behind(id, k) {
        raised(k, id.len() - 1)
    } else {
        k
    }
}

/// Each task of the closed tree is a task of the tree before, other than
/// the leaf taken out, with the same name, amounts and status.
pub proof fn lemma_unlinked_node(m: Tree, id: Seq<u32>, k: Seq<u32>)
    requires
        well_shaped(m),
        m.contains_key(id),
        id.len() > 0,
        m[id].num_children == 0,
        unlinked(m, id).contains_key(k),
    ensures
        m.contains_key(origin(id, k)),
        origin(id, k) != id,
        origin(id, k).len() == k.len(),
        m.contains_key(id.drop_last()),
        1 <= id.last() <= m[id.drop_last()].num_children,
        unlinked(m, id)[k] == (TaskView {
            id: k,
            num_children: if k == id.drop_last() {
                (m[k].num_children - 1) as u32
            } else {
                m[origin(id, k)].num_children
            },
            ..m[origin(id, k)]
        }),
{
    assert(parent_linked(m, id));
}

/// The children of a task of the closed tree are the children that the
/// task had before, those of the gap's parent without the leaf taken out.
pub proof fn lemma_unlinked_child(m: Tree, id: Seq<u32>, k: Seq<u32>, t: u32)
    requires
        well_shaped(m),
        m.contains_key(id),
        id.len() > 0,
        m[id].num_children == 0,
        unlinked(m, id).contains_key(k),
        1 <= t <= unlinked(m, id)[k].num_children,
    ensures
        unlinked(m, id).contains_key(k.push(t)),
        m.contains_key(origin(id, k.push(t))),
        k != id.drop_last() ==> origin(id, k.push(t)) == origin(id, k).push(t),
        k == id.drop_last() ==> origin(id, k.push(t)) == k.push(
            if t >= id.last() {
                (t + 1) as u32
            } else {
                t
            },
        ),
{
    let p = id.drop_last();
    let layer = id.len() - 1;
    let ch = k.push(t);
    lemma_unlinked_node(m, id, k);
    lemma_prefix_basics(k, t, p);
    assert(children_present(m, origin(id, k)));
    if k == p {
        if t >= id.last() {
            assert(raised(ch, layer) =~= p.push((t + 1) as u32));
        }
    } else if behind(id, k) {
        assert(is_prefix(p, ch)) by {
            lemma_prefix_transitive(p, k, ch);
        }
        assert(raised(ch, layer) =~= raised(k, layer).push(t));
    }
}

/// Closing a gap among the children keeps their sum but for the amount of
/// the child taken out.
pub proof fn lemma_child_sum_gap(
    now: Tree,
    was: Tree,
    p: Seq<u32>,
    n: nat,
    j: u32,
    cost: bool,
)
    requires
        1 <= j <= n <= u32::MAX,
        forall|t: u32|
            1 <= t < j ==> amount(now[#[trigger] p.push(t)], cost) == amount(was[p.push(t)], cost),
        forall|t: u32|
            j <= t < n ==> amount(now[#[trigger] p.push(t)], cost) == amount(
                was[p.push((t + 1) as u32)],
                cost,
            ),
    ensures
        child_sum(now, p, (n - 1) as nat, cost) == child_sum(was, p, n, cost) - amount(
            was[p.push(j)],
            cost,
        ),
    decreases n,
{
    if n == j {
        lemma_child_sum_same(now, was, p, p, (n - 1) as nat, cost);
    } else {
        lemma_child_sum_gap(now, was, p, (n - 1) as nat, j, cost);
    }
}

/// Taking out a leaf that is done and holds nothing keeps the tree sound,
/// and keeps every task's surplus: where the amounts rolled up before,
/// they still do.
pub proof fn lemma_unlinked_well_formed(m: Tree, id: Seq<u32>)
    requires
        well_formed(m),
        m.contains_key(id),
        id.len() > 0,
        m[id].num_children == 0,
        m[id].planned_value == 0,
        m[id].actual_cost == 0,
        m[id].status == TaskStatus::Done,
    ensures
        well_formed(unlinked(m, id)),
        rolled_up(m) ==> rolled_up(unlinked(m, id)),
{
    let p = id.drop_last();
    let layer = id.len() - 1;
    let j = id.last();
    let n = m[p].num_children;
    let u = unlinked(m, id);
    lemma_behind_basics(id, id);
    // Shape.
    assert forall|k: Seq<u32>| #[trigger] u.contains_key(k) implies u[k].id == k by {}
    assert forall|k: Seq<u32>| u.contains_key(k) implies #[trigger] parent_linked(u, k) by {
        if k.len() > 0 {
            lemma_unlinked_node(m, id, k);
            let q = k.drop_last();
            let o = origin(id, k);
            assert(parent_linked(m, o));
            if behind(id, k) {
                if k.len() == id.len() {
                    assert(o.drop_last() =~= p);
                } else {
                    assert(is_prefix(p, q)) by {
                        assert(q.take(layer) =~= k.take(layer));
                    }
                    assert(o.drop_last() =~= raised(q, layer));
                }
            } else {
                if behind(id, q) {
                    assert(k.take(layer) =~= q.take(layer));
                }
            }
        }
    }
    assert forall|k: Seq<u32>| u.contains_key(k) implies #[trigger] children_present(u, k) by {
        assert forall|t: u32| 1 <= t <= u[k].num_children implies u.contains_key(
            #[trigger] k.push(t),
        ) by {
            lemma_unlinked_child(m, id, k, t);
        }
    }
    // Amounts.
    assert forall|k: Seq<u32>, cost: bool| u.contains_key(k) implies #[trigger] surplus(u, k, cost)
        == surplus(m, origin(id, k), cost) by {
        lemma_unlinked_node(m, id, k);
        let o = origin(id, k);
        if k == p {
            assert forall|t: u32| 1 <= t < j implies amount(u[#[trigger] p.push(t)], cost)
                == amount(m[p.push(t)], cost) by {
                lemma_unlinked_child(m, id, p, t);
            }
            assert forall|t: u32| j <= t < n implies amount(u[#[trigger] p.push(t)], cost)
                == amount(m[p.push((t + 1) as u32)], cost) by {
                lemma_unlinked_child(m, id, p, t);
            }
            lemma_child_sum_gap(u, m, p, n as nat, j, cost);
        } else {
            assert forall|t: u32| 1 <= t <= u[k].num_children implies amount(
                u[#[trigger] k.push(t)],
                cost,
            ) == amount(m[o.push(t)], cost) by {
                lemma_unlinked_child(m, id, k, t);
            }
            lemma_child_sum_same(u, m, k, o, u[k].num_children as nat, cost);
        }
    }
    assert forall|k: Seq<u32>| u.contains_key(k) implies #[trigger] node_covered(u, k) by {
        assert(node_covered(m, origin(id, k)));
    }
    if rolled_up(m) {
        assert forall|k: Seq<u32>| u.contains_key(k) implies #[trigger] node_rolled_up(u, k) by {
            lemma_unlinked_node(m, id, k);
            assert(node_rolled_up(m, origin(id, k)));
        }
    }
    // Statuses.
    assert forall|k: Seq<u32>| u.contains_key(k) implies #[trigger] node_settled(u, k) by {
        if u[k].num_children > 0 {
            lemma_unlinked_node(m, id, k);
            let o = origin(id, k);
            assert(node_settled(m, o));
            if k == p {
                if children_done(m, p) {
                    assert forall|t: u32| 1 <= t <= u[p].num_children implies (#[trigger] u[p.push(
                        t,
                    )]).status == TaskStatus::Done by {
                        lemma_unlinked_child(m, id, p, t);
                    }
                }
                if children_done(u, p) {
                    assert forall|t: u32| 1 <= t <= m[p].num_children implies (#[trigger] m[p.push(
                        t,
                    )]).status == TaskStatus::Done by {
                        if t < j {
                            lemma_unlinked_child(m, id, p, t);
                        } else if t > j {
                            let b = (t - 1) as u32;
                            lemma_unlinked_child(m, id, p, b);
                        }
                    }
                }
            } else {
                if children_done(m, o) {
                    assert forall|t: u32| 1 <= t <= u[k].num_children implies (#[trigger] u[k.push(
                        t,
                    )]).status == TaskStatus::Done by {
                        lemma_unlinked_child(m, id, k, t);
                    }
                }
                if children_done(u, k) {
                    assert forall|t: u32| 1 <= t <= m[o].num_children implies (#[trigger] m[o.push(
                        t,
                    )]).status == TaskStatus::Done by {
                        lemma_unlinked_child(m, id, k, t);
                    }
                }
            }
        }
    }
}

/// The tree in which the leaf `id` holds nothing and is done: its actual
/// cost was set to nothing, which finishes it, and then its planned value.
pub open spec fn cleared(m: Tree, id: Seq<u32>) -> Tree {
    revalued(resettled(revalued(m, id, true, 0), id), id, false, 0)
}

} // verus!
