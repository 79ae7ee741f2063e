//! The calls that change a project, as values: which of them are carried
//! out, what the project is afterwards, and with which error a call is
//! refused.

use vstd::prelude::*;
use crate::amounts::{revalued, total_fits};
use crate::error::Error;
use crate::growth::added;
use crate::removal::{cleared, unlinked};
use crate::status::resettled;
use crate::task_id::parse_spec;
use crate::tree::Tree;

verus! {

/// One call that changes a project.
pub enum Call {
    /// Add a task named `name` below `parent`.
    Add { parent: Seq<u32>, name: Seq<char> },
    /// Set the actual cost of `id`.
    SetActualCost { id: Seq<u32>, value: u64 },
    /// Set the planned value of `id`.
    SetPlannedValue { id: Seq<u32>, value: u64 },
    /// Remove `id`, to which members are still assigned if `staffed`.
    Remove { id: Seq<u32>, staffed: bool },
}

/// Whether an amount of the given kind can be set on `id`: it is a leaf
/// other than the root, and the project's total stays an amount.
pub open spec fn can_set(m: Tree, id: Seq<u32>, cost: bool, value: u64) -> bool {
    id.len() > 0 && m.contains_key(id) && m[id].num_children == 0 && total_fits(
        m,
        id,
        cost,
        value,
    )
}

/// Whether `e` is the error with which setting an amount on `id` is
/// refused. The first reason that applies decides: no task has that id;
/// the task has children, whose sum it holds; the task is the root, which
/// has no parent to carry the difference to; the total would not fit.
pub open spec fn set_refusal(m: Tree, id: Seq<u32>, cost: bool, value: u64, e: Error) -> bool {
    match e {
        Error::TaskNotFound(i) => i@ == id && !m.contains_key(id),
        Error::TrunkCannotChangeCost(i) => i@ == id && cost && m.contains_key(id)
            && m[id].num_children > 0,
        Error::TrunkCannotChangeValue(i) => i@ == id && !cost && m.contains_key(id)
            && m[id].num_children > 0,
        Error::NoParent(i) => i@ == id && m.contains_key(id) && m[id].num_children == 0
            && id.len() == 0,
        Error::AmountOverflow(i) => i@ == id && id.len() > 0 && m.contains_key(id)
            && m[id].num_children == 0 && !total_fits(m, id, cost, value),
        _ => false,
    }
}

/// Whether `e` is the error with which the call is refused. The first
/// reason that applies decides: for a removal, that no task has the id,
/// then that the task has children, then that members are assigned to
/// it, then that it is the root.
pub open spec fn refused_with(m: Tree, c: Call, e: Error) -> bool {
    match c {
        Call::Add { parent, name } => match e {
            Error::TaskNotFound(i) => i@ == parent && !m.contains_key(parent),
            Error::TooManyChildren(i) => i@ == parent && m.contains_key(parent)
                && m[parent].num_children == u32::MAX,
            _ => false,
        },
        Call::SetActualCost { id, value } => set_refusal(m, id, true, value, e),
        Call::SetPlannedValue { id, value } => set_refusal(m, id, false, value, e),
        Call::Remove { id, staffed } => match e {
            Error::TaskNotFound(i) => i@ == id && !m.contains_key(id),
            Error::TrunkCannotBeRemoved(i) => i@ == id && m.contains_key(id)
                && m[id].num_children > 0,
            Error::CannotRemoveAssignedTask(i) => i@ == id && m.contains_key(id)
                && m[id].num_children == 0 && staffed,
            Error::NoParent(i) => i@ == id && m.contains_key(id) && m[id].num_children == 0
                && !staffed && id.len() == 0,
            _ => false,
        },
    }
}

/// Whether the call is carried out. A call that is refused changes
/// nothing.
pub open spec fn accepted(m: Tree, c: Call) -> bool {
    match c {
        Call::Add { parent, name } => m.contains_key(parent) && m[parent].num_children
            < u32::MAX,
        Call::SetActualCost { id, value } => can_set(m, id, true, value),
        Call::SetPlannedValue { id, value } => can_set(m, id, false, value),
        Call::Remove { id, staffed } => !staffed && id.len() > 0 && m.contains_key(id)
            && m[id].num_children == 0,
    }
}

/// The project after one call.
pub open spec fn after_call(m: Tree, c: Call) -> Tree {
    if !accepted(m, c) {
        m
    } else {
        match c {
            Call::Add { parent, name } => added(m, parent, name),
            Call::SetActualCost { id, value } => resettled(revalued(m, id, true, value), id),
            Call::SetPlannedValue { id, value } => revalued(m, id, false, value),
            Call::Remove { id, staffed } => unlinked(cleared(m, id), id),
        }
    }
}

/// The project after a sequence of calls.
pub open spec fn after_calls(m: Tree, calls: Seq<Call>) -> Tree
    decreases calls.len(),
{
    if calls.len() == 0 {
        m
    } else {
        after_call(after_calls(m, calls.drop_last()), calls.last())
    }
}

/// Whether a task named `item.1` can be added below the task that the text
/// `item.0` denotes.
pub open spec fn can_add(m: Tree, item: (Seq<char>, Seq<char>)) -> bool {
    parse_spec(item.0) is Some && accepted(
        m,
        Call::Add { parent: parse_spec(item.0).unwrap(), name: item.1 },
    )
}

/// The project after the first `n` of the given tasks were added, each
/// below the task that its text denotes.
pub open spec fn expanded(m: Tree, items: Seq<(Seq<char>, Seq<char>)>, n: nat) -> Tree
    decreases n,
{
    if n == 0 {
        m
    } else if parse_spec(items[n - 1].0) is Some {
        after_call(
            expanded(m, items, (n - 1) as nat),
            Call::Add { parent: parse_spec(items[n - 1].0).unwrap(), name: items[n - 1].1 },
        )
    } else {
        expanded(m, items, (n - 1) as nat)
    }
}

/// Whether each of the first `n` of the given tasks could be added in its
/// turn.
pub open spec fn all_added(m: Tree, items: Seq<(Seq<char>, Seq<char>)>, n: nat) -> bool
    decreases n,
{
    n > 0 ==> all_added(m, items, (n - 1) as nat) && can_add(
        expanded(m, items, (n - 1) as nat),
        items[n - 1],
    )
}

/// The pairs of texts as pairs of their characters.
pub open spec fn pairs(arr: Seq<(&str, &str)>) -> Seq<(Seq<char>, Seq<char>)> {
    arr.map_values(|p: (&str, &str)| (p.0@, p.1@))
}

/// Whether `e` is the error for adding `item` to `m`: the parent's text
/// denotes no id, or adding below the task it denotes is refused.
pub open spec fn refusal(m: Tree, item: (Seq<char>, Seq<char>), e: Error) -> bool {
    match parse_spec(item.0) {
        None => (e matches Error::BadTaskIdString(s) && s@ == item.0),
        Some(parent) => refused_with(m, (Call::Add { parent, name: item.1 }), e),
    }
}

} // verus!
