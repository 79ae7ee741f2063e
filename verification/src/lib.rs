//! A planner for projects laid out as a work breakdown structure.
//!
//! The tasks of a project form a tree. A task is addressed by the path of
//! child indices that leads to it from the root, written `1.2.3`; the
//! children of every task are numbered from 1 without gaps, so removing a
//! task renumbers the siblings behind it together with everything below
//! them. Each leaf carries a planned value and an actual cost, which roll
//! up to the root, and every task with children is done exactly when all
//! its children are.
//!
//! Amounts are whole numbers of the smallest unit that a project counts
//! in; the figures derived from them are exact fractions.
//!
//! - [`task_id`], [`decimal`], [`notation`]: ids, their dotted notation,
//!   and the proofs that reading undoes writing, and that writing undoes
//!   reading up to zeros in front of a number.
//! - [`task`], [`tasks`], [`keyed`]: a task, the store of all tasks, and
//!   how the store is read as a map from ids to tasks.
//! - [`tree`]: what makes such a map a sound project.
//! - [`engine`]: the operations on a project. [`growth`], [`amounts`],
//!   [`status`], [`removal`] and [`staffing`] say what each of them does
//!   to the tree and prove that the tree stays sound.
//! - [`calls`], [`laws`]: the operations as values, and what holds after
//!   any sequence of them.
//! - [`metrics`], [`render`], [`show`]: earned value figures and text
//!   views.
//! - [`members`]: who works on the project, and on which tasks.
//! - [`wsb`]: a project addressed by ids in dotted notation.
//! - [`error`]: why an operation was refused.

pub mod amounts;
pub mod calls;
pub mod decimal;
pub mod engine;
pub mod error;
pub mod growth;
pub mod keyed;
pub mod laws;
pub mod members;
pub mod metrics;
pub mod notation;
pub mod removal;
pub mod render;
pub mod show;
pub mod staffing;
pub mod status;
pub mod task;
pub mod task_id;
pub mod tasks;
pub mod tree;
pub mod wsb;
