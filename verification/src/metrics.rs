//! Earned value figures of a project, computed on demand from the root's
//! amounts and the statuses of the leaves. They are exact fractions.

use vstd::prelude::*;
use crate::task::TaskStatus;
use crate::tasks::{leaf_count, Tasks};
use crate::tree::Tree;

verus! {

/// A fraction with a sign. A figure that has no value, because a quotient
/// was taken by nothing, is reported as `0 / 1`.
#[derive(Debug, Clone, Copy, PartialEq, Eq, Structural)]
pub struct Ratio {
    pub negative: bool,
    pub numerator: u128,
    pub denominator: u128,
}

/// The fraction `0 / 1`.
pub open spec fn zero() -> Ratio {
    Ratio { negative: false, numerator: 0, denominator: 1 }
}

/// The fraction `n / d`, or `0 / 1` where `d` is nothing.
pub open spec fn quotient(n: int, d: int) -> Ratio {
    if d == 0 {
        zero()
    } else {
        Ratio { negative: false, numerator: n as u128, denominator: d as u128 }
    }
}

/// The fraction `(a - b) / d`.
pub open spec fn difference(a: int, b: int, d: int) -> Ratio {
    if a >= b {
        Ratio { negative: false, numerator: (a - b) as u128, denominator: d as u128 }
    } else {
        Ratio { negative: true, numerator: (b - a) as u128, denominator: d as u128 }
    }
}

/// The planned value of the project.
pub open spec fn pv(m: Tree) -> int {
    m[Seq::<u32>::empty()].planned_value as int
}

/// The actual cost of the project.
pub open spec fn ac(m: Tree) -> int {
    m[Seq::<u32>::empty()].actual_cost as int
}

/// How many leaves are done.
pub open spec fn done(m: Tree) -> int {
    leaf_count(m, Some(TaskStatus::Done)) as int
}

/// How many leaves there are.
pub open spec fn leaves(m: Tree) -> int {
    leaf_count(m, None) as int
}

/// The share of the leaves that are done.
pub open spec fn completion_of(m: Tree) -> Ratio {
    Ratio { negative: false, numerator: done(m) as u128, denominator: leaves(m) as u128 }
}

/// The earned value: the planned value times the share of the leaves that
/// are done.
pub open spec fn earned_value_of(m: Tree) -> Ratio {
    Ratio { negative: false, numerator: (pv(m) * done(m)) as u128, denominator: leaves(m) as u128 }
}

/// The schedule performance index: the earned value over the planned
/// value.
pub open spec fn spi_of(m: Tree) -> Ratio {
    quotient(pv(m) * done(m), leaves(m) * pv(m))
}

/// The schedule variance: the earned value less the planned value.
pub open spec fn sv_of(m: Tree) -> Ratio {
    difference(pv(m) * done(m), pv(m) * leaves(m), leaves(m))
}

/// The cost performance index: the earned value over the actual cost.
pub open spec fn cpi_of(m: Tree) -> Ratio {
    quotient(pv(m) * done(m), leaves(m) * ac(m))
}

/// The cost variance: the earned value less the actual cost.
pub open spec fn cv_of(m: Tree) -> Ratio {
    difference(pv(m) * done(m), ac(m) * leaves(m), leaves(m))
}

/// The product of an amount and a count fits 128 bits.
proof fn lemma_product_fits(a: u64, b: usize)
    ensures
        0 <= a * b <= u128::MAX,
        0 <= a * b <= 0xffff_ffff_ffff_ffff * 0xffff_ffff_ffff_ffff,
{
    assert(0 <= a * b <= 0xffff_ffff_ffff_ffff * 0xffff_ffff_ffff_ffff) by (nonlinear_arith)
        requires
            0 <= a <= 0xffff_ffff_ffff_ffff,
            0 <= b <= 0xffff_ffff_ffff_ffff,
    ;
}

/// The product of two amounts fits 128 bits.
fn times(a: u64, b: usize) -> (r: u128)
    ensures
        r == a * b,
{
    proof {
        lemma_product_fits(a, b);
    }
    (a as u128) * (b as u128)
}

impl Tasks {
    /// The share of the leaves that are done: done leaves over all leaves.
    pub fn completion_percentage(&self) -> (r: Ratio)
        requires
            self.wf(),
        ensures
            r == completion_of(self@),
            !r.negative,
            r.numerator == leaf_count(self@, Some(TaskStatus::Done)),
            r.denominator == leaf_count(self@, None),
            r.numerator <= r.denominator,
            r.denominator >= 1,
    {
        proof {
            self.lemma_has_leaf();
            self.lemma_leaf_counts_fit(Some(TaskStatus::Done));
        }
        let done = self.get_done_tasks().len();
        let all = self.get_tasks().len();
        Ratio { negative: false, numerator: done as u128, denominator: all as u128 }
    }

    /// The earned value: the planned value times the share of the leaves
    /// that are done.
    pub fn earned_value(&self) -> (r: Ratio)
        requires
            self.wf(),
        ensures
            r == earned_value_of(self@),
            !r.negative,
            r.numerator == self@[Seq::<u32>::empty()].planned_value * leaf_count(
                self@,
                Some(TaskStatus::Done),
            ),
            r.denominator == leaf_count(self@, None),
    {
        proof {
            self.lemma_leaf_counts_fit(Some(TaskStatus::Done));
            self.lemma_leaf_counts_fit(None);
        }
        let done = self.get_done_tasks().len();
        let all = self.get_tasks().len();
        Ratio {
            negative: false,
            numerator: times(self.planned_value(), done),
            denominator: all as u128,
        }
    }

    /// The schedule performance index: the earned value over the planned
    /// value, and `0 / 1` where nothing is planned.
    pub fn spi(&self) -> (r: Ratio)
        requires
            self.wf(),
        ensures
            r == spi_of(self@),
    {
        let done = self.get_done_tasks().len();
        let all = self.get_tasks().len();
        let planned = self.planned_value();
        let below = times(planned, all);
        proof {
            assert(planned * all == all * planned) by (nonlinear_arith);
        }
        if below == 0 {
            Ratio { negative: false, numerator: 0, denominator: 1 }
        } else {
            Ratio { negative: false, numerator: times(planned, done), denominator: below }
        }
    }

    /// The schedule variance: the earned value less the planned value.
    pub fn sv(&self) -> (r: Ratio)
        requires
            self.wf(),
        ensures
            r == sv_of(self@),
    {
        let done = self.get_done_tasks().len();
        let all = self.get_tasks().len();
        let planned = self.planned_value();
        let earned = times(planned, done);
        let full = times(planned, all);
        if earned >= full {
            Ratio { negative: false, numerator: earned - full, denominator: all as u128 }
        } else {
            Ratio { negative: true, numerator: full - earned, denominator: all as u128 }
        }
    }

    /// The cost performance index: the earned value over the actual cost,
    /// and `0 / 1` where nothing was spent.
    pub fn cpi(&self) -> (r: Ratio)
        requires
            self.wf(),
        ensures
            r == cpi_of(self@),
    {
        let done = self.get_done_tasks().len();
        let all = self.get_tasks().len();
        let spent = self.actual_cost();
        let below = times(spent, all);
        proof {
            assert(spent * all == all * spent) by (nonlinear_arith);
        }
        if below == 0 {
            Ratio { negative: false, numerator: 0, denominator: 1 }
        } else {
            Ratio {
                negative: false,
                numerator: times(self.planned_value(), done),
                denominator: below,
            }
        }
    }

    /// The cost variance: the earned value less the actual cost.
    pub fn cv(&self) -> (r: Ratio)
        requires
            self.wf(),
        ensures
            r == cv_of(self@),
    {
        let done = self.get_done_tasks().len();
        let all = self.get_tasks().len();
        let earned = times(self.planned_value(), done);
        let spent = times(self.actual_cost(), all);
        if earned >= spent {
            Ratio { negative: false, numerator: earned - spent, denominator: all as u128 }
        } else {
            Ratio { negative: true, numerator: spent - earned, denominator: all as u128 }
        }
    }
}

} // verus!
