//! The cost model: a pure mapping from an operation to its cost contribution.
//! Scalar operations are excluded outright; vector multiply and shift are
//! penalized far more heavily than add/subtract/negate.

use vstd::prelude::*;
use crate::graph::{Node, OpKind};

verus! {

/// Externally configured positive weights. The model treats them as opaque.
#[derive(Clone, Copy, Debug)]
pub struct CostModel {
    pub vec_op: u64,
    pub structure: u64,
    pub literal: u64,
}

impl CostModel {
    /// The weights are positive and small enough that one step's cost fits in u64.
    pub open spec fn wf(&self) -> bool {
        &&& self.vec_op >= 1
        &&& self.structure >= 1
        &&& self.literal >= 1
        &&& 100 * (self.vec_op as int) <= u64::MAX as int
    }
}

/// Scalar operations are never selectable.
pub open spec fn is_scalar(op: OpKind) -> bool {
    match op {
        OpKind::ScalarAdd | OpKind::ScalarMul | OpKind::ScalarSub | OpKind::ScalarNeg => true,
        _ => false,
    }
}

/// The cost a selectable operation adds to an expression.
pub open spec fn op_cost_spec(op: OpKind, w: CostModel) -> int {
    match op {
        OpKind::ScalarAdd | OpKind::ScalarMul | OpKind::ScalarSub | OpKind::ScalarNeg => 0,
        OpKind::VecShift => 50 * (w.vec_op as int),
        OpKind::VecStructure => w.structure as int,
        OpKind::VecAdd | OpKind::VecMinus | OpKind::VecNeg => w.vec_op as int,
        OpKind::VecMul => 100 * (w.vec_op as int),
        OpKind::Literal => w.literal as int,
    }
}

/// An upper bound on the cost any single selectable operation can add.
pub open spec fn step_bound(w: CostModel) -> int {
    let v = 100 * (w.vec_op as int);
    let s = w.structure as int;
    let l = w.literal as int;
    if v >= s && v >= l {
        v
    } else if s >= l {
        s
    } else {
        l
    }
}

pub proof fn lemma_op_cost_bound(op: OpKind, w: CostModel)
    ensures
        0 <= op_cost_spec(op, w) <= step_bound(w),
{
}

/// The total cost of a sequence of nodes: the sum of their operation costs.
pub open spec fn sum_cost(nodes: Seq<Node>, w: CostModel) -> int
    decreases nodes.len(),
{
    if nodes.len() == 0 {
        0
    } else {
        sum_cost(nodes.drop_last(), w) + op_cost_spec(nodes.last().op, w)
    }
}

pub proof fn lemma_sum_cost_push(nodes: Seq<Node>, n: Node, w: CostModel)
    ensures
        sum_cost(nodes.push(n), w) == sum_cost(nodes, w) + op_cost_spec(n.op, w),
{
    assert(nodes.push(n).drop_last() =~= nodes);
    assert(nodes.push(n).last() == n);
}

/// The run-time cost model. Returns `None` exactly for a scalar operation,
/// which is thereby excluded from selection.
pub fn op_cost(op: OpKind, w: &CostModel) -> (r: Option<u64>)
    requires
        w.wf(),
    ensures
        match r {
            Some(c) => !is_scalar(op) && c as int == op_cost_spec(op, *w),
            None => is_scalar(op),
        },
{
    match op {
        OpKind::ScalarAdd | OpKind::ScalarMul | OpKind::ScalarSub | OpKind::ScalarNeg => None,
        OpKind::VecShift => Some(50 * w.vec_op),
        OpKind::VecStructure => Some(w.structure),
        OpKind::VecAdd | OpKind::VecMinus | OpKind::VecNeg => Some(w.vec_op),
        OpKind::VecMul => Some(100 * w.vec_op),
        OpKind::Literal => Some(w.literal),
    }
}

} // verus!
