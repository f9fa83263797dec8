//! What an operator of a plan costs.

use vstd::prelude::*;
use crate::float::{FloatModel, FloatOp, Floats, F64};

verus! {

/// The kinds of operators.
#[derive(Clone, Copy, Debug, PartialEq, Eq, Structural)]
pub enum OperatorType {
    TableScan,
    IndexScan,
    Filter,
    HashJoin,
    Aggregate,
    Sort,
    Limit,
}

/// An operator: how many rows it reads and how many it yields.
#[derive(Clone, Copy, Debug, PartialEq, Eq, Structural)]
pub struct OperatorCost {
    pub operator: OperatorType,
    pub input_rows: usize,
    pub output_rows: usize,
    pub selectivity: F64,
}

impl OperatorCost {
    /// An operator.
    pub fn new(
        operator: OperatorType,
        input_rows: usize,
        output_rows: usize,
        selectivity: F64,
    ) -> (r: Self)
        ensures
            r == (OperatorCost { operator, input_rows, output_rows, selectivity }),
    {
        OperatorCost { operator, input_rows, output_rows, selectivity }
    }
}

/// The bits of the number one.
pub const ONE: u64 = 0x3ff0_0000_0000_0000;

/// The cost of a row that is read and of a row that is yielded.
#[derive(Clone, Copy, Debug, PartialEq, Eq, Structural)]
pub struct CostModel {
    pub read_cost: F64,
    pub yield_cost: F64,
}

/// The cost of an operator: that of the rows that it reads and of those that it
/// yields.
pub open spec fn operator_cost(m: CostModel, input: usize, output: usize, fl: FloatModel) -> u64 {
    (fl.gives)(
        FloatOp::Plus,
        (fl.gives)(
            FloatOp::Times,
            (fl.gives)(FloatOp::OfCount, input as u64, 0),
            m.read_cost.bits,
        ),
        (fl.gives)(
            FloatOp::Times,
            (fl.gives)(FloatOp::OfCount, output as u64, 0),
            m.yield_cost.bits,
        ),
    )
}

/// The cost of the first `n` operators of a plan.
pub open spec fn plan_cost(m: CostModel, ops: Seq<OperatorCost>, n: int, fl: FloatModel) -> u64
    decreases n,
{
    if n <= 0 || n > ops.len() {
        0
    } else {
        (fl.gives)(
            FloatOp::Plus,
            plan_cost(m, ops, n - 1, fl),
            operator_cost(m, ops[n - 1].input_rows, ops[n - 1].output_rows, fl),
        )
    }
}

impl CostModel {
    /// A model in which every row costs one.
    pub fn new() -> (r: Self)
        ensures
            r == unit_costs(),
    {
        CostModel { read_cost: F64 { bits: ONE }, yield_cost: F64 { bits: ONE } }
    }

    /// The cost of an operator.
    pub fn estimate_cost<F: Floats>(&self, op: &OperatorCost, floats: &F) -> (r: F64)
        requires
            floats.sound(),
        ensures
            r.bits == operator_cost(*self, op.input_rows, op.output_rows, floats.model()),
    {
        let input = floats.apply(FloatOp::OfCount, op.input_rows as u64, 0);
        let output = floats.apply(FloatOp::OfCount, op.output_rows as u64, 0);
        let reads = floats.apply(FloatOp::Times, input, self.read_cost.bits);
        let yields = floats.apply(FloatOp::Times, output, self.yield_cost.bits);
        F64 { bits: floats.apply(FloatOp::Plus, reads, yields) }
    }

    /// The cost of a plan.
    pub fn estimate_total_cost<F: Floats>(&self, ops: &[OperatorCost], floats: &F) -> (r: F64)
        requires
            floats.sound(),
        ensures
            r.bits == plan_cost(*self, ops@, ops@.len() as int, floats.model()),
    {
        let mut total: u64 = 0;
        let mut i: usize = 0;
        while i < ops.len()
            invariant
                i <= ops@.len(),
                floats.sound(),
                total == plan_cost(*self, ops@, i as int, floats.model()),
            decreases ops@.len() - i,
        {
            let c = self.estimate_cost(&ops[i], floats);
            total = floats.apply(FloatOp::Plus, total, c.bits);
            i = i + 1;
        }
        F64 { bits: total }
    }
}

/// The costs of the model in which every row costs one.
pub open spec fn unit_costs() -> CostModel {
    CostModel { read_cost: F64 { bits: ONE }, yield_cost: F64 { bits: ONE } }
}

impl Default for CostModel {
    fn default() -> (r: Self)
        ensures
            r == unit_costs(),
    {
        CostModel::new()
    }
}

} // verus!
