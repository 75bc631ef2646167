//! The intermediate representation: label-based instructions over symbolic
//! memory accesses, and the context that owns them.

pub mod context;
pub mod generator;
pub mod lowering;
pub mod variable;

use crate::ast::ExprOp;
use crate::intermediate::variable::VariableIndex;
use vstd::prelude::*;

verus! {

/// A literal of the program. It is kept in a memory cell of its own.
#[derive(Debug, Clone, Copy, PartialEq, Eq, PartialOrd, Ord, Hash, Structural)]
pub struct Constant(pub i64);

impl Constant {
    #[verifier::when_used_as_spec(spec_value)]
    pub fn value(&self) -> (r: i64)
        ensures
            r == self.0,
    {
        self.0
    }

    pub open spec fn spec_value(&self) -> i64 {
        self.0
    }
}

/// Where an operand lives.
#[derive(Debug, Clone, Copy, PartialEq, Eq, Structural)]
pub enum Access {
    /// The cell of a literal.
    Constant(Constant),
    /// The cell of a scalar.
    Variable(VariableIndex),
    /// An array element at a literal index.
    ArrayStatic(VariableIndex, Constant),
    /// An array element at the index held by a scalar.
    ArrayDynamic(VariableIndex, VariableIndex),
}

/// The binary operations of the intermediate representation.
#[derive(Debug, Clone, Copy, PartialEq, Eq, Structural)]
pub enum OperationType {
    Plus,
    Minus,
    Times,
    Div,
    Mod,
    Shift,
}

impl OperationType {
    pub open spec fn of(op: ExprOp) -> OperationType {
        match op {
            ExprOp::Plus => OperationType::Plus,
            ExprOp::Minus => OperationType::Minus,
            ExprOp::Times => OperationType::Times,
            ExprOp::Div => OperationType::Div,
            ExprOp::Mod => OperationType::Mod,
        }
    }

    /// The operation that an operator of the source language stands for.
    pub fn from_expr_op(op: ExprOp) -> (r: OperationType)
        ensures
            r == Self::of(op),
    {
        match op {
            ExprOp::Plus => OperationType::Plus,
            ExprOp::Minus => OperationType::Minus,
            ExprOp::Times => OperationType::Times,
            ExprOp::Div => OperationType::Div,
            ExprOp::Mod => OperationType::Mod,
        }
    }
}

/// A branch target. Labels are handed out in increasing order by the context.
#[derive(Debug, Clone, Copy, PartialEq, Eq, PartialOrd, Ord, Structural)]
pub struct Label {
    pub id: usize,
}

impl Label {
    pub open spec fn spec_id(&self) -> usize {
        self.id
    }

    pub(crate) fn new(id: usize) -> (r: Self)
        ensures
            r.spec_id() == id,
    {
        Label { id }
    }

    #[verifier::when_used_as_spec(spec_id)]
    pub fn id(&self) -> (r: usize)
        ensures
            r == self.spec_id(),
    {
        self.id
    }

}

/// One instruction of the intermediate representation.
#[derive(Debug, Clone, Copy, PartialEq, Eq, Structural)]
pub enum Instruction {
    /// Marks the place a label stands for.
    Label { label: Label },
    /// Accumulator := operand.
    Load { access: Access },
    /// Announces the destination of the `Store` that follows the value's
    /// computation.
    PreStore { access: Access },
    /// Destination := accumulator.
    Store { access: Access },
    /// Accumulator := `left op right`.
    Operation { left: Access, op: OperationType, right: Access },
    Jump { label: Label },
    JNegative { label: Label },
    JPositive { label: Label },
    JZero { label: Label },
    /// Accumulator := next input.
    Get,
    /// Output the accumulator.
    Put,
}

impl Instruction {
    /// The label that a jump names.
    pub open spec fn jump_label(self) -> Option<Label> {
        match self {
            Instruction::Jump { label }
            | Instruction::JNegative { label }
            | Instruction::JPositive { label }
            | Instruction::JZero { label } => Some(label),
            _ => None,
        }
    }
}

/// First entry for `constant`, if there is one.
pub open spec fn lookup_constant(
    entries: Seq<(Constant, VariableIndex)>,
    constant: Constant,
) -> Option<VariableIndex>
    decreases entries.len(),
{
    if entries.len() == 0 {
        None
    } else {
        match lookup_constant(entries.drop_last(), constant) {
            Some(index) => Some(index),
            None => if entries.last().0 == constant {
                Some(entries.last().1)
            } else {
                None
            },
        }
    }
}

/// Position of the first of `names` that is `name`, if there is one.
pub open spec fn position_of_name(names: Seq<Seq<char>>, name: Seq<char>) -> Option<int>
    decreases names.len(),
{
    if names.len() == 0 {
        None
    } else {
        match position_of_name(names.drop_last(), name) {
            Some(position) => Some(position),
            None => if names.last() == name {
                Some(names.len() - 1)
            } else {
                None
            },
        }
    }
}

pub proof fn lemma_lookup_constant(entries: Seq<(Constant, VariableIndex)>, constant: Constant)
    ensures
        match lookup_constant(entries, constant) {
            Some(v) => exists|i: int|
                0 <= i < entries.len() && (#[trigger] entries[i]).0 == constant && entries[i].1
                    == v,
            None => forall|i: int|
                0 <= i < entries.len() ==> (#[trigger] entries[i]).0 != constant,
        },
    decreases entries.len(),
{
    if entries.len() > 0 {
        let front = entries.drop_last();
        lemma_lookup_constant(front, constant);
        assert(forall|i: int| 0 <= i < front.len() ==> front[i] == entries[i]);
        match lookup_constant(front, constant) {
            Some(v) => {
                let i = choose|i: int|
                    0 <= i < front.len() && (#[trigger] front[i]).0 == constant && front[i].1
                        == v;
                assert(entries[i].0 == constant && entries[i].1 == v);
            },
            None => {
                if entries.last().0 == constant {
                    assert(entries[entries.len() - 1].0 == constant);
                }
            },
        }
    }
}

} // verus!
