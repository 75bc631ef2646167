//! Variables of the intermediate representation.

use vstd::prelude::*;
use vstd::std_specs::cmp::PartialEqSpecImpl;

verus! {

/// The shape of a variable: what the memory layout depends on.
#[derive(Debug, Clone, Copy, PartialEq, Eq, Structural)]
pub enum Shape {
    Unit,
    Array { start: i64, end: i64 },
}

impl Shape {
    /// Number of cells the shape stands for: `1` for a unit,
    /// `end - start + 1` for an array (`0` where the range is empty).
    pub open spec fn size(self) -> nat {
        match self {
            Shape::Unit => 1,
            Shape::Array { start, end } => if start <= end {
                (end - start + 1) as nat
            } else {
                0
            },
        }
    }

    /// An array whose range holds at least one index, or a unit.
    pub open spec fn well_formed(self) -> bool {
        self matches Shape::Array { start, end } ==> start <= end
    }
}

/// The shapes of a list of variables, in order.
pub open spec fn shapes(variables: Seq<UniqueVariable>) -> Seq<Shape> {
    variables.map_values(|v: UniqueVariable| v.variable.shape())
}

/// The names of a list of variables, in order.
pub open spec fn names(variables: Seq<UniqueVariable>) -> Seq<Seq<char>> {
    variables.map_values(|v: UniqueVariable| v.variable.spec_name()@)
}

/// What a variable is: one cell, or a range of cells indexed from `start` to
/// `end` inclusive.
#[derive(Debug, Clone)]
pub enum Variable {
    Unit { name: String },
    Array { name: String, start: i64, end: i64 },
}

impl Variable {
    pub open spec fn shape(self) -> Shape {
        match self {
            Variable::Unit { .. } => Shape::Unit,
            Variable::Array { start, end, .. } => Shape::Array { start, end },
        }
    }

    /// Number of cells the variable stands for.
    pub open spec fn spec_size(self) -> nat {
        self.shape().size()
    }

    pub open spec fn spec_name(self) -> String {
        match self {
            Variable::Unit { name } => name,
            Variable::Array { name, .. } => name,
        }
    }

    pub open spec fn is_array(self) -> bool {
        self is Array
    }

    /// An array whose range holds at least one index, or a unit.
    pub open spec fn well_formed(self) -> bool {
        self.shape().well_formed()
    }

    /// See [`Variable::spec_size`].
    pub fn size(&self) -> (r: u128)
        ensures
            r == self.spec_size(),
    {
        match self {
            Variable::Unit { .. } => 1,
            Variable::Array { start, end, .. } => {
                if *start <= *end {
                    let span: i128 = *end as i128 - *start as i128 + 1;
                    span as u128
                } else {
                    0
                }
            },
        }
    }

    pub fn name(&self) -> (r: &String)
        ensures
            *r == self.spec_name(),
    {
        match self {
            Variable::Unit { name } => name,
            Variable::Array { name, .. } => name,
        }
    }
}

/// Position of a variable in the context's list. Two variables are the same
/// exactly when their indices are.
#[derive(Debug, Clone, Copy, PartialEq, Eq, PartialOrd, Ord, Structural)]
pub struct VariableIndex {
    pub id: usize,
}

impl VariableIndex {
    pub open spec fn spec_value(&self) -> usize {
        self.id
    }

    pub fn new(id: usize) -> (r: Self)
        ensures
            r.spec_value() == id,
    {
        VariableIndex { id }
    }

    #[verifier::when_used_as_spec(spec_value)]
    pub fn value(&self) -> (r: usize)
        ensures
            r == self.spec_value(),
    {
        self.id
    }

}

/// A variable together with its index.
#[derive(Debug, Clone)]
pub struct UniqueVariable {
    pub id: VariableIndex,
    pub variable: Variable,
}

impl UniqueVariable {
    pub open spec fn spec_id(&self) -> VariableIndex {
        self.id
    }

    pub open spec fn spec_variable(&self) -> Variable {
        self.variable
    }

    pub open spec fn spec_name(self) -> String {
        self.spec_variable().spec_name()
    }

    pub fn new(id: VariableIndex, variable: Variable) -> (r: Self)
        ensures
            r == (UniqueVariable { id, variable }),
    {
        UniqueVariable { id, variable }
    }

    #[verifier::when_used_as_spec(spec_id)]
    pub fn id(&self) -> (r: VariableIndex)
        ensures
            r == self.spec_id(),
    {
        self.id
    }

    pub fn variable(&self) -> (r: &Variable)
        ensures
            *r == self.spec_variable(),
    {
        &self.variable
    }

    pub fn name(&self) -> (r: &String)
        ensures
            *r == self.spec_name(),
    {
        self.variable.name()
    }
}

/// Two variables are the same exactly when their indices are, whatever
/// they are called.
impl PartialEq for UniqueVariable {
    fn eq(&self, other: &Self) -> (r: bool) {
        self.id.id == other.id.id
    }
}

impl Eq for UniqueVariable {

}

impl PartialEqSpecImpl for UniqueVariable {
    open spec fn obeys_eq_spec() -> bool {
        true
    }

    open spec fn eq_spec(&self, other: &Self) -> bool {
        self.id.id == other.id.id
    }
}

/// The value a cell is known to hold before the program runs.
pub enum VariableValue {
    Unit {  },
}

} // verus!
