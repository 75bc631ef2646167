//! The syntax tree of the source language.

use vstd::prelude::*;

verus! {

#[derive(Debug, PartialEq)]
pub struct Program {
    pub declarations: Option<Declarations>,
    pub commands: Commands,
}

pub type Declarations = Vec<Declaration>;

#[derive(Debug, PartialEq, Clone)]
pub enum Declaration {
    Var { name: String },
    Array { name: String, start: i64, end: i64 },
}

impl Declaration {
    pub open spec fn spec_name(self) -> String {
        match self {
            Declaration::Var { name } => name,
            Declaration::Array { name, .. } => name,
        }
    }

    pub fn name(&self) -> (r: &String)
        ensures
            *r == self.spec_name(),
    {
        match self {
            Declaration::Var { name } => name,
            Declaration::Array { name, .. } => name,
        }
    }
}

pub type Commands = Vec<Command>;

#[derive(Debug, PartialEq)]
pub enum Command {
    IfElse { condition: Condition, positive: Commands, negative: Commands },
    If { condition: Condition, positive: Commands },
    While { condition: Condition, commands: Commands },
    Do { commands: Commands, condition: Condition },
    For { counter: String, ascending: bool, from: Value, to: Value, commands: Commands },
    Read { target: Identifier },
    Write { value: Value },
    Assign { target: Identifier, expr: Expression },
}

#[derive(Debug, PartialEq, Eq, Clone, Copy, Structural)]
pub enum ExprOp {
    Plus,
    Minus,
    Times,
    Div,
    Mod,
}

#[derive(Debug, PartialEq, Clone)]
pub enum Expression {
    Simple { value: Value },
    Compound { left: Value, op: ExprOp, right: Value },
}

#[derive(Debug, PartialEq, Eq, Clone, Copy, Structural)]
pub enum RelOp {
    EQ,
    NEQ,
    LEQ,
    LT,
    GEQ,
    GT,
}

#[derive(Debug, PartialEq, Clone)]
pub struct Condition {
    pub left: Value,
    pub op: RelOp,
    pub right: Value,
}

#[derive(Debug, PartialEq, Clone)]
pub enum Value {
    Num(i64),
    Identifier(Identifier),
}

#[derive(Debug, PartialEq, Clone)]
pub enum Identifier {
    VarAccess { name: String },
    ArrAccess { name: String, index: String },
    ArrConstAccess { name: String, index: i64 },
}

impl Identifier {
    /// The variable or array that the identifier names.
    pub open spec fn spec_name(self) -> String {
        match self {
            Identifier::VarAccess { name } => name,
            Identifier::ArrAccess { name, .. } => name,
            Identifier::ArrConstAccess { name, .. } => name,
        }
    }

    /// Every name that occurs in the identifier: the variable or array, then
    /// the index variable where there is one.
    pub open spec fn spec_names(self) -> Seq<String> {
        match self {
            Identifier::VarAccess { name } => seq![name],
            Identifier::ArrAccess { name, index } => seq![name, index],
            Identifier::ArrConstAccess { name, .. } => seq![name],
        }
    }

    pub fn name(&self) -> (r: &String)
        ensures
            *r == self.spec_name(),
    {
        match self {
            Identifier::VarAccess { name } => name,
            Identifier::ArrAccess { name, .. } => name,
            Identifier::ArrConstAccess { name, .. } => name,
        }
    }

    pub fn names(&self) -> (r: Vec<&String>)
        ensures
            r@.len() == self.spec_names().len(),
            forall|i: int| 0 <= i < r@.len() ==> *r@[i] == self.spec_names()[i],
    {
        match self {
            Identifier::VarAccess { name } => vec![name],
            Identifier::ArrAccess { name, index } => vec![name, index],
            Identifier::ArrConstAccess { name, .. } => vec![name],
        }
    }
}

} // verus!
