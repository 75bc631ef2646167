//! What lowering a program to the intermediate representation gives, as
//! functions on plain values.
//!
//! A [`Lowering`] is the builder between two steps: the context's model and
//! the stack of the variables that are local to the `for` loops being
//! lowered. Each step is a function from state to state, with no result where
//! the program names a variable that is not in scope or uses one against its
//! kind.

use crate::ast::{Command, Commands, Condition, Declaration, Expression, Identifier, Program};
use crate::ast::{RelOp, Value};
use crate::intermediate::context::Model;
use crate::intermediate::variable::{Shape, VariableIndex};
use crate::intermediate::{Access, Constant, Instruction, Label, OperationType};
use vstd::prelude::*;

verus! {

/// Which of the two bodies of a branch.
#[derive(Debug, Copy, Clone, PartialEq, Eq, Structural)]
pub enum Order {
    First,
    Second,
}

/// What a branch or a loop tests: a condition of the program, or whether the
/// counter of a `for` loop has passed its limit.
pub enum Test<'a> {
    Condition(&'a Condition),
    Counter { counter: VariableIndex, limit: VariableIndex, ascending: bool },
}

impl<'a> Test<'a> {
    pub open spec fn op(self) -> RelOp {
        match self {
            Test::Condition(condition) => condition.op,
            Test::Counter { ascending, .. } => if ascending {
                RelOp::LEQ
            } else {
                RelOp::GEQ
            },
        }
    }
}

/// The body of a loop: commands of the program and, for a `for` loop, the
/// step of the counter that follows them.
pub struct LoopBody<'a> {
    pub commands: &'a Commands,
    pub step: Option<(VariableIndex, bool)>,
}

/// A branch that has been opened: its two labels, and which body comes
/// first.
#[derive(Debug, Copy, Clone, PartialEq, Eq, Structural)]
pub struct Branch {
    /// Marks the second body.
    pub negative: Label,
    /// Marks the end.
    pub end: Label,
    /// The body that follows the conditional jump.
    pub first: Order,
    /// The body at `negative`.
    pub second: Order,
}

/// The name of the cell that holds the limit of the `for` loop over
/// `counter`.
pub open spec fn limit_name(counter: Seq<char>) -> Seq<char> {
    counter + "$to"@
}

/// The last of `locals` that is called `name`.
pub open spec fn last_local(names: Seq<Seq<char>>, locals: Seq<VariableIndex>, name: Seq<char>) -> Option<
    VariableIndex,
>
    decreases locals.len(),
{
    if locals.len() == 0 {
        None
    } else if locals.last().id < names.len() && names[locals.last().id as int] == name {
        Some(locals.last())
    } else {
        last_local(names, locals.drop_last(), name)
    }
}

/// The conditional jump that leaves the first body of a branch on `op`.
pub open spec fn branch_jump(op: RelOp, label: Label) -> Instruction {
    match op {
        RelOp::EQ | RelOp::NEQ => Instruction::JZero { label },
        RelOp::GT | RelOp::LEQ => Instruction::JPositive { label },
        RelOp::LT | RelOp::GEQ => Instruction::JNegative { label },
    }
}

/// Which body follows the conditional jump of a branch on `op`: the first
/// one where the jump is taken when the condition is false.
pub open spec fn branch_order(op: RelOp) -> Order {
    match op {
        RelOp::NEQ | RelOp::LEQ | RelOp::GEQ => Order::First,
        RelOp::EQ | RelOp::LT | RelOp::GT => Order::Second,
    }
}

pub open spec fn other(order: Order) -> Order {
    match order {
        Order::First => Order::Second,
        Order::Second => Order::First,
    }
}

/// The builder between two steps.
pub struct Lowering {
    pub model: Model,
    /// The variables of the `for` loops that are being lowered, innermost
    /// last.
    pub locals: Seq<VariableIndex>,
}

impl Lowering {
    /// The variable that `name` stands for: the innermost local of that
    /// name, else the first variable of that name.
    pub open spec fn resolve(self, name: Seq<char>) -> Option<VariableIndex> {
        match last_local(self.model.names, self.locals, name) {
            Some(index) => Some(index),
            None => match self.model.find(name) {
                Some(position) => Some(VariableIndex { id: position as usize }),
                None => None,
            },
        }
    }

    pub open spec fn emit(self, instruction: Instruction) -> Lowering {
        Lowering { model: self.model.emit(instruction), ..self }
    }

    pub open spec fn register(self, constant: Constant) -> Lowering {
        Lowering { model: self.model.register(constant), ..self }
    }

    pub open spec fn new_label(self) -> (Lowering, Label) {
        (
            Lowering { model: self.model.new_label(), ..self },
            Label { id: self.model.labels as usize },
        )
    }

    pub open spec fn add_global(self, name: Seq<char>, shape: Shape) -> Lowering {
        Lowering { model: self.model.add(name, shape), ..self }
    }

    pub open spec fn add_local(self, name: Seq<char>) -> (Lowering, VariableIndex) {
        let index = VariableIndex { id: self.model.names.len() as usize };
        (
            Lowering { model: self.model.add(name, Shape::Unit), locals: self.locals.push(index) },
            index,
        )
    }

    pub open spec fn pop_local(self) -> Lowering {
        Lowering { locals: self.locals.drop_last(), ..self }
    }

    /// A declaration adds a global variable; an array with an empty range
    /// has no lowering.
    pub open spec fn declaration(self, declaration: Declaration) -> Option<Lowering> {
        match declaration {
            Declaration::Var { name } => Some(self.add_global(name@, Shape::Unit)),
            Declaration::Array { name, start, end } => if start <= end {
                Some(self.add_global(name@, Shape::Array { start, end }))
            } else {
                None
            },
        }
    }

    /// The first `n` declarations, in order.
    pub open spec fn declarations(self, declarations: Seq<Declaration>, n: nat) -> Option<Lowering>
        decreases n,
    {
        if n == 0 {
            Some(self)
        } else {
            match self.declarations(declarations, (n - 1) as nat) {
                Some(s) => s.declaration(declarations[n - 1]),
                None => None,
            }
        }
    }

    /// The access that an identifier stands for. A scalar must be a unit,
    /// an indexed variable an array, an index variable a unit, and a literal
    /// index must lie in the array's range; the literal index is registered.
    pub open spec fn identifier(self, identifier: Identifier) -> Option<(Lowering, Access)> {
        match identifier {
            Identifier::VarAccess { name } => match self.resolve(name@) {
                Some(v) => if self.model.is_unit(v) {
                    Some((self, Access::Variable(v)))
                } else {
                    None
                },
                None => None,
            },
            Identifier::ArrAccess { name, index } => match (
                self.resolve(name@),
                self.resolve(index@),
            ) {
                (Some(a), Some(i)) => if self.model.is_array(a) && self.model.is_unit(i) {
                    Some((self, Access::ArrayDynamic(a, i)))
                } else {
                    None
                },
                _ => None,
            },
            Identifier::ArrConstAccess { name, index } => match self.resolve(name@) {
                Some(a) => if self.model.is_array(a) && self.model.shapes[a.id as int]->start
                    <= index <= self.model.shapes[a.id as int]->end {
                    Some((self.register(Constant(index)), Access::ArrayStatic(a, Constant(index))))
                } else {
                    None
                },
                None => None,
            },
        }
    }

    /// The access that a value stands for; a literal is registered.
    pub open spec fn value(self, value: Value) -> Option<(Lowering, Access)> {
        match value {
            Value::Num(num) => Some(
                (self.register(Constant(num)), Access::Constant(Constant(num))),
            ),
            Value::Identifier(identifier) => self.identifier(identifier),
        }
    }

    /// Accumulator := `left op right`.
    pub open spec fn operation(self, left: Value, op: OperationType, right: Value) -> Option<
        Lowering,
    > {
        match self.value(left) {
            Some((s, l)) => match s.value(right) {
                Some((s, r)) => Some(s.emit(Instruction::Operation { left: l, op, right: r })),
                None => None,
            },
            None => None,
        }
    }

    /// Accumulator := the expression's value.
    pub open spec fn expression(self, expression: Expression) -> Option<Lowering> {
        match expression {
            Expression::Simple { value } => match self.value(value) {
                Some((s, access)) => Some(s.emit(Instruction::Load { access })),
                None => None,
            },
            Expression::Compound { left, op, right } => self.operation(
                left,
                OperationType::of(op),
                right,
            ),
        }
    }

    /// Accumulator := left side minus right side of what is tested.
    pub open spec fn test(self, test: Test) -> Option<Lowering> {
        match test {
            Test::Condition(condition) => self.operation(
                condition.left,
                OperationType::Minus,
                condition.right,
            ),
            Test::Counter { counter, limit, .. } => Some(
                self.emit(
                    Instruction::Operation {
                        left: Access::Variable(counter),
                        op: OperationType::Minus,
                        right: Access::Variable(limit),
                    },
                ),
            ),
        }
    }

    /// Two new labels, the test, and the conditional jump to the second
    /// body.
    pub open spec fn open_branch(self, test: Test) -> Option<(Lowering, Branch)> {
        let (s, negative) = self.new_label();
        let (s, end) = s.new_label();
        match s.test(test) {
            Some(s) => Some(
                (
                    s.emit(branch_jump(test.op(), negative)),
                    Branch {
                        negative,
                        end,
                        first: branch_order(test.op()),
                        second: other(branch_order(test.op())),
                    },
                ),
            ),
            None => None,
        }
    }

    /// The end of the first body and the start of the second.
    pub open spec fn switch_branch(self, branch: Branch) -> Lowering {
        self.emit(Instruction::Jump { label: branch.end }).emit(
            Instruction::Label { label: branch.negative },
        )
    }

    /// The end of the second body.
    pub open spec fn close_branch(self, branch: Branch) -> Lowering {
        self.emit(Instruction::Label { label: branch.end })
    }

    /// `target := expression`.
    pub open spec fn assign(self, target: Identifier, expression: Expression) -> Option<Lowering> {
        match self.identifier(target) {
            Some((s, access)) => match s.emit(Instruction::PreStore { access }).expression(
                expression,
            ) {
                Some(s) => Some(s.emit(Instruction::Store { access })),
                None => None,
            },
            None => None,
        }
    }

    /// `counter := counter + 1`, or `- 1` for a descending loop.
    pub open spec fn step(self, counter: VariableIndex, ascending: bool) -> Lowering {
        let access = Access::Variable(counter);
        self.emit(Instruction::PreStore { access }).register(Constant(1)).emit(
            Instruction::Operation {
                left: access,
                op: if ascending {
                    OperationType::Plus
                } else {
                    OperationType::Minus
                },
                right: Access::Constant(Constant(1)),
            },
        ).emit(Instruction::Store { access })
    }

    /// `variable := value`.
    pub open spec fn initialize(self, variable: VariableIndex, value: Value) -> Option<Lowering> {
        let access = Access::Variable(variable);
        match self.emit(Instruction::PreStore { access }).value(value) {
            Some((s, source)) => Some(
                s.emit(Instruction::Load { access: source }).emit(Instruction::Store { access }),
            ),
            None => None,
        }
    }

    /// One command.
    pub open spec fn command(self, command: Command) -> Option<Lowering>
        decreases command, 1nat, 0nat,
    {
        match command {
            Command::IfElse { .. } => self.if_else(command),
            Command::If { .. } => self.if_else(command),
            Command::While { condition, commands } => self.emit_while(
                Test::Condition(&condition),
                LoopBody { commands: &commands, step: None },
            ),
            Command::Do { commands, condition } => self.emit_do(
                Test::Condition(&condition),
                LoopBody { commands: &commands, step: None },
            ),
            Command::For { .. } => self.for_loop(command),
            Command::Read { target } => match self.identifier(target) {
                Some((s, access)) => Some(
                    s.emit(Instruction::PreStore { access }).emit(Instruction::Get).emit(
                        Instruction::Store { access },
                    ),
                ),
                None => None,
            },
            Command::Write { value } => match self.value(value) {
                Some((s, access)) => Some(
                    s.emit(Instruction::Load { access }).emit(Instruction::Put),
                ),
                None => None,
            },
            Command::Assign { target, expr } => self.assign(target, expr),
        }
    }

    /// The first `n` of `commands`, in order.
    pub open spec fn commands(self, commands: Commands, n: nat) -> Option<Lowering>
        decreases commands, 1nat, n,
    {
        if n == 0 || n > commands@.len() {
            Some(self)
        } else {
            match self.commands(commands, (n - 1) as nat) {
                Some(s) => s.command(commands@[n - 1]),
                None => None,
            }
        }
    }

    /// The body of the given order of an `if`: the commands of the positive
    /// branch first, those of the negative branch, if there is one, second.
    pub open spec fn branch_body(self, command: Command, order: Order) -> Option<Lowering>
        decreases command, 0nat, 0nat,
    {
        match command {
            Command::IfElse { positive, negative, .. } => match order {
                Order::First => self.commands(positive, positive@.len()),
                Order::Second => self.commands(negative, negative@.len()),
            },
            Command::If { positive, .. } => match order {
                Order::First => self.commands(positive, positive@.len()),
                Order::Second => Some(self),
            },
            _ => Some(self),
        }
    }

    /// An `if` with or without `else`: the branch, with the body that the
    /// test selects after the jump and the other one at the label.
    pub open spec fn if_else(self, command: Command) -> Option<Lowering>
        decreases command, 0nat, 1nat,
    {
        match command {
            Command::IfElse { condition, .. } | Command::If { condition, .. } => {
                match self.open_branch(Test::Condition(&condition)) {
                    Some((s, branch)) => match s.branch_body(command, branch.first) {
                        Some(s) => match s.switch_branch(branch).branch_body(
                            command,
                            branch.second,
                        ) {
                            Some(s) => Some(s.close_branch(branch)),
                            None => None,
                        },
                        None => None,
                    },
                    None => None,
                }
            },
            _ => Some(self),
        }
    }

    /// The commands of a loop's body and, for a `for` loop, the step of the
    /// counter.
    pub open spec fn loop_body(self, body: LoopBody) -> Option<Lowering>
        decreases *body.commands, 2nat, 0nat,
    {
        match self.commands(*body.commands, body.commands@.len()) {
            Some(s) => match body.step {
                Some((counter, ascending)) => Some(s.step(counter, ascending)),
                None => Some(s),
            },
            None => None,
        }
    }

    /// The jump back to the start of a loop, in the body of a branch where
    /// the test holds.
    pub open spec fn repeat(self, order: Order, start: Label) -> Lowering {
        match order {
            Order::First => self.emit(Instruction::Jump { label: start }),
            Order::Second => self,
        }
    }

    /// `do body while test`: a label, the body, and a branch that jumps
    /// back to the label where the test holds.
    pub open spec fn emit_do(self, test: Test, body: LoopBody) -> Option<Lowering>
        decreases *body.commands, 3nat, 0nat,
    {
        let (s, start) = self.new_label();
        match s.emit(Instruction::Label { label: start }).loop_body(body) {
            Some(s) => match s.open_branch(test) {
                Some((s, branch)) => Some(
                    s.repeat(branch.first, start).switch_branch(branch).repeat(
                        branch.second,
                        start,
                    ).close_branch(branch),
                ),
                None => None,
            },
            None => None,
        }
    }

    /// The `do` loop in the body of a branch where the test holds.
    pub open spec fn guarded(self, order: Order, test: Test, body: LoopBody) -> Option<Lowering>
        decreases *body.commands, 4nat, 0nat,
    {
        match order {
            Order::First => self.emit_do(test, body),
            Order::Second => Some(self),
        }
    }

    /// `while test do body`: a branch on the test around `do body while
    /// test`.
    pub open spec fn emit_while(self, test: Test, body: LoopBody) -> Option<Lowering>
        decreases *body.commands, 5nat, 0nat,
    {
        match self.open_branch(test) {
            Some((s, branch)) => match s.guarded(branch.first, test, body) {
                Some(s) => match s.switch_branch(branch).guarded(branch.second, test, body) {
                    Some(s) => Some(s.close_branch(branch)),
                    None => None,
                },
                None => None,
            },
            None => None,
        }
    }

    /// A `for` loop: two locals, the counter and its limit, are set; a
    /// `while` loop runs the body and steps the counter as long as the
    /// counter has not passed the limit; then the locals leave the scope.
    pub open spec fn for_loop(self, command: Command) -> Option<Lowering>
        decreases command, 0nat, 0nat,
    {
        match command {
            Command::For { counter, ascending, from, to, commands } => {
                let (s, counter_var) = self.add_local(counter@);
                let (s, limit) = s.add_local(limit_name(counter@));
                match s.initialize(counter_var, from) {
                    Some(s) => match s.initialize(limit, to) {
                        Some(s) => match s.emit_while(
                            Test::Counter { counter: counter_var, limit, ascending },
                            LoopBody { commands: &commands, step: Some((counter_var, ascending)) },
                        ) {
                            Some(s) => Some(s.pop_local().pop_local()),
                            None => None,
                        },
                        None => None,
                    },
                    None => None,
                }
            },
            _ => Some(self),
        }
    }
}

/// The intermediate form of a program: its declarations as globals of a new
/// context, then its commands. There is none where the program names a
/// variable that is not in scope, uses one against its kind, indexes an
/// array outside its range by a literal, or declares an array with an empty
/// range.
pub open spec fn lowering(program: Program) -> Option<Model> {
    let start = Lowering { model: Model::initial(), locals: Seq::empty() };
    let declared = match program.declarations {
        Some(declarations) => start.declarations(declarations@, declarations@.len()),
        None => Some(start),
    };
    match declared {
        Some(s) => match s.commands(program.commands, program.commands@.len()) {
            Some(s) => Some(s.model),
            None => None,
        },
        None => None,
    }
}

} // verus!
