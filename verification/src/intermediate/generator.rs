//! Lowering a program to the intermediate representation.

use crate::ast::{Command, Commands, Condition, Declaration, Expression, Identifier, Program};
use crate::ast::{RelOp, Value};
use crate::intermediate::context::{Context, Model};
use crate::intermediate::lowering::{last_local, lowering, other};
use crate::intermediate::lowering::{Branch, LoopBody, Lowering, Order, Test};
use crate::intermediate::variable::{Variable, VariableIndex};
use crate::intermediate::{Access, Constant, Instruction, Label, OperationType};
use vstd::prelude::*;
use vstd::string::StringExecFns;

verus! {

/// Builds the intermediate form of a program.
#[derive(Debug)]
struct CodeGenerator {
    context: Context,
    locals: Vec<VariableIndex>,
}

impl View for CodeGenerator {
    type V = Lowering;

    closed spec fn view(&self) -> Lowering {
        Lowering { model: self.context@, locals: self.locals@ }
    }
}

impl<'a> Test<'a> {
    /// The test names variables that exist.
    pub open spec fn valid_in(self, model: Model) -> bool {
        self matches Test::Counter { counter, limit, .. } ==> model.is_unit(counter)
            && model.is_unit(limit)
    }

    pub fn relation(&self) -> (r: RelOp)
        ensures
            r == self.op(),
    {
        match self {
            Test::Condition(condition) => condition.op,
            Test::Counter { ascending, .. } => {
                if *ascending {
                    RelOp::LEQ
                } else {
                    RelOp::GEQ
                }
            },
        }
    }
}

impl<'a> LoopBody<'a> {
    /// The step names a variable that exists.
    pub open spec fn valid_in(self, model: Model) -> bool {
        self.step matches Some((counter, _)) ==> model.is_unit(counter)
    }
}

impl CodeGenerator {
    /// The invariant of the builder: that of its context, and every local is
    /// a unit of the context.
    closed spec fn inv(&self) -> bool {
        &&& self.context.wf()
        &&& forall|k: int|
            0 <= k < self.locals@.len() ==> self.context@.is_unit(#[trigger] self.locals@[k])
    }

    fn new() -> (r: CodeGenerator)
        ensures
            r.inv(),
            r@ == (Lowering { model: Model::initial(), locals: Seq::empty() }),
    {
        CodeGenerator { context: Context::new(), locals: Vec::new() }
    }

    fn add_global(&mut self, variable: Variable)
        requires
            old(self).inv(),
            variable.well_formed(),
        ensures
            final(self).inv(),
            final(self)@ == old(self)@.add_global(variable.spec_name()@, variable.shape()),
            old(self)@.model.grows_to(final(self)@.model),
            final(self)@.model.code == old(self)@.model.code,
    {
        self.context.add_variable(variable);
        proof {
            old(self)@.model.lemma_growth_keeps_validity(self@.model);
        }
    }

    fn add_local(&mut self, variable: Variable) -> (var: VariableIndex)
        requires
            old(self).inv(),
            variable is Unit,
        ensures
            final(self).inv(),
            (final(self)@, var) == old(self)@.add_local(variable.spec_name()@),
            old(self)@.model.grows_to(final(self)@.model),
            final(self)@.model.code == old(self)@.model.code,
            final(self)@.model.is_unit(var),
    {
        let var = self.context.add_variable(variable);
        self.locals.push(var);
        proof {
            old(self)@.model.lemma_growth_keeps_validity(self@.model);
            assert forall|k: int| 0 <= k < self.locals@.len() implies self.context@.is_unit(
                #[trigger] self.locals@[k],
            ) by {
                if k < old(self).locals@.len() {
                    assert(old(self).context@.is_unit(old(self).locals@[k]));
                }
            }
        }
        var
    }

    fn pop_local(&mut self)
        requires
            old(self).inv(),
            old(self)@.locals.len() > 0,
        ensures
            final(self).inv(),
            final(self)@ == old(self)@.pop_local(),
            final(self)@.model == old(self)@.model,
    {
        self.locals.pop();
        proof {
            assert forall|k: int| 0 <= k < self.locals@.len() implies self.context@.is_unit(
                #[trigger] self.locals@[k],
            ) by {
                assert(old(self).context@.is_unit(old(self).locals@[k]));
            }
        }
    }

    /// The variable that `name` stands for: the innermost local of that
    /// name, else the first variable of that name.
    fn find_variable_by_name(&self, name: &String) -> (r: Option<VariableIndex>)
        requires
            self.inv(),
        ensures
            r == self@.resolve(name@),
            r matches Some(index) ==> index.id < self@.model.names.len(),
    {
        let mut i = self.locals.len();
        assert(self@.locals.take(i as int) =~= self@.locals);
        while i > 0
            invariant
                self.inv(),
                i <= self.locals@.len(),
                last_local(self@.model.names, self@.locals, name@) == last_local(
                    self@.model.names,
                    self@.locals.take(i as int),
                    name@,
                ),
            decreases i,
        {
            let local = self.locals[i - 1];
            proof {
                assert(self.context@.is_unit(self.locals@[i - 1]));
                assert(self@.locals.take(i as int).drop_last() =~= self@.locals.take(i - 1));
            }
            if self.context.get_variable(&local).name().eq(name) {
                return Some(local);
            }
            i -= 1;
        }
        match self.context.find_variable_by_name(name.as_str()) {
            Some(variable) => Some(variable.id()),
            None => None,
        }
    }

    fn emit(&mut self, instruction: Instruction)
        requires
            old(self).inv(),
            old(self)@.model.valid_instruction(instruction),
            instruction matches Instruction::Label { label } ==> forall|i: int|
                0 <= i < old(self)@.model.code.len() ==> #[trigger] old(self)@.model.code[i]
                    != instruction,
        ensures
            final(self).inv(),
            final(self)@ == old(self)@.emit(instruction),
            !(instruction is Label) ==> old(self)@.model.grows_to(final(self)@.model),
            !(instruction is Label) ==> forall|label: Label| #[trigger]
                final(self)@.model.dangling(label) ==> old(self)@.model.dangling(label)
                    || instruction.jump_label() == Some(label),
            final(self)@.model.names == old(self)@.model.names,
            final(self)@.model.shapes == old(self)@.model.shapes,
            final(self)@.model.constants == old(self)@.model.constants,
            final(self)@.model.labels == old(self)@.model.labels,
    {
        self.context.emit(instruction);
        proof {
            if !(instruction is Label) {
                assert forall|label: Label| #[trigger]
                    self@.model.dangling(label) implies old(self)@.model.dangling(label)
                    || instruction.jump_label() == Some(label) by {
                    if instruction.jump_label() is Some {
                        old(self)@.model.lemma_dangling_jump(instruction, label);
                    } else {
                        old(self)@.model.lemma_dangling_plain(instruction, label);
                    }
                }
            }
        }
    }

    fn register(&mut self, constant: Constant)
        requires
            old(self).inv(),
        ensures
            final(self).inv(),
            final(self)@ == old(self)@.register(constant),
            old(self)@.model.grows_to(final(self)@.model),
            final(self)@.model.code == old(self)@.model.code,
            final(self)@.model.constant_index(constant) is Some,
    {
        self.context.register_constant(constant);
        proof {
            if old(self)@.model.constant_index(constant) is None {
                assert(self@.model.constants.drop_last() =~= old(self)@.model.constants);
            }
            old(self)@.model.lemma_growth_keeps_validity(self@.model);
        }
    }

    fn new_label(&mut self) -> (label: Label)
        requires
            old(self).inv(),
        ensures
            final(self).inv(),
            (final(self)@, label) == old(self)@.new_label(),
            old(self)@.model.grows_to(final(self)@.model),
            final(self)@.model.code == old(self)@.model.code,
            label.id == old(self)@.model.labels,
            label.id < final(self)@.model.labels,
            final(self)@.model.unmarked(label),
    {
        let label = self.context.new_label();
        proof {
            old(self)@.model.lemma_growth_keeps_validity(self@.model);
            old(self)@.model.lemma_next_label_unmarked(label);
        }
        label
    }

    /// Marks `label`, which has been handed out since the model was `base`
    /// and has not been marked.
    fn emit_label(&mut self, label: Label, Ghost(base): Ghost<Model>)
        requires
            old(self).inv(),
            old(self)@.model.unmarked(label),
            label.id < old(self)@.model.labels,
            base.grows_to(old(self)@.model),
            label.id >= base.labels,
        ensures
            final(self).inv(),
            final(self)@ == old(self)@.emit(Instruction::Label { label }),
            base.grows_to(final(self)@.model),
            forall|unrelated: Label|
                unrelated != label && #[trigger] old(self)@.model.unmarked(unrelated)
                    ==> final(self)@.model.unmarked(unrelated),
            forall|other: Label| #[trigger]
                final(self)@.model.dangling(other) ==> old(self)@.model.dangling(other) && other
                    != label,
            !final(self)@.model.unmarked(label),
    {
        self.emit(Instruction::Label { label });
        proof {
            assert(self@.model.code[old(self)@.model.code.len() as int] == Instruction::Label {
                label,
            });
            assert forall|other: Label| #[trigger]
                self@.model.dangling(other) implies old(self)@.model.dangling(other) && other
                != label by {
                old(self)@.model.lemma_dangling_mark(label, other);
            }
            assert forall|unrelated: Label|
                unrelated != label && #[trigger] old(self)@.model.unmarked(
                    unrelated,
                ) implies self@.model.unmarked(unrelated) by {
                assert forall|i: int| 0 <= i < self@.model.code.len() implies (
                #[trigger] self@.model.code[i]) != (Instruction::Label { label: unrelated }) by {
                    if i < old(self)@.model.code.len() {
                        assert(self@.model.code[i] == old(self)@.model.code[i]);
                    }
                }
            }
        }
    }

    fn visit_declaration(&mut self, declaration: &Declaration) -> (r: Result<(), ()>)
        requires
            old(self).inv(),
        ensures
            match r {
                Ok(_) => final(self).inv() && old(self)@.declaration(*declaration) == Some(
                    final(self)@,
                ) && final(self)@.model.code == old(self)@.model.code,
                Err(_) => old(self)@.declaration(*declaration) is None,
            },
    {
        match declaration {
            Declaration::Var { name } => {
                self.add_global(Variable::Unit { name: name.clone() });
                Ok(())
            },
            Declaration::Array { name, start, end } => {
                if *start <= *end {
                    self.add_global(
                        Variable::Array { name: name.clone(), start: *start, end: *end },
                    );
                    Ok(())
                } else {
                    Err(())
                }
            },
        }
    }

    fn visit_identifier(&mut self, identifier: &Identifier) -> (r: Result<Access, ()>)
        requires
            old(self).inv(),
        ensures
            match r {
                Ok(access) => {
                    &&& final(self).inv()
                    &&& old(self)@.identifier(*identifier) == Some((final(self)@, access))
                    &&& old(self)@.model.grows_to(final(self)@.model)
                    &&& final(self)@.locals == old(self)@.locals
                    &&& old(self)@.model.settles(final(self)@.model)
                    &&& final(self)@.model.valid_access(access)
                    &&& !(access is Constant)
                    &&& final(self)@.model.code == old(self)@.model.code
                    &&& final(self)@.model.labels == old(self)@.model.labels
                },
                Err(_) => old(self)@.identifier(*identifier) is None,
            },
    {
        proof {
            self@.model.lemma_grows_reflexive();
        }
        match identifier {
            Identifier::ArrAccess { name, index } => {
                let name_index = match self.find_variable_by_name(name) {
                    Some(i) => i,
                    None => {
                        return Err(());
                    },
                };
                let index_index = match self.find_variable_by_name(index) {
                    Some(i) => i,
                    None => {
                        return Err(());
                    },
                };
                let is_array = match self.context.get_variable(&name_index).variable() {
                    Variable::Array { .. } => true,
                    Variable::Unit { .. } => false,
                };
                let is_unit = match self.context.get_variable(&index_index).variable() {
                    Variable::Array { .. } => false,
                    Variable::Unit { .. } => true,
                };
                if is_array && is_unit {
                    Ok(Access::ArrayDynamic(name_index, index_index))
                } else {
                    Err(())
                }
            },
            Identifier::ArrConstAccess { name, index } => {
                let name_index = match self.find_variable_by_name(name) {
                    Some(i) => i,
                    None => {
                        return Err(());
                    },
                };
                let in_range = match self.context.get_variable(&name_index).variable() {
                    Variable::Array { start, end, .. } => *start <= *index && *index <= *end,
                    Variable::Unit { .. } => false,
                };
                if in_range {
                    self.register(Constant(*index));
                    Ok(Access::ArrayStatic(name_index, Constant(*index)))
                } else {
                    Err(())
                }
            },
            Identifier::VarAccess { name } => {
                let name_index = match self.find_variable_by_name(name) {
                    Some(i) => i,
                    None => {
                        return Err(());
                    },
                };
                let is_unit = match self.context.get_variable(&name_index).variable() {
                    Variable::Array { .. } => false,
                    Variable::Unit { .. } => true,
                };
                if is_unit {
                    Ok(Access::Variable(name_index))
                } else {
                    Err(())
                }
            },
        }
    }

    fn visit_value(&mut self, value: &Value) -> (r: Result<Access, ()>)
        requires
            old(self).inv(),
        ensures
            match r {
                Ok(access) => {
                    &&& final(self).inv()
                    &&& old(self)@.value(*value) == Some((final(self)@, access))
                    &&& old(self)@.model.grows_to(final(self)@.model)
                    &&& final(self)@.locals == old(self)@.locals
                    &&& old(self)@.model.settles(final(self)@.model)
                    &&& final(self)@.model.valid_access(access)
                    &&& final(self)@.model.code == old(self)@.model.code
                    &&& final(self)@.model.labels == old(self)@.model.labels
                },
                Err(_) => old(self)@.value(*value) is None,
            },
    {
        match value {
            Value::Num(num) => {
                self.register(Constant(*num));
                Ok(Access::Constant(Constant(*num)))
            },
            Value::Identifier(identifier) => self.visit_identifier(identifier),
        }
    }

    /// Accumulator := `left op right`.
    fn visit_operation(&mut self, left: &Value, op: OperationType, right: &Value) -> (r: Result<
        (),
        (),
    >)
        requires
            old(self).inv(),
        ensures
            match r {
                Ok(_) => {
                    &&& final(self).inv()
                    &&& old(self)@.operation(*left, op, *right) == Some(final(self)@)
                    &&& old(self)@.model.grows_to(final(self)@.model)
                    &&& final(self)@.locals == old(self)@.locals
                    &&& old(self)@.model.settles(final(self)@.model)
                },
                Err(_) => old(self)@.operation(*left, op, *right) is None,
            },
    {
        let left_access = match self.visit_value(left) {
            Ok(a) => a,
            Err(_) => {
                return Err(());
            },
        };
        let ghost middle = self@.model;
        let right_access = match self.visit_value(right) {
            Ok(a) => a,
            Err(_) => {
                return Err(());
            },
        };
        proof {
            middle.lemma_growth_keeps_validity(self@.model);
            old(self)@.model.lemma_grows_transitive(middle, self@.model);
        }
        let ghost before = self@.model;
        self.emit(Instruction::Operation { left: left_access, op, right: right_access });
        proof {
            old(self)@.model.lemma_grows_transitive(before, self@.model);
        }
        Ok(())
    }

    fn visit_expression(&mut self, expr: &Expression) -> (r: Result<(), ()>)
        requires
            old(self).inv(),
        ensures
            match r {
                Ok(_) => {
                    &&& final(self).inv()
                    &&& old(self)@.expression(*expr) == Some(final(self)@)
                    &&& old(self)@.model.grows_to(final(self)@.model)
                    &&& final(self)@.locals == old(self)@.locals
                    &&& old(self)@.model.settles(final(self)@.model)
                },
                Err(_) => old(self)@.expression(*expr) is None,
            },
    {
        match expr {
            Expression::Simple { value } => {
                let access = match self.visit_value(value) {
                    Ok(a) => a,
                    Err(_) => {
                        return Err(());
                    },
                };
                let ghost before = self@.model;
                self.emit(Instruction::Load { access });
                proof {
                    old(self)@.model.lemma_grows_transitive(before, self@.model);
                }
                Ok(())
            },
            Expression::Compound { left, op, right } => self.visit_operation(
                left,
                OperationType::from_expr_op(*op),
                right,
            ),
        }
    }

    /// Accumulator := left side minus right side of what is tested.
    fn visit_test(&mut self, test: &Test) -> (r: Result<(), ()>)
        requires
            old(self).inv(),
            test.valid_in(old(self)@.model),
        ensures
            match r {
                Ok(_) => {
                    &&& final(self).inv()
                    &&& old(self)@.test(*test) == Some(final(self)@)
                    &&& old(self)@.model.grows_to(final(self)@.model)
                    &&& final(self)@.locals == old(self)@.locals
                    &&& old(self)@.model.settles(final(self)@.model)
                },
                Err(_) => old(self)@.test(*test) is None,
            },
    {
        match test {
            Test::Condition(condition) => self.visit_operation(
                &condition.left,
                OperationType::Minus,
                &condition.right,
            ),
            Test::Counter { counter, limit, .. } => {
                self.emit(
                    Instruction::Operation {
                        left: Access::Variable(*counter),
                        op: OperationType::Minus,
                        right: Access::Variable(*limit),
                    },
                );
                Ok(())
            },
        }
    }

    /// Two new labels, the test, and the conditional jump to the second
    /// body.
    fn open_branch(&mut self, test: &Test) -> (r: Result<Branch, ()>)
        requires
            old(self).inv(),
            test.valid_in(old(self)@.model),
        ensures
            match r {
                Ok(branch) => {
                    &&& final(self).inv()
                    &&& old(self)@.open_branch(*test) == Some((final(self)@, branch))
                    &&& old(self)@.model.grows_to(final(self)@.model)
                    &&& final(self)@.locals == old(self)@.locals
                    &&& forall|label: Label| #[trigger]
                        final(self)@.model.dangling(label) ==> old(self)@.model.dangling(label)
                            || label == branch.negative
                    &&& branch.negative.id < final(self)@.model.labels
                    &&& branch.end.id < final(self)@.model.labels
                    &&& branch.negative.id >= old(self)@.model.labels
                    &&& branch.end.id >= old(self)@.model.labels
                    &&& branch.negative != branch.end
                    &&& final(self)@.model.unmarked(branch.negative)
                    &&& final(self)@.model.unmarked(branch.end)
                },
                Err(_) => old(self)@.open_branch(*test) is None,
            },
    {
        let negative_label = self.new_label();
        let endif_label = self.new_label();
        let ghost since = self@.model;
        proof {
            old(self)@.model.lemma_growth_keeps_validity(since);
        }
        match self.visit_test(test) {
            Ok(_) => {},
            Err(_) => {
                return Err(());
            },
        }
        let cond_jump = match test.relation() {
            RelOp::EQ | RelOp::NEQ => Instruction::JZero { label: negative_label },
            RelOp::GT | RelOp::LEQ => Instruction::JPositive { label: negative_label },
            RelOp::LT | RelOp::GEQ => Instruction::JNegative { label: negative_label },
        };
        let first = match test.relation() {
            RelOp::NEQ | RelOp::LEQ | RelOp::GEQ => Order::First,
            RelOp::EQ | RelOp::LT | RelOp::GT => Order::Second,
        };
        let second = match first {
            Order::First => Order::Second,
            Order::Second => Order::First,
        };
        self.emit(cond_jump);
        proof {
            since.lemma_still_unmarked(self@.model, negative_label);
            since.lemma_still_unmarked(self@.model, endif_label);
        }
        Ok(Branch { negative: negative_label, end: endif_label, first, second })
    }

    /// The end of the first body and the start of the second.
    fn switch_branch(&mut self, branch: &Branch, Ghost(base): Ghost<Model>)
        requires
            old(self).inv(),
            base.grows_to(old(self)@.model),
            branch.negative.id >= base.labels,
            branch.negative.id < old(self)@.model.labels,
            branch.end.id < old(self)@.model.labels,
            branch.negative != branch.end,
            old(self)@.model.unmarked(branch.negative),
            old(self)@.model.unmarked(branch.end),
        ensures
            final(self).inv(),
            final(self)@ == old(self)@.switch_branch(*branch),
            base.grows_to(final(self)@.model),
            final(self)@.model.unmarked(branch.end),
            forall|label: Label| #[trigger]
                final(self)@.model.dangling(label) ==> (old(self)@.model.dangling(label) && label
                    != branch.negative) || label == branch.end,
    {
        self.emit(Instruction::Jump { label: branch.end });
        proof {
            old(self)@.model.lemma_still_unmarked(self@.model, branch.negative);
            old(self)@.model.lemma_still_unmarked(self@.model, branch.end);
        }
        self.emit_label(branch.negative, Ghost(base));
    }

    /// The end of the second body.
    fn close_branch(&mut self, branch: &Branch, Ghost(base): Ghost<Model>)
        requires
            old(self).inv(),
            base.grows_to(old(self)@.model),
            branch.end.id >= base.labels,
            branch.end.id < old(self)@.model.labels,
            old(self)@.model.unmarked(branch.end),
        ensures
            final(self).inv(),
            final(self)@ == old(self)@.close_branch(*branch),
            base.grows_to(final(self)@.model),
            forall|label: Label| #[trigger]
                final(self)@.model.dangling(label) ==> old(self)@.model.dangling(label) && label
                    != branch.end,
    {
        self.emit_label(branch.end, Ghost(base));
    }
}

impl CodeGenerator {
    fn visit_assign_command(&mut self, target: &Identifier, expr: &Expression) -> (r: Result<
        (),
        (),
    >)
        requires
            old(self).inv(),
        ensures
            match r {
                Ok(_) => {
                    &&& final(self).inv()
                    &&& old(self)@.assign(*target, *expr) == Some(final(self)@)
                    &&& old(self)@.model.grows_to(final(self)@.model)
                    &&& final(self)@.locals == old(self)@.locals
                    &&& old(self)@.model.settles(final(self)@.model)
                },
                Err(_) => old(self)@.assign(*target, *expr) is None,
            },
    {
        let access = match self.visit_identifier(target) {
            Ok(a) => a,
            Err(_) => {
                return Err(());
            },
        };
        let ghost found = self@.model;
        self.emit(Instruction::PreStore { access });
        match self.visit_expression(expr) {
            Ok(_) => {},
            Err(_) => {
                return Err(());
            },
        }
        proof {
            found.lemma_grows_keeps_validity(self@.model);
        }
        self.emit(Instruction::Store { access });
        Ok(())
    }

    fn visit_read_command(&mut self, target: &Identifier) -> (r: Result<(), ()>)
        requires
            old(self).inv(),
        ensures
            match r {
                Ok(_) => {
                    &&& final(self).inv()
                    &&& old(self)@.command(Command::Read { target: *target }) == Some(final(self)@)
                    &&& old(self)@.model.grows_to(final(self)@.model)
                    &&& final(self)@.locals == old(self)@.locals
                    &&& old(self)@.model.settles(final(self)@.model)
                },
                Err(_) => old(self)@.command(Command::Read { target: *target }) is None,
            },
    {
        let access = match self.visit_identifier(target) {
            Ok(a) => a,
            Err(_) => {
                return Err(());
            },
        };
        self.emit(Instruction::PreStore { access });
        self.emit(Instruction::Get);
        self.emit(Instruction::Store { access });
        Ok(())
    }

    fn visit_write_command(&mut self, value: &Value) -> (r: Result<(), ()>)
        requires
            old(self).inv(),
        ensures
            match r {
                Ok(_) => {
                    &&& final(self).inv()
                    &&& old(self)@.command(Command::Write { value: *value }) == Some(final(self)@)
                    &&& old(self)@.model.grows_to(final(self)@.model)
                    &&& final(self)@.locals == old(self)@.locals
                    &&& old(self)@.model.settles(final(self)@.model)
                },
                Err(_) => old(self)@.command(Command::Write { value: *value }) is None,
            },
    {
        let access = match self.visit_value(value) {
            Ok(a) => a,
            Err(_) => {
                return Err(());
            },
        };
        self.emit(Instruction::Load { access });
        self.emit(Instruction::Put);
        Ok(())
    }

    /// `counter := counter + 1`, or `- 1` for a descending loop.
    fn step(&mut self, counter: VariableIndex, ascending: bool)
        requires
            old(self).inv(),
            old(self)@.model.is_unit(counter),
        ensures
            final(self).inv(),
            final(self)@ == old(self)@.step(counter, ascending),
            old(self)@.model.grows_to(final(self)@.model),
            old(self)@.model.settles(final(self)@.model),
    {
        let access = Access::Variable(counter);
        self.emit(Instruction::PreStore { access });
        let ghost middle = self@.model;
        self.register(Constant(1));
        proof {
            middle.lemma_grows_keeps_validity(self@.model);
        }
        self.emit(
            Instruction::Operation {
                left: access,
                op: if ascending {
                    OperationType::Plus
                } else {
                    OperationType::Minus
                },
                right: Access::Constant(Constant(1)),
            },
        );
        self.emit(Instruction::Store { access });
    }

    /// `variable := value`.
    fn initialize(&mut self, variable: VariableIndex, value: &Value) -> (r: Result<(), ()>)
        requires
            old(self).inv(),
            old(self)@.model.is_unit(variable),
        ensures
            match r {
                Ok(_) => {
                    &&& final(self).inv()
                    &&& old(self)@.initialize(variable, *value) == Some(final(self)@)
                    &&& old(self)@.model.grows_to(final(self)@.model)
                    &&& final(self)@.locals == old(self)@.locals
                    &&& old(self)@.model.settles(final(self)@.model)
                },
                Err(_) => old(self)@.initialize(variable, *value) is None,
            },
    {
        let access = Access::Variable(variable);
        self.emit(Instruction::PreStore { access });
        let ghost middle = self@.model;
        let source = match self.visit_value(value) {
            Ok(a) => a,
            Err(_) => {
                return Err(());
            },
        };
        proof {
            middle.lemma_grows_keeps_validity(self@.model);
        }
        self.emit(Instruction::Load { access: source });
        self.emit(Instruction::Store { access });
        Ok(())
    }

    fn visit_command(&mut self, command: &Command) -> (r: Result<(), ()>)
        requires
            old(self).inv(),
        ensures
            match r {
                Ok(_) => {
                    &&& final(self).inv()
                    &&& old(self)@.command(*command) == Some(final(self)@)
                    &&& old(self)@.model.grows_to(final(self)@.model)
                    &&& final(self)@.locals == old(self)@.locals
                    &&& old(self)@.model.settles(final(self)@.model)
                },
                Err(_) => old(self)@.command(*command) is None,
            },
        decreases command, 1nat, 0nat,
    {
        match command {
            Command::IfElse { .. } => self.emit_if_else(command),
            Command::If { .. } => self.emit_if_else(command),
            Command::While { condition, commands } => self.emit_while(
                &Test::Condition(condition),
                &LoopBody { commands, step: None },
            ),
            Command::Do { commands, condition } => self.emit_do(
                &Test::Condition(condition),
                &LoopBody { commands, step: None },
            ),
            Command::For { .. } => self.visit_for_command(command),
            Command::Read { target } => self.visit_read_command(target),
            Command::Write { value } => self.visit_write_command(value),
            Command::Assign { target, expr } => self.visit_assign_command(target, expr),
        }
    }

    fn visit_commands(&mut self, commands: &Commands) -> (r: Result<(), ()>)
        requires
            old(self).inv(),
        ensures
            match r {
                Ok(_) => {
                    &&& final(self).inv()
                    &&& old(self)@.commands(*commands, commands@.len()) == Some(final(self)@)
                    &&& old(self)@.model.grows_to(final(self)@.model)
                    &&& final(self)@.locals == old(self)@.locals
                    &&& old(self)@.model.settles(final(self)@.model)
                },
                Err(_) => old(self)@.commands(*commands, commands@.len()) is None,
            },
        decreases commands, 1nat, 1nat,
    {
        let n = commands.len();
        let mut i: usize = 0;
        while i < n
            invariant
                n == commands@.len(),
                i <= n,
                self.inv(),
                old(self)@.commands(*commands, i as nat) == Some(self@),
                old(self)@.model.grows_to(self@.model),
                old(self)@.model.settles(self@.model),
                self@.locals == old(self)@.locals,
            decreases n - i,
        {
            match self.visit_command(&commands[i]) {
                Ok(_) => {},
                Err(_) => {
                    proof {
                        lemma_commands_fail(old(self)@, *commands, (i + 1) as nat, n as nat);
                    }
                    return Err(());
                },
            }
            i += 1;
        }
        Ok(())
    }

    /// The body of the given order of an `if`.
    fn branch_body(&mut self, command: &Command, order: Order) -> (r: Result<(), ()>)
        requires
            old(self).inv(),
        ensures
            match r {
                Ok(_) => {
                    &&& final(self).inv()
                    &&& old(self)@.branch_body(*command, order) == Some(final(self)@)
                    &&& old(self)@.model.grows_to(final(self)@.model)
                    &&& final(self)@.locals == old(self)@.locals
                    &&& old(self)@.model.settles(final(self)@.model)
                },
                Err(_) => old(self)@.branch_body(*command, order) is None,
            },
        decreases command, 0nat, 0nat,
    {
        match command {
            Command::IfElse { positive, negative, .. } => match order {
                Order::First => self.visit_commands(positive),
                Order::Second => self.visit_commands(negative),
            },
            Command::If { positive, .. } => match order {
                Order::First => self.visit_commands(positive),
                Order::Second => Ok(()),
            },
            _ => Ok(()),
        }
    }

    /// An `if` with or without `else`.
    fn emit_if_else(&mut self, command: &Command) -> (r: Result<(), ()>)
        requires
            old(self).inv(),
        ensures
            match r {
                Ok(_) => {
                    &&& final(self).inv()
                    &&& old(self)@.if_else(*command) == Some(final(self)@)
                    &&& old(self)@.model.grows_to(final(self)@.model)
                    &&& final(self)@.locals == old(self)@.locals
                    &&& old(self)@.model.settles(final(self)@.model)
                },
                Err(_) => old(self)@.if_else(*command) is None,
            },
        decreases command, 0nat, 1nat,
    {
        let ghost base = self@.model;
        match command {
            Command::IfElse { condition, .. } | Command::If { condition, .. } => {
                let branch = match self.open_branch(&Test::Condition(condition)) {
                    Ok(opened) => opened,
                    Err(_) => {
                        return Err(());
                    },
                };
                match self.branch_body(command, branch.first) {
                    Ok(_) => {},
                    Err(_) => {
                        return Err(());
                    },
                }
                let ghost s1 = self@;
                self.switch_branch(&branch, Ghost(base));
                let ghost s2 = self@;
                match self.branch_body(command, branch.second) {
                    Ok(_) => {},
                    Err(_) => {
                        return Err(());
                    },
                }
                let ghost s3 = self@;
                proof {
                    s2.model.lemma_still_unmarked(s3.model, branch.end);
                }
                self.close_branch(&branch, Ghost(base));
                proof {
                    let o = old(self)@.open_branch(Test::Condition(condition));
                    assert(o is Some);
                    assert(o->Some_0.0.branch_body(*command, branch.first) == Some(s1));
                    assert(s2 == s1.switch_branch(branch));
                    assert(s2.branch_body(*command, branch.second) == Some(s3));
                    assert(self@ == s3.close_branch(branch));
                }
                Ok(())
            },
            _ => Ok(()),
        }
    }

    /// The commands of a loop's body and, for a `for` loop, the step of the
    /// counter.
    fn loop_body(&mut self, body: &LoopBody) -> (r: Result<(), ()>)
        requires
            old(self).inv(),
            body.valid_in(old(self)@.model),
        ensures
            match r {
                Ok(_) => {
                    &&& final(self).inv()
                    &&& old(self)@.loop_body(*body) == Some(final(self)@)
                    &&& old(self)@.model.grows_to(final(self)@.model)
                    &&& final(self)@.locals == old(self)@.locals
                    &&& old(self)@.model.settles(final(self)@.model)
                },
                Err(_) => old(self)@.loop_body(*body) is None,
            },
        decreases *body.commands, 2nat, 0nat,
    {
        match self.visit_commands(body.commands) {
            Ok(_) => {},
            Err(_) => {
                return Err(());
            },
        }
        proof {
            old(self)@.model.lemma_grows_keeps_validity(self@.model);
        }
        match body.step {
            Some((counter, ascending)) => {
                self.step(counter, ascending);
            },
            None => {},
        }
        Ok(())
    }

    /// The jump back to the start of a loop, in the body of a branch where
    /// the test holds.
    fn repeat(&mut self, order: Order, start: Label)
        requires
            old(self).inv(),
            start.id < old(self)@.model.labels,
            !old(self)@.model.unmarked(start),
        ensures
            final(self).inv(),
            final(self)@ == old(self)@.repeat(order, start),
            old(self)@.model.grows_to(final(self)@.model),
            old(self)@.model.settles(final(self)@.model),
    {
        match order {
            Order::First => {
                self.emit(Instruction::Jump { label: start });
            },
            Order::Second => {},
        }
    }

    /// `do body while test`.
    fn emit_do(&mut self, test: &Test, body: &LoopBody) -> (r: Result<(), ()>)
        requires
            old(self).inv(),
            test.valid_in(old(self)@.model),
            body.valid_in(old(self)@.model),
        ensures
            match r {
                Ok(_) => {
                    &&& final(self).inv()
                    &&& old(self)@.emit_do(*test, *body) == Some(final(self)@)
                    &&& old(self)@.model.grows_to(final(self)@.model)
                    &&& final(self)@.locals == old(self)@.locals
                    &&& old(self)@.model.settles(final(self)@.model)
                },
                Err(_) => old(self)@.emit_do(*test, *body) is None,
            },
        decreases *body.commands, 3nat, 0nat,
    {
        let ghost base = self@.model;
        let start_label = self.new_label();
        self.emit_label(start_label, Ghost(base));
        let ghost marked = self@.model;
        proof {
            base.lemma_grows_keeps_validity(self@.model);
        }
        match self.loop_body(body) {
            Ok(_) => {},
            Err(_) => {
                return Err(());
            },
        }
        proof {
            base.lemma_grows_keeps_validity(self@.model);
        }
        let branch = match self.open_branch(test) {
            Ok(opened) => opened,
            Err(_) => {
                return Err(());
            },
        };
        proof {
            marked.lemma_marked_persists(self@.model, start_label);
        }
        self.repeat(branch.first, start_label);
        proof {
            marked.lemma_marked_persists(self@.model, start_label);
        }
        self.switch_branch(&branch, Ghost(base));
        proof {
            assert(marked.grows_to(self@.model));
            marked.lemma_marked_persists(self@.model, start_label);
        }
        self.repeat(branch.second, start_label);
        self.close_branch(&branch, Ghost(base));
        Ok(())
    }

    /// The `do` loop in the body of a branch where the test holds.
    fn guarded(&mut self, order: Order, test: &Test, body: &LoopBody) -> (r: Result<(), ()>)
        requires
            old(self).inv(),
            test.valid_in(old(self)@.model),
            body.valid_in(old(self)@.model),
        ensures
            match r {
                Ok(_) => {
                    &&& final(self).inv()
                    &&& old(self)@.guarded(order, *test, *body) == Some(final(self)@)
                    &&& old(self)@.model.grows_to(final(self)@.model)
                    &&& final(self)@.locals == old(self)@.locals
                    &&& old(self)@.model.settles(final(self)@.model)
                },
                Err(_) => old(self)@.guarded(order, *test, *body) is None,
            },
        decreases *body.commands, 4nat, 0nat,
    {
        match order {
            Order::First => self.emit_do(test, body),
            Order::Second => Ok(()),
        }
    }

    /// `while test do body`.
    fn emit_while(&mut self, test: &Test, body: &LoopBody) -> (r: Result<(), ()>)
        requires
            old(self).inv(),
            test.valid_in(old(self)@.model),
            body.valid_in(old(self)@.model),
        ensures
            match r {
                Ok(_) => {
                    &&& final(self).inv()
                    &&& old(self)@.emit_while(*test, *body) == Some(final(self)@)
                    &&& old(self)@.model.grows_to(final(self)@.model)
                    &&& final(self)@.locals == old(self)@.locals
                    &&& old(self)@.model.settles(final(self)@.model)
                },
                Err(_) => old(self)@.emit_while(*test, *body) is None,
            },
        decreases *body.commands, 5nat, 0nat,
    {
        let ghost base = self@.model;
        let branch = match self.open_branch(test) {
            Ok(opened) => opened,
            Err(_) => {
                return Err(());
            },
        };
        proof {
            base.lemma_grows_keeps_validity(self@.model);
        }
        match self.guarded(branch.first, test, body) {
            Ok(_) => {},
            Err(_) => {
                return Err(());
            },
        }
        self.switch_branch(&branch, Ghost(base));
        proof {
            base.lemma_grows_keeps_validity(self@.model);
        }
        match self.guarded(branch.second, test, body) {
            Ok(_) => {},
            Err(_) => {
                return Err(());
            },
        }
        self.close_branch(&branch, Ghost(base));
        Ok(())
    }

    /// A `for` loop.
    fn visit_for_command(&mut self, command: &Command) -> (r: Result<(), ()>)
        requires
            old(self).inv(),
        ensures
            match r {
                Ok(_) => {
                    &&& final(self).inv()
                    &&& old(self)@.for_loop(*command) == Some(final(self)@)
                    &&& old(self)@.model.grows_to(final(self)@.model)
                    &&& final(self)@.locals == old(self)@.locals
                    &&& old(self)@.model.settles(final(self)@.model)
                },
                Err(_) => old(self)@.for_loop(*command) is None,
            },
        decreases command, 0nat, 0nat,
    {
        match command {
            Command::For { counter, ascending, from, to, commands } => {
                let counter_var = self.add_local(Variable::Unit { name: counter.clone() });
                let tmp = self.add_local(Variable::Unit { name: counter.clone().concat("$to") });
                let ghost declared = self@.model;
                match self.initialize(counter_var, from) {
                    Ok(_) => {},
                    Err(_) => {
                        return Err(());
                    },
                }
                proof {
                    declared.lemma_grows_keeps_validity(self@.model);
                }
                match self.initialize(tmp, to) {
                    Ok(_) => {},
                    Err(_) => {
                        return Err(());
                    },
                }
                proof {
                    declared.lemma_grows_keeps_validity(self@.model);
                }
                let ghost before_loop = self@;
                match self.emit_while(
                    &Test::Counter { counter: counter_var, limit: tmp, ascending: *ascending },
                    &LoopBody { commands, step: Some((counter_var, *ascending)) },
                ) {
                    Ok(_) => {},
                    Err(_) => {
                        return Err(());
                    },
                }
                self.pop_local();
                self.pop_local();
                proof {
                    assert(self@.locals =~= old(self)@.locals);
                }
                Ok(())
            },
            _ => Ok(()),
        }
    }
}

/// Where the first `i` commands have no lowering, the first `n >= i` have
/// none.
proof fn lemma_commands_fail(s: Lowering, commands: Commands, i: nat, n: nat)
    requires
        i <= n <= commands@.len(),
        s.commands(commands, i) is None,
    ensures
        s.commands(commands, n) is None,
    decreases n - i,
{
    if i < n {
        lemma_commands_fail(s, commands, i, (n - 1) as nat);
    }
}

/// Lowers a program to its intermediate form: see [`lowering`].
pub fn generate(program: &Program) -> (r: Result<Context, ()>)
    ensures
        match r {
            Ok(context) => context.wf() && lowering(*program) == Some(context@)
                && context@.closed_jumps(),
            Err(_) => lowering(*program) is None,
        },
{
    let mut generator = CodeGenerator::new();
    match &program.declarations {
        Some(declarations) => {
            let n = declarations.len();
            let mut i: usize = 0;
            let ghost start = generator@;
            while i < n
                invariant
                    n == declarations@.len(),
                    i <= n,
                    generator.inv(),
                    generator@.model.code.len() == 0,
                    start == (Lowering { model: Model::initial(), locals: Seq::empty() }),
                    program.declarations == Some(*declarations),
                    start.declarations(declarations@, i as nat) == Some(generator@),
                decreases n - i,
            {
                match generator.visit_declaration(&declarations[i]) {
                    Ok(_) => {},
                    Err(_) => {
                        proof {
                            assert(start.declarations(declarations@, (i + 1) as nat) is None);
                            lemma_declarations_fail(start, declarations@, (i + 1) as nat, n as nat);
                            assert(start == (Lowering { model: Model::initial(), locals: Seq::empty() }));
                            assert(program.declarations == Some(*declarations));
                            assert(start.declarations(declarations@, declarations@.len()) is None);
                            assert(lowering(*program) is None);
                        }
                        return Err(());
                    },
                }
                i += 1;
            }
        },
        None => {},
    }
    let ghost declared = generator@.model;
    assert(declared.closed_jumps());
    match generator.visit_commands(&program.commands) {
        Ok(_) => Ok(generator.context),
        Err(_) => Err(()),
    }
}

/// Where the first `i` declarations have no lowering, the first `n >= i`
/// have none.
proof fn lemma_declarations_fail(s: Lowering, declarations: Seq<Declaration>, i: nat, n: nat)
    requires
        i <= n,
        s.declarations(declarations, i) is None,
    ensures
        s.declarations(declarations, n) is None,
    decreases n - i,
{
    if i < n {
        lemma_declarations_fail(s, declarations, i, (n - 1) as nat);
    }
}

} // verus!
