//! From the intermediate representation to a program of the virtual machine.

pub mod arithmetic;
pub mod division;
pub mod instruction_manager;
pub mod materialize;
pub mod memory;
pub mod operands;
pub mod placement;
pub mod product;
pub mod resolution;
pub mod shortcuts;
pub mod state;
pub mod sums;

use crate::instruction::Instruction as VmInstruction;
use crate::intermediate::context::Context;
use crate::intermediate::variable::{Variable, VariableIndex};
use crate::intermediate::{Access, Constant, Instruction, Label, OperationType};
use crate::translator::instruction_manager::{InstructionManager, JumpKind};
use crate::translator::memory::{Memory, MemoryLocation};
use crate::translator::memory::{array_cells, array_count, layout, layout_input, unit_count};
use crate::translator::memory::lemma_counts_total;
use crate::translator::state::{inserted, precedes, sorted, valued, with_constants};
use crate::translator::state::{lemma_inserted_at, lemma_register_fits, lemma_state_of};
use crate::translator::state::{lemma_preserves, literal, small_literal};
use crate::translator::state::{prepared, state_of, translatable, translation};
use vstd::slice::slice_to_vec;
use crate::translator::state::{BinaryInstruction, DivisionCells, ProductCells, State};
use vstd::prelude::*;
use vstd::string::StringExecFns;

verus! {

impl BinaryInstruction {
    pub fn create(self, cell: MemoryLocation) -> (r: VmInstruction)
        ensures
            r == self.at(cell),
    {
        match self {
            BinaryInstruction::Add => VmInstruction::Add(cell.0),
            BinaryInstruction::Sub => VmInstruction::Sub(cell.0),
            BinaryInstruction::Shift => VmInstruction::Shift(cell.0),
        }
    }
}

/// Translates a program in intermediate form.
pub struct Generator {
    context: Context,
    memory: Memory,
    instruction_manager: InstructionManager,
}

impl View for Generator {
    type V = State;

    closed spec fn view(&self) -> State {
        State {
            names: self.context@.names,
            constants: self.context@.constants,
            slots: self.memory.slots(),
            next_cell: self.memory.next_cell() as nat,
            emission: self.instruction_manager@,
        }
    }
}

impl Generator {
    /// The program to translate.
    pub closed spec fn spec_context(&self) -> Context {
        self.context
    }

    /// The invariant of the translator at work.
    pub closed spec fn inv(&self) -> bool {
        &&& self.context.wf()
        &&& self@.wf()
        &&& self.instruction_manager@.positions.len() == self.context@.labels
    }

    /// Hands out a label that the target program may jump to.
    fn fresh_label(&mut self) -> (label: Label)
        requires
            old(self).inv(),
        ensures
            final(self).inv(),
            (final(self)@, label.id() as int) == old(self)@.fresh_label(),
            old(self)@.preserves(final(self)@),
            final(self)@.valid_label(label.id() as int),
            final(self)@.next_cell == old(self)@.next_cell,
    {
        let label = self.context.new_label();
        self.instruction_manager.add_label();
        proof {
            lemma_preserves(old(self)@, self@);
        }
        label
    }

    /// Emits one instruction.
    fn emit(&mut self, instruction: VmInstruction)
        requires
            old(self).inv(),
        ensures
            final(self).inv(),
            final(self)@ == old(self)@.push(instruction),
            old(self)@.preserves(final(self)@),
            final(self)@.next_cell == old(self)@.next_cell,
    {
        self.instruction_manager.push(instruction);
        proof {
            lemma_preserves(old(self)@, self@);
        }
    }

    /// Emits `count` times the same instruction.
    fn emit_times(&mut self, instruction: VmInstruction, count: u64)
        requires
            old(self).inv(),
        ensures
            final(self).inv(),
            final(self)@ == old(self)@.push_times(instruction, count as nat),
            old(self)@.preserves(final(self)@),
            final(self)@.next_cell == old(self)@.next_cell,
    {
        let mut i: u64 = 0;
        proof {
            lemma_preserves(old(self)@, self@);
        }
        while i < count
            invariant
                i <= count,
                self.inv(),
                self@ == old(self)@.push_times(instruction, i as nat),
                old(self)@.preserves(self@),
                self@.next_cell == old(self)@.next_cell,
            decreases count - i,
        {
            self.emit(instruction);
            i += 1;
        }
    }

    /// Emits a jump to `label`.
    fn jump(&mut self, label: &Label, kind: JumpKind)
        requires
            old(self).inv(),
            old(self)@.valid_label(label.id() as int),
        ensures
            final(self).inv(),
            final(self)@ == old(self)@.jump(label.id() as int, kind),
            old(self)@.preserves(final(self)@),
            final(self)@.next_cell == old(self)@.next_cell,
    {
        self.instruction_manager.translate_jump(label, kind);
        proof {
            lemma_preserves(old(self)@, self@);
        }
    }

    /// Marks `label` at the place of the next instruction.
    fn mark(&mut self, label: &Label)
        requires
            old(self).inv(),
            old(self)@.valid_label(label.id() as int),
        ensures
            final(self).inv(),
            final(self)@ == old(self)@.mark(label.id() as int),
            old(self)@.preserves(final(self)@),
            final(self)@.next_cell == old(self)@.next_cell,
    {
        self.instruction_manager.translate_label(label);
        proof {
            lemma_preserves(old(self)@, self@);
        }
    }

    /// The cell of a literal.
    fn get_constant_location(&self, value: i64) -> (r: MemoryLocation)
        requires
            self.inv(),
            self@.has_constant(value),
        ensures
            r == self@.constant_location(value),
    {
        let ind = self.context.get_constant_index(&Constant(value));
        self.memory.get_location(ind)
    }

    /// The cell of the translator's own scalar for `name`; the first request
    /// registers it.
    fn get_or_register_temp(&mut self, name: &str) -> (r: MemoryLocation)
        requires
            old(self).inv(),
            old(self)@.has_room(1),
        ensures
            final(self).inv(),
            (final(self)@, r) == old(self)@.temp(name@),
            old(self)@.preserves(final(self)@),
            final(self)@.next_cell <= old(self)@.next_cell + 1,
    {
        let full = "tmp$".to_owned().concat(name);
        let found = match self.context.find_variable_by_name(full.as_str()) {
            Some(v) => Some(v.id()),
            None => None,
        };
        match found {
            Some(id) => {
                proof {
                    lemma_preserves(old(self)@, self@);
                }
                self.memory.get_location(id)
            },
            None => {
                let new_ind = self.context.add_variable(Variable::Unit { name: full });
                let r = self.memory.add_variable(new_ind, None);
                proof {
                    lemma_preserves(old(self)@, self@);
                }
                r
            },
        }
    }

    fn translate_load_zero(&mut self)
        requires
            old(self).inv(),
        ensures
            final(self).inv(),
            final(self)@ == old(self)@.load_zero(),
            old(self)@.preserves(final(self)@),
            final(self)@.next_cell == old(self)@.next_cell,
    {
        self.emit(VmInstruction::Sub(0));
    }

    fn translate_neg(&mut self, original: MemoryLocation)
        requires
            old(self).inv(),
        ensures
            final(self).inv(),
            final(self)@ == old(self)@.neg(original),
            old(self)@.preserves(final(self)@),
            final(self)@.next_cell == old(self)@.next_cell,
    {
        self.emit(VmInstruction::Sub(original.0));
        self.emit(VmInstruction::Sub(original.0));
    }

    fn translate_neg_tmp(&mut self)
        requires
            old(self).inv(),
            old(self)@.has_room(1),
        ensures
            final(self).inv(),
            final(self)@ == old(self)@.neg_tmp(),
            old(self)@.preserves(final(self)@),
            final(self)@.next_cell <= old(self)@.next_cell + 1,
    {
        let tmp = self.get_or_register_temp("neg");
        self.emit(VmInstruction::Store(tmp.0));
        self.translate_neg(tmp);
    }

    fn translate_abs(&mut self, original: MemoryLocation)
        requires
            old(self).inv(),
        ensures
            final(self).inv(),
            final(self)@ == old(self)@.abs(original),
            old(self)@.preserves(final(self)@),
            final(self)@.next_cell == old(self)@.next_cell,
    {
        let label_pos = self.fresh_label();
        self.jump(&label_pos, JumpKind::Jpos);
        self.translate_neg(original);
        self.mark(&label_pos);
    }

    /// The cells that an access names.
    fn address(&self, access: &Access) -> (r: (MemoryLocation, MemoryLocation))
        requires
            self.inv(),
            self@.valid_access(*access),
        ensures
            r == self@.address(*access),
    {
        match access {
            Access::Constant(c) => (self.get_constant_location(c.value()), MemoryLocation(0)),
            Access::Variable(ind) => (self.memory.get_location(*ind), MemoryLocation(0)),
            Access::ArrayStatic(arr, c) => {
                let cell: u64 = match self.memory.slot(*arr).value {
                    Some(base) => (base as i128 + c.value() as i128) as u64,
                    None => 0,
                };
                (MemoryLocation(cell), MemoryLocation(0))
            },
            Access::ArrayDynamic(arr, ind) => (
                self.memory.get_location(*arr),
                self.memory.get_location(*ind),
            ),
        }
    }

    fn translate_load_access(&mut self, access: &Access)
        requires
            old(self).inv(),
            old(self)@.valid_access(*access),
        ensures
            final(self).inv(),
            final(self)@ == old(self)@.load(*access),
            old(self)@.preserves(final(self)@),
            final(self)@.next_cell == old(self)@.next_cell,
    {
        let (first, second) = self.address(access);
        match access {
            Access::ArrayDynamic(_, _) => {
                self.emit(VmInstruction::Load(first.0));
                self.emit(VmInstruction::Add(second.0));
                self.emit(VmInstruction::Loadi(0));
            },
            _ => {
                self.emit(VmInstruction::Load(first.0));
            },
        }
    }

    fn translate_store_access(&mut self, access: &Access)
        requires
            old(self).inv(),
            old(self)@.valid_access(*access),
            old(self)@.has_room(2),
        ensures
            final(self).inv(),
            final(self)@ == old(self)@.store(*access),
            old(self)@.preserves(final(self)@),
            final(self)@.next_cell <= old(self)@.next_cell + 2,
    {
        let (first, second) = self.address(access);
        match access {
            Access::ArrayDynamic(_, _) => {
                let tmp1 = self.get_or_register_temp("store_tmp1");
                self.emit(VmInstruction::Store(tmp1.0));
                self.emit(VmInstruction::Load(first.0));
                self.emit(VmInstruction::Add(second.0));
                let tmp2 = self.get_or_register_temp("store_tmp2");
                self.emit(VmInstruction::Store(tmp2.0));
                self.emit(VmInstruction::Load(tmp1.0));
                self.emit(VmInstruction::Storei(tmp2.0));
            },
            _ => {
                self.emit(VmInstruction::Store(first.0));
            },
        }
    }

    fn translate_simple_bin_op(&mut self, left: &Access, right: &Access, op: BinaryInstruction)
        requires
            old(self).inv(),
            old(self)@.valid_access(*left),
            old(self)@.valid_access(*right),
            old(self)@.has_room(1),
        ensures
            final(self).inv(),
            final(self)@ == old(self)@.simple_bin_op(*left, *right, op),
            old(self)@.preserves(final(self)@),
            final(self)@.next_cell <= old(self)@.next_cell + 1,
    {
        self.translate_load_access(right);
        let tmp = self.get_or_register_temp("bin_op");
        self.emit(VmInstruction::Store(tmp.0));
        self.translate_load_access(left);
        self.emit(op.create(tmp));
    }

    /// Accumulator := accumulator + `amount`, by increments or decrements.
    fn translate_step_by(&mut self, amount: i64)
        requires
            old(self).inv(),
            -10 <= amount <= 10,
        ensures
            final(self).inv(),
            final(self)@ == old(self)@.step_by(amount as int),
            old(self)@.preserves(final(self)@),
            final(self)@.next_cell == old(self)@.next_cell,
    {
        if amount >= 0 {
            self.emit_times(VmInstruction::Inc, amount as u64);
        } else {
            self.emit_times(VmInstruction::Dec, (-amount) as u64);
        }
    }

    fn translate_plus(&mut self, left: &Access, right: &Access)
        requires
            old(self).inv(),
            old(self)@.valid_access(*left),
            old(self)@.valid_access(*right),
            old(self)@.has_room(1),
        ensures
            final(self).inv(),
            final(self)@ == old(self)@.plus(*left, *right),
            old(self)@.preserves(final(self)@),
            final(self)@.next_cell <= old(self)@.next_cell + 1,
    {
        match (small_literal_of(left), small_literal_of(right)) {
            (Some(c), _) => {
                self.translate_load_access(right);
                self.translate_step_by(c);
            },
            (None, Some(c)) => {
                self.translate_load_access(left);
                self.translate_step_by(c);
            },
            (None, None) => {
                self.translate_simple_bin_op(left, right, BinaryInstruction::Add);
            },
        }
    }

    fn translate_minus(&mut self, left: &Access, right: &Access)
        requires
            old(self).inv(),
            old(self)@.valid_access(*left),
            old(self)@.valid_access(*right),
            old(self)@.has_room(1),
        ensures
            final(self).inv(),
            final(self)@ == old(self)@.minus(*left, *right),
            old(self)@.preserves(final(self)@),
            final(self)@.next_cell <= old(self)@.next_cell + 1,
    {
        match small_literal_of(right) {
            Some(c) => {
                self.translate_load_access(left);
                self.translate_step_by(-c);
            },
            None => {
                if is_literal(left, 0) {
                    self.translate_load_access(right);
                    self.translate_neg_tmp();
                } else {
                    self.translate_simple_bin_op(left, right, BinaryInstruction::Sub);
                }
            },
        }
    }

    /// The product by one of the literals 0, 1, -1, 2, -2. Returns whether
    /// one of the operands was such a literal.
    fn translate_optimized_multiplication(&mut self, left: &Access, right: &Access) -> (done: bool)
        requires
            old(self).inv(),
            old(self)@.valid_access(*left),
            old(self)@.valid_access(*right),
            old(self)@.has_constant(1),
            old(self)@.has_room(1),
        ensures
            final(self).inv(),
            old(self)@.preserves(final(self)@),
            final(self)@.next_cell <= old(self)@.next_cell + 1,
            match old(self)@.times_literal(*left, *right) {
                Some(s) => done && final(self)@ == s,
                None => !done && final(self)@ == old(self)@,
            },
    {
        let (c, other) = match (left, right) {
            (Access::Constant(c), other) => (c.value(), other),
            (other, Access::Constant(c)) => (c.value(), other),
            _ => {
                proof {
                    lemma_preserves(old(self)@, self@);
                }
                return false;
            },
        };
        if c == 0 {
            self.translate_load_zero();
            true
        } else if c == 1 {
            self.translate_load_access(other);
            true
        } else if c == -1 {
            self.translate_load_access(other);
            self.translate_neg_tmp();
            true
        } else if c == 2 {
            let one = self.get_constant_location(1);
            self.translate_load_access(other);
            self.emit(VmInstruction::Shift(one.0));
            true
        } else if c == -2 {
            let one = self.get_constant_location(1);
            self.translate_load_access(other);
            self.emit(VmInstruction::Shift(one.0));
            self.translate_neg_tmp();
            true
        } else {
            proof {
                lemma_preserves(old(self)@, self@);
            }
            false
        }
    }

    fn translate_product_setup(
        &mut self,
        left: &Access,
        right: &Access,
        cells: &ProductCells,
        label_start: &Label,
        label_real_end: &Label,
    )
        requires
            old(self).inv(),
            old(self)@.valid_access(*left),
            old(self)@.valid_access(*right),
            old(self)@.valid_label(label_start.id() as int),
            old(self)@.valid_label(label_real_end.id() as int),
            old(self)@.has_room(1),
        ensures
            final(self).inv(),
            final(self)@ == old(self)@.product_setup(
                *left,
                *right,
                *cells,
                label_start.id() as int,
                label_real_end.id() as int,
            ),
            old(self)@.preserves(final(self)@),
            final(self)@.next_cell <= old(self)@.next_cell + 1,
    {
        proof {
            reveal(State::product_setup);
        }
        self.translate_load_access(left);
        self.emit(VmInstruction::Store(cells.left_tmp.0));
        self.translate_load_access(right);
        self.emit(VmInstruction::Store(cells.right_tmp.0));
        self.jump(label_real_end, JumpKind::Jzero);
        self.jump(label_start, JumpKind::Jpos);

        self.translate_neg_tmp();
        self.emit(VmInstruction::Store(cells.right_tmp.0));
        self.emit(VmInstruction::Load(cells.left_tmp.0));
        self.translate_neg(cells.left_tmp);
        self.emit(VmInstruction::Store(cells.left_tmp.0));

        self.emit(VmInstruction::Load(cells.right_tmp.0));

        self.mark(label_start);
        self.emit(VmInstruction::Sub(0));
        self.emit(VmInstruction::Store(cells.result.0));
    }

    fn translate_product_loop(
        &mut self,
        cells: &ProductCells,
        label_main: &Label,
        label_step: &Label,
        label_end: &Label,
    )
        requires
            old(self).inv(),
            old(self)@.valid_label(label_main.id() as int),
            old(self)@.valid_label(label_step.id() as int),
            old(self)@.valid_label(label_end.id() as int),
        ensures
            final(self).inv(),
            final(self)@ == old(self)@.product_loop(
                *cells,
                label_main.id() as int,
                label_step.id() as int,
                label_end.id() as int,
            ),
            old(self)@.preserves(final(self)@),
            final(self)@.next_cell == old(self)@.next_cell,
    {
        proof {
            reveal(State::product_loop);
        }
        self.mark(label_main);
        self.emit(VmInstruction::Load(cells.right_tmp.0));
        self.emit(VmInstruction::Store(cells.tmp.0));
        self.emit(VmInstruction::Shift(cells.minus_one.0));
        self.emit(VmInstruction::Shift(cells.one.0));
        self.emit(VmInstruction::Sub(cells.tmp.0));
        self.jump(label_step, JumpKind::Jzero);

        self.emit(VmInstruction::Load(cells.left_tmp.0));
        self.emit(VmInstruction::Add(cells.result.0));
        self.emit(VmInstruction::Store(cells.result.0));

        self.mark(label_step);
        self.emit(VmInstruction::Load(cells.right_tmp.0));
        self.emit(VmInstruction::Shift(cells.minus_one.0));
        self.jump(label_end, JumpKind::Jzero);

        self.emit(VmInstruction::Store(cells.right_tmp.0));
        self.emit(VmInstruction::Load(cells.left_tmp.0));
        self.emit(VmInstruction::Shift(cells.one.0));
        self.emit(VmInstruction::Store(cells.left_tmp.0));
        self.jump(label_main, JumpKind::Jump);

        self.mark(label_end);
        self.emit(VmInstruction::Load(cells.result.0));
    }

    fn translate_multiplication(&mut self, left: &Access, right: &Access)
        requires
            old(self).inv(),
            old(self)@.valid_access(*left),
            old(self)@.valid_access(*right),
            old(self)@.has_constant(1),
            old(self)@.has_constant(-1i64),
            old(self)@.has_room(5),
        ensures
            final(self).inv(),
            final(self)@ == old(self)@.times(*left, *right),
            old(self)@.preserves(final(self)@),
            final(self)@.next_cell <= old(self)@.next_cell + 5,
    {
        if self.translate_optimized_multiplication(left, right) {
            return ;
        }
        let left_tmp = self.get_or_register_temp("mul_left");
        let right_tmp = self.get_or_register_temp("mul_right");
        let tmp = self.get_or_register_temp("1");
        let result = self.get_or_register_temp("mul_result");
        let const_1 = self.get_constant_location(1);
        let const_neg_1 = self.get_constant_location(-1);

        let label_start = self.fresh_label();
        let label_main = self.fresh_label();
        let label_step = self.fresh_label();
        let label_end = self.fresh_label();
        let label_real_end = self.fresh_label();

        let cells = ProductCells {
            left_tmp,
            right_tmp,
            tmp,
            result,
            one: const_1,
            minus_one: const_neg_1,
        };
        self.translate_product_setup(left, right, &cells, &label_start, &label_real_end);
        self.translate_product_loop(&cells, &label_main, &label_step, &label_end);

        self.mark(&label_real_end);
    }

    /// The quotient or remainder where the translator has a shortcut for a
    /// literal operand. Returns whether it had one.
    fn translate_optimized_div_mod(&mut self, left: &Access, right: &Access, div: bool) -> (done:
        bool)
        requires
            old(self).inv(),
            old(self)@.valid_access(*left),
            old(self)@.valid_access(*right),
            old(self)@.has_constant(-1i64),
            old(self)@.has_room(1),
        ensures
            final(self).inv(),
            old(self)@.preserves(final(self)@),
            final(self)@.next_cell <= old(self)@.next_cell + 1,
            match old(self)@.div_mod_literal(*left, *right, div) {
                Some(s) => done && final(self)@ == s,
                None => !done && final(self)@ == old(self)@,
            },
    {
        proof {
            lemma_preserves(old(self)@, self@);
        }
        match (literal_of(left), literal_of(right)) {
            (Some(c1), Some(c2)) => {
                if div && (c1 == 0 || c2 == 0) {
                    self.translate_load_zero();
                    true
                } else {
                    false
                }
            },
            (Some(c), None) => {
                if c == 0 {
                    self.translate_load_zero();
                    true
                } else {
                    false
                }
            },
            (None, Some(c)) => {
                if c == 0 {
                    self.translate_load_zero();
                    true
                } else if (c == 1 || c == -1) && !div {
                    self.translate_load_zero();
                    true
                } else if c == 1 {
                    self.translate_load_access(left);
                    true
                } else if c == -1 {
                    self.translate_load_access(left);
                    self.translate_neg_tmp();
                    true
                } else if c == 2 && div {
                    let minus_one = self.get_constant_location(-1);
                    self.translate_load_access(left);
                    self.emit(VmInstruction::Shift(minus_one.0));
                    true
                } else if c == -2 && div {
                    let minus_one = self.get_constant_location(-1);
                    self.translate_load_access(left);
                    self.translate_neg_tmp();
                    self.emit(VmInstruction::Shift(minus_one.0));
                    true
                } else {
                    false
                }
            },
            (None, None) => false,
        }
    }

    /// The sign correction of a quotient.
    fn translate_quotient_sign(
        &mut self,
        original_dividend: MemoryLocation,
        original_divisor: MemoryLocation,
        remain: MemoryLocation,
        result: MemoryLocation,
        label_end: &Label,
    )
        requires
            old(self).inv(),
            old(self)@.valid_label(label_end.id() as int),
        ensures
            final(self).inv(),
            final(self)@ == old(self)@.quotient_sign(
                original_dividend,
                original_divisor,
                remain,
                result,
                label_end.id() as int,
            ),
            old(self)@.preserves(final(self)@),
            final(self)@.next_cell == old(self)@.next_cell,
    {
        proof {
            reveal(State::quotient_sign);
        }
        let label_remain_zero = self.fresh_label();
        let label_dividend_neg = self.fresh_label();
        let label_only_divisor_neg = self.fresh_label();
        let label_both_neg = self.fresh_label();

        self.emit(VmInstruction::Load(original_dividend.0));
        self.jump(&label_dividend_neg, JumpKind::Jneg);

        self.emit(VmInstruction::Load(original_divisor.0));
        self.jump(&label_only_divisor_neg, JumpKind::Jneg);

        self.mark(&label_both_neg);
        self.emit(VmInstruction::Load(result.0));
        self.jump(label_end, JumpKind::Jump);

        self.mark(&label_dividend_neg);
        self.emit(VmInstruction::Load(original_divisor.0));
        self.jump(&label_both_neg, JumpKind::Jneg);

        self.mark(&label_only_divisor_neg);
        self.emit(VmInstruction::Load(remain.0));
        self.jump(&label_remain_zero, JumpKind::Jzero);
        self.emit(VmInstruction::Load(result.0));
        self.translate_neg(result);
        self.emit(VmInstruction::Dec);
        self.jump(label_end, JumpKind::Jump);

        self.mark(&label_remain_zero);
        self.emit(VmInstruction::Load(result.0));
        self.translate_neg(result);
        self.jump(label_end, JumpKind::Jump);
    }

    /// The sign correction of a remainder.
    fn translate_remainder_sign(
        &mut self,
        original_dividend: MemoryLocation,
        original_divisor: MemoryLocation,
        remain: MemoryLocation,
        label_end: &Label,
    )
        requires
            old(self).inv(),
            old(self)@.valid_label(label_end.id() as int),
            old(self)@.has_room(1),
        ensures
            final(self).inv(),
            final(self)@ == old(self)@.remainder_sign(
                original_dividend,
                original_divisor,
                remain,
                label_end.id() as int,
            ),
            old(self)@.preserves(final(self)@),
            final(self)@.next_cell <= old(self)@.next_cell + 1,
    {
        proof {
            reveal(State::remainder_sign);
        }
        let label_dividend_neg = self.fresh_label();
        let label_only_divisor_neg = self.fresh_label();
        let label_both_neg = self.fresh_label();

        self.emit(VmInstruction::Load(remain.0));
        self.jump(label_end, JumpKind::Jzero);

        self.emit(VmInstruction::Load(original_dividend.0));
        self.jump(&label_dividend_neg, JumpKind::Jneg);

        self.emit(VmInstruction::Load(original_divisor.0));
        self.jump(&label_only_divisor_neg, JumpKind::Jneg);

        self.emit(VmInstruction::Load(remain.0));
        self.jump(label_end, JumpKind::Jump);

        self.mark(&label_dividend_neg);
        self.emit(VmInstruction::Load(original_divisor.0));
        self.jump(&label_both_neg, JumpKind::Jneg);

        self.emit(VmInstruction::Load(remain.0));
        self.emit(VmInstruction::Sub(original_divisor.0));
        self.translate_neg_tmp();
        self.jump(label_end, JumpKind::Jump);

        self.mark(&label_only_divisor_neg);
        self.emit(VmInstruction::Load(remain.0));
        self.emit(VmInstruction::Add(original_divisor.0));
        self.jump(label_end, JumpKind::Jump);

        self.mark(&label_both_neg);
        self.emit(VmInstruction::Load(remain.0));
        self.translate_neg(remain);
        self.jump(label_end, JumpKind::Jump);
    }

    fn translate_division_setup(
        &mut self,
        left: &Access,
        right: &Access,
        cells: &DivisionCells,
        label_end: &Label,
        label_while_condition: &Label,
    )
        requires
            old(self).inv(),
            old(self)@.valid_access(*left),
            old(self)@.valid_access(*right),
            old(self)@.valid_label(label_end.id() as int),
            old(self)@.valid_label(label_while_condition.id() as int),
        ensures
            final(self).inv(),
            final(self)@ == old(self)@.division_setup(
                *left,
                *right,
                *cells,
                label_end.id() as int,
                label_while_condition.id() as int,
            ),
            old(self)@.preserves(final(self)@),
            final(self)@.next_cell == old(self)@.next_cell,
    {
        proof {
            reveal(State::division_setup);
        }
        self.translate_load_access(left);
        self.emit(VmInstruction::Store(cells.original_dividend.0));
        self.translate_abs(cells.original_dividend);
        self.emit(VmInstruction::Store(cells.dividend_abs.0));
        self.emit(VmInstruction::Store(cells.remain.0));

        self.translate_load_access(right);
        self.jump(label_end, JumpKind::Jzero);

        self.emit(VmInstruction::Store(cells.original_divisor.0));
        self.translate_abs(cells.original_divisor);
        self.emit(VmInstruction::Store(cells.scaled_divisor.0));
        self.emit(VmInstruction::Sub(0));
        self.emit(VmInstruction::Store(cells.result.0));
        self.emit(VmInstruction::Inc);
        self.emit(VmInstruction::Store(cells.multiple.0));

        self.emit(VmInstruction::Load(cells.scaled_divisor.0));
        self.jump(label_while_condition, JumpKind::Jump);
    }

    fn translate_division_scaling(
        &mut self,
        cells: &DivisionCells,
        label_while_body: &Label,
        label_while_condition: &Label,
    )
        requires
            old(self).inv(),
            old(self)@.valid_label(label_while_body.id() as int),
            old(self)@.valid_label(label_while_condition.id() as int),
        ensures
            final(self).inv(),
            final(self)@ == old(self)@.division_scaling(
                *cells,
                label_while_body.id() as int,
                label_while_condition.id() as int,
            ),
            old(self)@.preserves(final(self)@),
            final(self)@.next_cell == old(self)@.next_cell,
    {
        proof {
            reveal(State::division_scaling);
        }
        self.mark(label_while_body);
        self.emit(VmInstruction::Load(cells.multiple.0));
        self.emit(VmInstruction::Shift(cells.one.0));
        self.emit(VmInstruction::Store(cells.multiple.0));
        self.emit(VmInstruction::Load(cells.scaled_divisor.0));
        self.emit(VmInstruction::Shift(cells.one.0));
        self.emit(VmInstruction::Store(cells.scaled_divisor.0));

        self.mark(label_while_condition);
        self.emit(VmInstruction::Sub(cells.dividend_abs.0));
        self.jump(label_while_body, JumpKind::Jneg);
    }

    fn translate_division_subtracting(
        &mut self,
        cells: &DivisionCells,
        label_do_body: &Label,
        label_after_if: &Label,
        label_after_do: &Label,
    )
        requires
            old(self).inv(),
            old(self)@.valid_label(label_do_body.id() as int),
            old(self)@.valid_label(label_after_if.id() as int),
            old(self)@.valid_label(label_after_do.id() as int),
        ensures
            final(self).inv(),
            final(self)@ == old(self)@.division_subtracting(
                *cells,
                label_do_body.id() as int,
                label_after_if.id() as int,
                label_after_do.id() as int,
            ),
            old(self)@.preserves(final(self)@),
            final(self)@.next_cell == old(self)@.next_cell,
    {
        proof {
            reveal(State::division_subtracting);
        }
        self.mark(label_do_body);
        self.emit(VmInstruction::Load(cells.remain.0));
        self.emit(VmInstruction::Sub(cells.scaled_divisor.0));
        self.jump(label_after_if, JumpKind::Jneg);

        self.emit(VmInstruction::Store(cells.remain.0));
        self.emit(VmInstruction::Load(cells.result.0));
        self.emit(VmInstruction::Add(cells.multiple.0));
        self.emit(VmInstruction::Store(cells.result.0));

        self.mark(label_after_if);
        self.emit(VmInstruction::Load(cells.multiple.0));
        self.emit(VmInstruction::Shift(cells.minus_one.0));
        self.jump(label_after_do, JumpKind::Jzero);
        self.emit(VmInstruction::Store(cells.multiple.0));
        self.emit(VmInstruction::Load(cells.scaled_divisor.0));
        self.emit(VmInstruction::Shift(cells.minus_one.0));
        self.emit(VmInstruction::Store(cells.scaled_divisor.0));
        self.jump(label_do_body, JumpKind::Jump);
    }

    fn translate_div_mod(&mut self, left: &Access, right: &Access, div: bool)
        requires
            old(self).inv(),
            old(self)@.valid_access(*left),
            old(self)@.valid_access(*right),
            old(self)@.has_constant(1),
            old(self)@.has_constant(-1i64),
            old(self)@.has_room(8),
        ensures
            final(self).inv(),
            final(self)@ == old(self)@.div_mod(*left, *right, div),
            old(self)@.preserves(final(self)@),
            final(self)@.next_cell <= old(self)@.next_cell + 8,
    {
        if self.translate_optimized_div_mod(left, right, div) {
            return ;
        }
        let label_while_condition = self.fresh_label();
        let label_while_body = self.fresh_label();
        let label_after_if = self.fresh_label();
        let label_do_body = self.fresh_label();
        let label_after_do = self.fresh_label();
        let label_end = self.fresh_label();

        let const_1 = self.get_constant_location(1);
        let const_neg_1 = self.get_constant_location(-1);

        let original_dividend = self.get_or_register_temp("original_dividend");
        let original_divisor = self.get_or_register_temp("original_divisor");
        let dividend_abs = self.get_or_register_temp("dividend_abs");
        let scaled_divisor = self.get_or_register_temp("scaled_divisor");
        let remain = self.get_or_register_temp("remain");
        let result = self.get_or_register_temp("div_result");
        let multiple = self.get_or_register_temp("div_multiple");

        let cells = DivisionCells {
            original_dividend,
            original_divisor,
            dividend_abs,
            scaled_divisor,
            remain,
            result,
            multiple,
            one: const_1,
            minus_one: const_neg_1,
        };
        self.translate_division_setup(left, right, &cells, &label_end, &label_while_condition);
        self.translate_division_scaling(&cells, &label_while_body, &label_while_condition);
        self.translate_division_subtracting(
            &cells,
            &label_do_body,
            &label_after_if,
            &label_after_do,
        );

        self.mark(&label_after_do);

        if div {
            self.translate_quotient_sign(
                original_dividend,
                original_divisor,
                remain,
                result,
                &label_end,
            );
        } else {
            self.translate_remainder_sign(original_dividend, original_divisor, remain, &label_end);
        }

        self.mark(&label_end);
    }

    /// The translation of one instruction of the intermediate representation.
    fn translate_instruction(&mut self, instruction: &Instruction)
        requires
            old(self).inv(),
            old(self)@.valid_instruction(*instruction),
            old(self)@.has_constant(1),
            old(self)@.has_constant(-1i64),
            old(self)@.has_room(8),
        ensures
            final(self).inv(),
            final(self)@ == old(self)@.instruction(*instruction),
            old(self)@.preserves(final(self)@),
            final(self)@.next_cell <= old(self)@.next_cell + 8,
    {
        match instruction {
            Instruction::Label { label } => {
                self.mark(label);
            },
            Instruction::Load { access } => self.translate_load_access(access),
            Instruction::PreStore { access } => {
                proof {
                    lemma_preserves(old(self)@, self@);
                }
            },
            Instruction::Store { access } => self.translate_store_access(access),
            Instruction::Operation { left, op, right } => {
                match op {
                    OperationType::Plus => self.translate_plus(left, right),
                    OperationType::Minus => self.translate_minus(left, right),
                    OperationType::Shift => {
                        self.translate_simple_bin_op(left, right, BinaryInstruction::Shift)
                    },
                    OperationType::Times => {
                        self.translate_multiplication(left, right);
                    },
                    OperationType::Div => {
                        self.translate_div_mod(left, right, true);
                    },
                    OperationType::Mod => {
                        self.translate_div_mod(left, right, false);
                    },
                }
            },
            Instruction::Jump { label } => {
                self.jump(label, JumpKind::Jump);
            },
            Instruction::JNegative { label } => {
                self.jump(label, JumpKind::Jneg);
            },
            Instruction::JPositive { label } => {
                self.jump(label, JumpKind::Jpos);
            },
            Instruction::JZero { label } => {
                self.jump(label, JumpKind::Jzero);
            },
            Instruction::Get => self.emit(VmInstruction::Get),
            Instruction::Put => self.emit(VmInstruction::Put),
        }
    }

    /// Builds the accumulator up to `magnitude` from 0, or down to its
    /// negation.
    fn generate_bits(&mut self, magnitude: u64, grow: VmInstruction, one: MemoryLocation)
        requires
            old(self).inv(),
        ensures
            final(self).inv(),
            final(self)@ == old(self)@.bits(magnitude as nat, grow, one),
            old(self)@.preserves(final(self)@),
            final(self)@.next_cell == old(self)@.next_cell,
        decreases magnitude,
    {
        if magnitude <= 1 {
            self.emit(grow);
        } else {
            self.generate_bits(magnitude / 2, grow, one);
            self.emit(VmInstruction::Shift(one.0));
            if magnitude % 2 == 1 {
                self.emit(grow);
            }
        }
    }

    /// Emits the code that sets the cell at `location` to `value`.
    fn generate_constant(&mut self, value: i64, location: MemoryLocation)
        requires
            old(self).inv(),
            old(self)@.has_constant(1),
        ensures
            final(self).inv(),
            final(self)@ == old(self)@.constant(value, location),
            old(self)@.preserves(final(self)@),
            final(self)@.next_cell == old(self)@.next_cell,
    {
        let magnitude: u64 = if value == i64::MIN {
            9223372036854775808u64
        } else if value < 0 {
            (-value) as u64
        } else {
            value as u64
        };
        let (grow_instr, shrink_instr) = if value > 0 {
            (VmInstruction::Inc, VmInstruction::Dec)
        } else {
            (VmInstruction::Dec, VmInstruction::Inc)
        };
        if magnitude < 10 {
            self.emit_times(grow_instr, magnitude);
            self.emit(VmInstruction::Store(location.0));
            self.emit_times(shrink_instr, magnitude);
        } else {
            let one_const = self.get_constant_location(1);
            self.generate_bits(magnitude, grow_instr, one_const);
            self.emit(VmInstruction::Store(location.0));
            self.emit(VmInstruction::Sub(0));
        }
    }

    /// The cells that have a value, in the order in which they are set.
    fn cells_to_generate(&self) -> (cells: Vec<(MemoryLocation, i64)>)
        requires
            self.inv(),
        ensures
            cells@ == sorted(valued(self@.slots)),
    {
        let n = self.context.variables().len();
        let mut cells: Vec<(MemoryLocation, i64)> = Vec::new();
        let mut i: usize = 0;
        while i < n
            invariant
                self.inv(),
                n == self@.slots.len(),
                i <= n,
                cells@ == sorted(valued(self@.slots.take(i as int))),
            decreases n - i,
        {
            proof {
                assert(self@.slots.take(i + 1).drop_last() =~= self@.slots.take(i as int));
            }
            let slot = self.memory.slot(VariableIndex::new(i));
            match slot.value {
                Some(value) => {
                    proof {
                        let front = valued(self@.slots.take(i as int));
                        assert(front.push((slot.location, value)).drop_last() =~= front);
                    }
                    insert_sorted(&mut cells, (slot.location, value));
                },
                None => {},
            }
            i += 1;
        }
        assert(self@.slots.take(n as int) =~= self@.slots);
        cells
    }

    /// Emits the code that sets every literal's cell and every array's base.
    fn generate_constants(&mut self)
        requires
            old(self).inv(),
            old(self)@.has_constant(1),
        ensures
            final(self).inv(),
            final(self)@ == old(self)@.generate_constants(),
            old(self)@.preserves(final(self)@),
            final(self)@.next_cell == old(self)@.next_cell,
    {
        let to_generate = self.cells_to_generate();
        self.emit(VmInstruction::Sub(0));
        let ghost start = self@;
        let n = to_generate.len();
        let mut i: usize = 0;
        while i < n
            invariant
                self.inv(),
                n == to_generate@.len(),
                i <= n,
                self@ == start.constant_list(to_generate@.take(i as int)),
                old(self)@.preserves(self@),
                self@.next_cell == old(self)@.next_cell,
                old(self)@.has_constant(1),
            decreases n - i,
        {
            proof {
                assert(to_generate@.take(i + 1).drop_last() =~= to_generate@.take(i as int));
            }
            let (loc, val) = to_generate[i];
            self.generate_constant(val, loc);
            i += 1;
        }
        assert(to_generate@.take(n as int) =~= to_generate@);
    }

    /// A translator for `context`.
    pub fn new(context: Context) -> (generator: Generator)
        ensures
            generator.spec_context() == context,
    {
        Generator { context, memory: Memory::new(), instruction_manager: InstructionManager::new(0) }
    }

    /// Whether the program fits the machine's addresses: see
    /// [`translatable`].
    pub fn fits(&self) -> (r: bool)
        requires
            self.spec_context().wf(),
        ensures
            r == translatable(self.spec_context()@),
    {
        let n = self.context.instructions().len();
        proof {
            assert(self.context@.names[0] == self.context@.names[0]);
            assert(layout_input(self.context@.shapes));
        }
        let count: u64 = n as u64;
        if count > 1152921504606846975u64 {
            return false;
        }
        Memory::fits(self.context.variables(), 8 * count + 5)
    }

    /// Registers the five simple literals and lays the memory out.
    #[verifier::rlimit(100)]
    #[verifier::spinoff_prover]
    fn prepare(&mut self)
        requires
            old(self).context.wf(),
            translatable(old(self).context@),
        ensures
            final(self).inv(),
            final(self)@ == state_of(prepared(old(self).context@)),
            final(self).context@.code == old(self).context@.code,
            forall|instruction: Instruction| #[trigger]
                old(self).context@.valid_instruction(instruction)
                    ==> final(self)@.valid_instruction(instruction),
            final(self)@.has_constant(1),
            final(self)@.has_constant(-1i64),
            final(self)@.has_room(8 * old(self).context@.code.len()),
    {
        let ghost model = self.context@;
        let ghost reserve = 8 * model.code.len();
        proof {
            lemma_register_fits(model, Constant(0), reserve + 4);
            let m1 = model.register(Constant(0));
            lemma_register_fits(m1, Constant(1), reserve + 3);
            let m2 = m1.register(Constant(1));
            lemma_register_fits(m2, Constant(-1i64), reserve + 2);
            let m3 = m2.register(Constant(-1i64));
            lemma_register_fits(m3, Constant(2), reserve + 1);
            let m4 = m3.register(Constant(2));
            lemma_register_fits(m4, Constant(-2i64), reserve);
        }
        self.context.register_constant(Constant(0));
        let ghost m1 = self.context@;
        self.context.register_constant(Constant(1));
        let ghost m2 = self.context@;
        self.context.register_constant(Constant(-1));
        let ghost m3 = self.context@;
        self.context.register_constant(Constant(2));
        let ghost m4 = self.context@;
        self.context.register_constant(Constant(-2));
        let ghost ready = self.context@;
        proof {
            assert(ready == prepared(model));
            model.lemma_growth_keeps_validity(m1);
            m1.lemma_growth_keeps_validity(m2);
            m2.lemma_growth_keeps_validity(m3);
            m3.lemma_growth_keeps_validity(m4);
            m4.lemma_growth_keeps_validity(ready);
            assert(m2.constant_index(Constant(1)) is Some);
            assert(m3.constant_index(Constant(1)) is Some);
            assert(m4.constant_index(Constant(1)) is Some);
            assert(ready.constant_index(Constant(1)) is Some);
            assert(m3.constant_index(Constant(-1i64)) is Some);
            assert(m4.constant_index(Constant(-1i64)) is Some);
            assert(ready.constant_index(Constant(-1i64)) is Some);
            assert(ready.names[0] == ready.names[0]);
            assert(layout_input(ready.shapes));
        }
        self.memory.allocate(self.context.variables());
        let n = self.context.constants().len();
        let mut i: usize = 0;
        while i < n
            invariant
                self.context.wf(),
                self.context@ == ready,
                n == ready.constants.len(),
                i <= n,
                self.memory.slots() == with_constants(
                    layout(ready.shapes),
                    ready.constants.take(i as int),
                ),
                self.memory.slots().len() == ready.shapes.len(),
                self.memory.next_cell() == array_cells(ready.shapes) + array_count(ready.shapes)
                    + unit_count(ready.shapes),
            decreases n - i,
        {
            proof {
                assert(ready.constants.take(i + 1).drop_last() =~= ready.constants.take(i as int));
                assert(ready.is_unit(ready.constants[i as int].1));
            }
            let (constant, index) = self.context.constants()[i];
            self.memory.set_value(index, constant.value());
            i += 1;
        }
        self.instruction_manager = InstructionManager::new(self.context.labels().len());
        proof {
            assert(ready.constants.take(n as int) =~= ready.constants);
            assert(self@.emission.pending =~= state_of(ready).emission.pending);
            assert(self@.emission.positions =~= state_of(ready).emission.positions);
            assert(self@.emission.code =~= state_of(ready).emission.code);
            assert(self@ == state_of(ready));
            lemma_state_of(ready);
            lemma_counts_total(ready.shapes);
        }
    }

    /// The target program.
    pub fn translate(self) -> (program: Vec<VmInstruction>)
        requires
            self.spec_context().wf(),
            translatable(self.spec_context()@),
        ensures
            program@ == translation(self.spec_context()@),
    {
        let mut generator = self;
        let ghost model = generator.context@;
        generator.prepare();
        let ir_instructions = slice_to_vec(generator.context.instructions());
        let n = ir_instructions.len();
        proof {
            assert forall|k: int| 0 <= k < n implies generator@.valid_instruction(
                #[trigger] ir_instructions@[k],
            ) by {
                assert(model.valid_instruction(model.code[k]));
            }
        }
        generator.generate_constants();
        let ghost start = generator@;
        let mut i: usize = 0;
        while i < n
            invariant
                generator.inv(),
                ir_instructions@ == model.code,
                n == ir_instructions@.len(),
                i <= n,
                generator@ == start.instructions(model.code.take(i as int)),
                forall|k: int|
                    0 <= k < n ==> generator@.valid_instruction(#[trigger] ir_instructions@[k]),
                generator@.has_constant(1),
                generator@.has_constant(-1i64),
                generator@.has_room((8 * (n - i)) as nat),
            decreases n - i,
        {
            proof {
                assert(model.code.take(i + 1).drop_last() =~= model.code.take(i as int));
            }
            generator.translate_instruction(&ir_instructions[i]);
            i += 1;
        }
        assert(model.code.take(n as int) =~= model.code);
        generator.emit(VmInstruction::Halt);
        generator.instruction_manager.into_instructions()
    }
}

/// The value of a literal operand.
pub fn literal_of(access: &Access) -> (r: Option<i64>)
    ensures
        r == literal(*access),
{
    match access {
        Access::Constant(c) => Some(c.value()),
        _ => None,
    }
}

/// Whether the operand is the literal `value`.
pub fn is_literal(access: &Access, value: i64) -> (r: bool)
    ensures
        r == (literal(*access) == Some(value)),
{
    match access {
        Access::Constant(c) => c.value() == value,
        _ => false,
    }
}

/// The value of a literal operand between -10 and 10.
pub fn small_literal_of(access: &Access) -> (r: Option<i64>)
    ensures
        r == small_literal(*access),
{
    match access {
        Access::Constant(c) => {
            if -10 <= c.value() && c.value() <= 10 {
                Some(c.value())
            } else {
                None
            }
        },
        _ => None,
    }
}

/// Whether `a` is generated before `b`: see [`precedes`].
pub fn comes_before(a: i64, b: i64) -> (r: bool)
    ensures
        r == precedes(a, b),
{
    let magnitude_a: i128 = if a < 0 {
        -(a as i128)
    } else {
        a as i128
    };
    let magnitude_b: i128 = if b < 0 {
        -(b as i128)
    } else {
        b as i128
    };
    magnitude_a < magnitude_b || (magnitude_a == magnitude_b && a < b)
}

/// Puts `cell` into an ordered list, behind every cell that does not come
/// after it.
pub fn insert_sorted(cells: &mut Vec<(MemoryLocation, i64)>, cell: (MemoryLocation, i64))
    ensures
        final(cells)@ == inserted(old(cells)@, cell),
{
    let mut i = cells.len();
    while i > 0 && comes_before(cell.1, cells[i - 1].1)
        invariant
            cells@ == old(cells)@,
            i <= cells@.len(),
            forall|k: int| i <= k < cells@.len() ==> precedes(cell.1, (#[trigger] cells@[k]).1),
        decreases i,
    {
        i -= 1;
    }
    proof {
        lemma_inserted_at(cells@, cell, i as int);
    }
    cells.insert(i, cell);
}

} // verus!
