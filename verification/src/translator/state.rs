//! What the translator does, as functions on plain values.
//!
//! A [`State`] is the translator between two steps: the names of the
//! variables, the literals, the cell of every variable, and the emission. Each
//! step of the translator is a function from state to state; the executable
//! translator is proved to compute them.

use crate::instruction::Instruction as VmInstruction;
use crate::intermediate::context::Model;
use crate::intermediate::variable::VariableIndex;
use crate::intermediate::{lookup_constant, position_of_name};
use crate::intermediate::{Access, Constant, Instruction, OperationType};
use crate::translator::instruction_manager::{Emission, JumpKind};
use crate::intermediate::variable::Shape;
use crate::translator::memory::{array_cells, array_count, unit_count};
use crate::translator::memory::{base_of, element_cell, is_element};
use crate::translator::memory::{layout, layout_fits, layout_input, slot_of};
use crate::translator::memory::{lemma_counts_total, lemma_layout_distinct};
use crate::translator::memory::{MemoryLocation, Slot};
use vstd::prelude::*;

verus! {

/// The instruction that combines the accumulator with a cell.
#[derive(Debug, Clone, Copy, PartialEq, Eq, Structural)]
pub enum BinaryInstruction {
    Add,
    Sub,
    Shift,
}

impl BinaryInstruction {
    pub open spec fn at(self, cell: MemoryLocation) -> VmInstruction {
        match self {
            BinaryInstruction::Add => VmInstruction::Add(cell.0),
            BinaryInstruction::Sub => VmInstruction::Sub(cell.0),
            BinaryInstruction::Shift => VmInstruction::Shift(cell.0),
        }
    }
}

/// The prefix of the names of the translator's own cells.
pub open spec fn temp_name(role: Seq<char>) -> Seq<char> {
    "tmp$"@ + role
}

/// `count` times `instruction`.
pub open spec fn repeat(instruction: VmInstruction, count: nat) -> Seq<VmInstruction> {
    Seq::new(count, |i: int| instruction)
}

/// The value of a literal operand.
pub open spec fn literal(access: Access) -> Option<i64> {
    match access {
        Access::Constant(c) => Some(c.0),
        _ => None,
    }
}

/// The value of a literal operand between -10 and 10.
pub open spec fn small_literal(access: Access) -> Option<i64> {
    match access {
        Access::Constant(c) => if -10 <= c.0 <= 10 {
            Some(c.0)
        } else {
            None
        },
        _ => None,
    }
}

/// The cells that the multiplication works on.
#[derive(Debug, Clone, Copy, PartialEq, Eq, Structural)]
pub struct ProductCells {
    pub left_tmp: MemoryLocation,
    pub right_tmp: MemoryLocation,
    pub tmp: MemoryLocation,
    pub result: MemoryLocation,
    /// The cell of the literal 1.
    pub one: MemoryLocation,
    /// The cell of the literal -1.
    pub minus_one: MemoryLocation,
}

/// The cells that the division works on.
#[derive(Debug, Clone, Copy, PartialEq, Eq, Structural)]
pub struct DivisionCells {
    pub original_dividend: MemoryLocation,
    pub original_divisor: MemoryLocation,
    pub dividend_abs: MemoryLocation,
    pub scaled_divisor: MemoryLocation,
    pub remain: MemoryLocation,
    pub result: MemoryLocation,
    pub multiple: MemoryLocation,
    /// The cell of the literal 1.
    pub one: MemoryLocation,
    /// The cell of the literal -1.
    pub minus_one: MemoryLocation,
}

/// The translator between two steps.
pub struct State {
    /// The name of every variable, by index.
    pub names: Seq<Seq<char>>,
    /// The literals and their cells.
    pub constants: Seq<(Constant, VariableIndex)>,
    /// The slot of every variable, by index.
    pub slots: Seq<Slot>,
    /// The cell that the next new scalar gets.
    pub next_cell: nat,
    /// The target program so far, and the labels.
    pub emission: Emission,
}

impl State {
    pub open spec fn wf(self) -> bool {
        &&& self.names.len() == self.slots.len()
        &&& self.emission.wf()
        &&& self.next_cell <= i64::MAX
    }

    /// Room for `cells` more scalars.
    pub open spec fn has_room(self, cells: nat) -> bool {
        self.next_cell + cells <= i64::MAX
    }

    pub open spec fn valid_label(self, label: int) -> bool {
        0 <= label < self.emission.positions.len()
    }

    /// The literal has a cell.
    pub open spec fn has_constant(self, value: i64) -> bool {
        match lookup_constant(self.constants, Constant(value)) {
            Some(index) => index.id < self.slots.len(),
            None => false,
        }
    }

    /// The cell of a literal.
    pub open spec fn constant_location(self, value: i64) -> MemoryLocation {
        self.slots[lookup_constant(self.constants, Constant(value)).unwrap().id as int].location
    }

    /// The access can be translated: its variables and literals have cells,
    /// and an element at a literal index has an address.
    pub open spec fn valid_access(self, access: Access) -> bool {
        match access {
            Access::Constant(c) => self.has_constant(c.0),
            Access::Variable(v) => v.id < self.slots.len(),
            Access::ArrayStatic(a, c) => {
                &&& a.id < self.slots.len()
                &&& self.slots[a.id as int].value is Some
                &&& 0 <= self.slots[a.id as int].value.unwrap() + c.0 <= u64::MAX
            },
            Access::ArrayDynamic(a, i) => a.id < self.slots.len() && i.id < self.slots.len(),
        }
    }

    pub open spec fn valid_instruction(self, instruction: Instruction) -> bool {
        match instruction {
            Instruction::Label { label } => self.valid_label(label.id() as int),
            Instruction::Load { access } => self.valid_access(access),
            Instruction::PreStore { access } => true,
            Instruction::Store { access } => self.valid_access(access) && !(access is Constant),
            Instruction::Operation { left, right, .. } => self.valid_access(left)
                && self.valid_access(right),
            Instruction::Jump { label } => self.valid_label(label.id() as int),
            Instruction::JNegative { label } => self.valid_label(label.id() as int),
            Instruction::JPositive { label } => self.valid_label(label.id() as int),
            Instruction::JZero { label } => self.valid_label(label.id() as int),
            Instruction::Get => true,
            Instruction::Put => true,
        }
    }

    /// Whatever could be translated in `self` can be translated in `after`,
    /// and the literals keep their cells.
    pub open spec fn preserves(self, after: State) -> bool {
        &&& forall|access: Access| #[trigger]
            self.valid_access(access) ==> after.valid_access(access) && after.address(access)
                == self.address(access)
        &&& forall|label: int| #[trigger] self.valid_label(label) ==> after.valid_label(label)
        &&& forall|value: i64| #[trigger]
            self.has_constant(value) ==> after.has_constant(value) && after.constant_location(
                value,
            ) == self.constant_location(value)
        &&& forall|instruction: Instruction| #[trigger]
            self.valid_instruction(instruction) ==> after.valid_instruction(instruction)
    }

    /// The cells that an access names: for a literal or a scalar its cell and
    /// `0`; for an element at a literal index its address and `0`; for an
    /// element at a variable index the array's cell and the index's cell.
    pub open spec fn address(self, access: Access) -> (MemoryLocation, MemoryLocation) {
        match access {
            Access::Constant(c) => (self.constant_location(c.0), MemoryLocation(0)),
            Access::Variable(v) => (self.slots[v.id as int].location, MemoryLocation(0)),
            Access::ArrayStatic(a, c) => (
                MemoryLocation((self.slots[a.id as int].value.unwrap() + c.0) as u64),
                MemoryLocation(0),
            ),
            Access::ArrayDynamic(a, i) => (
                self.slots[a.id as int].location,
                self.slots[i.id as int].location,
            ),
        }
    }

    pub open spec fn push(self, instruction: VmInstruction) -> State {
        State { emission: self.emission.push(instruction), ..self }
    }

    /// `count` times `instruction`.
    pub open spec fn push_times(self, instruction: VmInstruction, count: nat) -> State
        decreases count,
    {
        if count == 0 {
            self
        } else {
            self.push_times(instruction, (count - 1) as nat).push(instruction)
        }
    }

    /// A new label: the state that knows it, and its id.
    pub open spec fn fresh_label(self) -> (State, int) {
        (
            State { emission: self.emission.add_label(), ..self },
            self.emission.positions.len() as int,
        )
    }

    pub open spec fn jump(self, label: int, kind: JumpKind) -> State {
        State { emission: self.emission.jump(label, kind), ..self }
    }

    pub open spec fn mark(self, label: int) -> State {
        State { emission: self.emission.mark(label), ..self }
    }

    /// The cell of the translator's own scalar for `role`. The first request
    /// registers it, as the last variable; later ones find it by its name.
    pub open spec fn temp(self, role: Seq<char>) -> (State, MemoryLocation) {
        match position_of_name(self.names, temp_name(role)) {
            Some(p) => (self, self.slots[p].location),
            None => (
                State {
                    names: self.names.push(temp_name(role)),
                    slots: self.slots.push(
                        Slot { location: MemoryLocation(self.next_cell as u64), value: None },
                    ),
                    next_cell: self.next_cell + 1,
                    ..self
                },
                MemoryLocation(self.next_cell as u64),
            ),
        }
    }

    /// Accumulator := 0, by subtracting the accumulator from itself.
    pub open spec fn load_zero(self) -> State {
        self.push(VmInstruction::Sub(0))
    }

    /// Accumulator := -accumulator, where `original` holds the accumulator's
    /// value.
    pub open spec fn neg(self, original: MemoryLocation) -> State {
        self.push(VmInstruction::Sub(original.0)).push(VmInstruction::Sub(original.0))
    }

    /// Accumulator := -accumulator.
    pub open spec fn neg_tmp(self) -> State {
        let (s, tmp) = self.temp("neg"@);
        s.push(VmInstruction::Store(tmp.0)).neg(tmp)
    }

    /// Accumulator := |accumulator|, where `original` holds the accumulator's
    /// value.
    pub open spec fn abs(self, original: MemoryLocation) -> State {
        let (s, positive) = self.fresh_label();
        s.jump(positive, JumpKind::Jpos).neg(original).mark(positive)
    }

    /// Accumulator := the operand.
    pub open spec fn load(self, access: Access) -> State {
        let (first, second) = self.address(access);
        match access {
            Access::ArrayDynamic(_, _) => self.push(VmInstruction::Load(first.0)).push(
                VmInstruction::Add(second.0),
            ).push(VmInstruction::Loadi(0)),
            _ => self.push(VmInstruction::Load(first.0)),
        }
    }

    /// Destination := accumulator.
    pub open spec fn store(self, access: Access) -> State {
        let (first, second) = self.address(access);
        match access {
            Access::ArrayDynamic(_, _) => {
                let (s, tmp1) = self.temp("store_tmp1"@);
                let s = s.push(VmInstruction::Store(tmp1.0)).push(VmInstruction::Load(first.0)).push(
                    VmInstruction::Add(second.0),
                );
                let (s, tmp2) = s.temp("store_tmp2"@);
                s.push(VmInstruction::Store(tmp2.0)).push(VmInstruction::Load(tmp1.0)).push(
                    VmInstruction::Storei(tmp2.0),
                )
            },
            _ => self.push(VmInstruction::Store(first.0)),
        }
    }

    /// Accumulator := `left op right`, through a scratch cell.
    pub open spec fn simple_bin_op(self, left: Access, right: Access, op: BinaryInstruction) -> State {
        let s = self.load(right);
        let (s, tmp) = s.temp("bin_op"@);
        s.push(VmInstruction::Store(tmp.0)).load(left).push(op.at(tmp))
    }

    /// Accumulator := `left + right`. A literal operand between -10 and 10 is
    /// added by increments or decrements of the other operand; where both
    /// qualify, the left one is taken.
    pub open spec fn plus(self, left: Access, right: Access) -> State {
        match (small_literal(left), small_literal(right)) {
            (Some(c), _) => self.load(right).step_by(c as int),
            (None, Some(c)) => self.load(left).step_by(c as int),
            (None, None) => self.simple_bin_op(left, right, BinaryInstruction::Add),
        }
    }

    /// Accumulator := accumulator + `amount`, by increments or decrements.
    pub open spec fn step_by(self, amount: int) -> State {
        if amount >= 0 {
            self.push_times(VmInstruction::Inc, amount as nat)
        } else {
            self.push_times(VmInstruction::Dec, (-amount) as nat)
        }
    }

    /// Accumulator := `left - right`. A literal right operand between -10 and
    /// 10 is subtracted by decrements or increments; a literal left operand
    /// of 0 negates the right operand.
    pub open spec fn minus(self, left: Access, right: Access) -> State {
        match small_literal(right) {
            Some(c) => self.load(left).step_by(-(c as int)),
            None => if literal(left) == Some(0i64) {
                self.load(right).neg_tmp()
            } else {
                self.simple_bin_op(left, right, BinaryInstruction::Sub)
            },
        }
    }

    /// The literal operand of a product, with the other operand: the left one
    /// where it is a literal, else the right one.
    pub open spec fn literal_factor(left: Access, right: Access) -> Option<(i64, Access)> {
        match (left, right) {
            (Access::Constant(c), other) => Some((c.0, other)),
            (other, Access::Constant(c)) => Some((c.0, other)),
            _ => None,
        }
    }

    /// The product by one of the literals 0, 1, -1, 2, -2, if one of the
    /// operands is such a literal.
    pub open spec fn times_literal(self, left: Access, right: Access) -> Option<State> {
        match Self::literal_factor(left, right) {
            Some((c, other)) => if c == 0 {
                Some(self.load_zero())
            } else if c == 1 {
                Some(self.load(other))
            } else if c == -1 {
                Some(self.load(other).neg_tmp())
            } else if c == 2 {
                Some(self.load(other).push(VmInstruction::Shift(self.constant_location(1).0)))
            } else if c == -2 {
                Some(
                    self.load(other).push(
                        VmInstruction::Shift(self.constant_location(1).0),
                    ).neg_tmp(),
                )
            } else {
                None
            },
            None => None,
        }
    }

    /// Accumulator := `left * right`: the product by a small literal, or the
    /// Russian-peasant loop that adds the left operand, doubled at each step,
    /// for every set bit of the right operand.
    pub open spec fn times(self, left: Access, right: Access) -> State {
        match self.times_literal(left, right) {
            Some(s) => s,
            None => {
                let (s, left_tmp) = self.temp("mul_left"@);
                let (s, right_tmp) = s.temp("mul_right"@);
                let (s, tmp) = s.temp("1"@);
                let (s, result) = s.temp("mul_result"@);
                let one = s.constant_location(1);
                let minus_one = s.constant_location(-1i64);
                let (s, label_start) = s.fresh_label();
                let (s, label_main) = s.fresh_label();
                let (s, label_step) = s.fresh_label();
                let (s, label_end) = s.fresh_label();
                let (s, label_real_end) = s.fresh_label();
                let cells = ProductCells { left_tmp, right_tmp, tmp, result, one, minus_one };
                let s = s.product_setup(left, right, cells, label_start, label_real_end);
                let s = s.product_loop(cells, label_main, label_step, label_end);
                s.mark(label_real_end)
            },
        }
    }

    /// The quotient or remainder where the translator has a shortcut for it:
    /// a literal 0 on either side gives 0; the remainder by the literal 1 or
    /// -1 is 0; the quotient by 1 is the dividend, by -1 its negation, by 2
    /// the dividend shifted right by one bit, and by -2 the negated dividend
    /// shifted right by one bit. Each is the floored result.
    pub open spec fn div_mod_literal(self, left: Access, right: Access, div: bool) -> Option<
        State,
    > {
        match (literal(left), literal(right)) {
            (Some(c1), Some(c2)) => if div && (c1 == 0 || c2 == 0) {
                Some(self.load_zero())
            } else {
                None
            },
            (Some(c), None) => if c == 0 {
                Some(self.load_zero())
            } else {
                None
            },
            (None, Some(c)) => if c == 0 {
                Some(self.load_zero())
            } else if (c == 1 || c == -1) && !div {
                Some(self.load_zero())
            } else if c == 1 {
                Some(self.load(left))
            } else if c == -1 {
                Some(self.load(left).neg_tmp())
            } else if c == 2 && div {
                Some(self.load(left).push(VmInstruction::Shift(self.constant_location(-1i64).0)))
            } else if c == -2 && div {
                Some(
                    self.load(left).neg_tmp().push(
                        VmInstruction::Shift(self.constant_location(-1i64).0),
                    ),
                )
            } else {
                None
            },
            (None, None) => None,
        }
    }

    /// Accumulator := `left / right` (`div`) or `left mod right`, both
    /// floored, and `0` for a zero divisor: a shortcut for a small literal, or
    /// the scaled subtractor on the absolute values followed by the
    /// correction for the operands' signs.
    pub open spec fn div_mod(self, left: Access, right: Access, div: bool) -> State {
        match self.div_mod_literal(left, right, div) {
            Some(s) => s,
            None => {
                let (s, while_condition) = self.fresh_label();
                let (s, while_body) = s.fresh_label();
                let (s, after_if) = s.fresh_label();
                let (s, do_body) = s.fresh_label();
                let (s, after_do) = s.fresh_label();
                let (s, end) = s.fresh_label();
                let one = s.constant_location(1);
                let minus_one = s.constant_location(-1i64);
                let (s, original_dividend) = s.temp("original_dividend"@);
                let (s, original_divisor) = s.temp("original_divisor"@);
                let (s, dividend_abs) = s.temp("dividend_abs"@);
                let (s, scaled_divisor) = s.temp("scaled_divisor"@);
                let (s, remain) = s.temp("remain"@);
                let (s, result) = s.temp("div_result"@);
                let (s, multiple) = s.temp("div_multiple"@);
                let cells = DivisionCells {
                    original_dividend,
                    original_divisor,
                    dividend_abs,
                    scaled_divisor,
                    remain,
                    result,
                    multiple,
                    one,
                    minus_one,
                };
                let s = s.division_setup(left, right, cells, end, while_condition);
                let s = s.division_scaling(cells, while_body, while_condition);
                let s = s.division_subtracting(cells, do_body, after_if, after_do);
                let s = s.mark(after_do);
                let s = if div {
                    s.quotient_sign(original_dividend, original_divisor, remain, result, end)
                } else {
                    s.remainder_sign(original_dividend, original_divisor, remain, end)
                };
                s.mark(end)
            },
        }
    }

    /// The operands of a product saved, a right operand of 0 sent to
    /// `real_end` with 0 in the accumulator, a negative right operand
    /// negated together with the left one, and the result set to 0.
    #[verifier::opaque]
    pub open spec fn product_setup(
        self,
        left: Access,
        right: Access,
        cells: ProductCells,
        start: int,
        real_end: int,
    ) -> State {
        let s = self.load(left).push(VmInstruction::Store(cells.left_tmp.0));
        let s = s.load(right).push(VmInstruction::Store(cells.right_tmp.0));
        let s = s.jump(real_end, JumpKind::Jzero).jump(start, JumpKind::Jpos);
        let s = s.neg_tmp().push(VmInstruction::Store(cells.right_tmp.0));
        let s = s.push(VmInstruction::Load(cells.left_tmp.0)).neg(cells.left_tmp).push(
            VmInstruction::Store(cells.left_tmp.0),
        );
        let s = s.push(VmInstruction::Load(cells.right_tmp.0));
        s.mark(start).push(VmInstruction::Sub(0)).push(VmInstruction::Store(cells.result.0))
    }

    /// The Russian-peasant loop: the left operand is added to the result
    /// where the lowest bit of the right operand is set; the right operand
    /// is halved and, unless it is 0 then, the left operand doubled.
    #[verifier::opaque]
    pub open spec fn product_loop(self, cells: ProductCells, main: int, step: int, end: int) -> State {
        let s = self.mark(main).push(VmInstruction::Load(cells.right_tmp.0)).push(
            VmInstruction::Store(cells.tmp.0),
        );
        let s = s.push(VmInstruction::Shift(cells.minus_one.0)).push(
            VmInstruction::Shift(cells.one.0),
        ).push(VmInstruction::Sub(cells.tmp.0)).jump(step, JumpKind::Jzero);
        let s = s.push(VmInstruction::Load(cells.left_tmp.0)).push(
            VmInstruction::Add(cells.result.0),
        ).push(VmInstruction::Store(cells.result.0));
        let s = s.mark(step).push(VmInstruction::Load(cells.right_tmp.0)).push(
            VmInstruction::Shift(cells.minus_one.0),
        ).jump(end, JumpKind::Jzero);
        let s = s.push(VmInstruction::Store(cells.right_tmp.0)).push(
            VmInstruction::Load(cells.left_tmp.0),
        ).push(VmInstruction::Shift(cells.one.0)).push(VmInstruction::Store(cells.left_tmp.0)).jump(
            main,
            JumpKind::Jump,
        );
        s.mark(end).push(VmInstruction::Load(cells.result.0))
    }

    /// The operands saved with their absolute values, a zero divisor sent to
    /// `end` with 0 in the accumulator, and quotient and multiple set to 0
    /// and 1.
    #[verifier::opaque]
    pub open spec fn division_setup(
        self,
        left: Access,
        right: Access,
        cells: DivisionCells,
        end: int,
        while_condition: int,
    ) -> State {
        let s = self.load(left).push(VmInstruction::Store(cells.original_dividend.0)).abs(
            cells.original_dividend,
        ).push(VmInstruction::Store(cells.dividend_abs.0)).push(
            VmInstruction::Store(cells.remain.0),
        );
        let s = s.load(right).jump(end, JumpKind::Jzero);
        let s = s.push(VmInstruction::Store(cells.original_divisor.0)).abs(
            cells.original_divisor,
        ).push(VmInstruction::Store(cells.scaled_divisor.0)).push(VmInstruction::Sub(0)).push(
            VmInstruction::Store(cells.result.0),
        ).push(VmInstruction::Inc).push(VmInstruction::Store(cells.multiple.0));
        s.push(VmInstruction::Load(cells.scaled_divisor.0)).jump(while_condition, JumpKind::Jump)
    }

    /// Divisor and multiple doubled until the divisor is no less than the
    /// dividend.
    #[verifier::opaque]
    pub open spec fn division_scaling(
        self,
        cells: DivisionCells,
        while_body: int,
        while_condition: int,
    ) -> State {
        let s = self.mark(while_body).push(VmInstruction::Load(cells.multiple.0)).push(
            VmInstruction::Shift(cells.one.0),
        ).push(VmInstruction::Store(cells.multiple.0)).push(
            VmInstruction::Load(cells.scaled_divisor.0),
        ).push(VmInstruction::Shift(cells.one.0)).push(
            VmInstruction::Store(cells.scaled_divisor.0),
        );
        s.mark(while_condition).push(VmInstruction::Sub(cells.dividend_abs.0)).jump(
            while_body,
            JumpKind::Jneg,
        )
    }

    /// The scaled divisor subtracted from what remains wherever it fits, the
    /// multiple added to the quotient each time, and both halved until the
    /// multiple is 0.
    #[verifier::opaque]
    pub open spec fn division_subtracting(
        self,
        cells: DivisionCells,
        do_body: int,
        after_if: int,
        after_do: int,
    ) -> State {
        let s = self.mark(do_body).push(VmInstruction::Load(cells.remain.0)).push(
            VmInstruction::Sub(cells.scaled_divisor.0),
        ).jump(after_if, JumpKind::Jneg);
        let s = s.push(VmInstruction::Store(cells.remain.0)).push(
            VmInstruction::Load(cells.result.0),
        ).push(VmInstruction::Add(cells.multiple.0)).push(VmInstruction::Store(cells.result.0));
        let s = s.mark(after_if).push(VmInstruction::Load(cells.multiple.0)).push(
            VmInstruction::Shift(cells.minus_one.0),
        ).jump(after_do, JumpKind::Jzero);
        s.push(VmInstruction::Store(cells.multiple.0)).push(
            VmInstruction::Load(cells.scaled_divisor.0),
        ).push(VmInstruction::Shift(cells.minus_one.0)).push(
            VmInstruction::Store(cells.scaled_divisor.0),
        ).jump(do_body, JumpKind::Jump)
    }

    /// The quotient of the absolute values, corrected for the signs of the
    /// operands: negated where the signs differ, and one less where there is
    /// a remainder as well.
    #[verifier::opaque]
    pub open spec fn quotient_sign(
        self,
        original_dividend: MemoryLocation,
        original_divisor: MemoryLocation,
        remain: MemoryLocation,
        result: MemoryLocation,
        end: int,
    ) -> State {
        let (s, remain_zero) = self.fresh_label();
        let (s, dividend_neg) = s.fresh_label();
        let (s, only_divisor_neg) = s.fresh_label();
        let (s, both_neg) = s.fresh_label();
        let s = s.push(VmInstruction::Load(original_dividend.0)).jump(
            dividend_neg,
            JumpKind::Jneg,
        );
        let s = s.push(VmInstruction::Load(original_divisor.0)).jump(
            only_divisor_neg,
            JumpKind::Jneg,
        );
        let s = s.mark(both_neg).push(VmInstruction::Load(result.0)).jump(end, JumpKind::Jump);
        let s = s.mark(dividend_neg).push(VmInstruction::Load(original_divisor.0)).jump(
            both_neg,
            JumpKind::Jneg,
        );
        let s = s.mark(only_divisor_neg).push(VmInstruction::Load(remain.0)).jump(
            remain_zero,
            JumpKind::Jzero,
        );
        let s = s.push(VmInstruction::Load(result.0)).neg(result).push(VmInstruction::Dec).jump(
            end,
            JumpKind::Jump,
        );
        s.mark(remain_zero).push(VmInstruction::Load(result.0)).neg(result).jump(
            end,
            JumpKind::Jump,
        )
    }

    /// The remainder of the absolute values, corrected for the signs of the
    /// operands, so that it has the divisor's sign.
    #[verifier::opaque]
    pub open spec fn remainder_sign(
        self,
        original_dividend: MemoryLocation,
        original_divisor: MemoryLocation,
        remain: MemoryLocation,
        end: int,
    ) -> State {
        let (s, dividend_neg) = self.fresh_label();
        let (s, only_divisor_neg) = s.fresh_label();
        let (s, both_neg) = s.fresh_label();
        let s = s.push(VmInstruction::Load(remain.0)).jump(end, JumpKind::Jzero);
        let s = s.push(VmInstruction::Load(original_dividend.0)).jump(
            dividend_neg,
            JumpKind::Jneg,
        );
        let s = s.push(VmInstruction::Load(original_divisor.0)).jump(
            only_divisor_neg,
            JumpKind::Jneg,
        );
        let s = s.push(VmInstruction::Load(remain.0)).jump(end, JumpKind::Jump);
        let s = s.mark(dividend_neg).push(VmInstruction::Load(original_divisor.0)).jump(
            both_neg,
            JumpKind::Jneg,
        );
        let s = s.push(VmInstruction::Load(remain.0)).push(
            VmInstruction::Sub(original_divisor.0),
        ).neg_tmp().jump(end, JumpKind::Jump);
        let s = s.mark(only_divisor_neg).push(VmInstruction::Load(remain.0)).push(
            VmInstruction::Add(original_divisor.0),
        ).jump(end, JumpKind::Jump);
        s.mark(both_neg).push(VmInstruction::Load(remain.0)).neg(remain).jump(end, JumpKind::Jump)
    }

    /// The translation of one instruction of the intermediate representation.
    pub open spec fn instruction(self, instruction: Instruction) -> State {
        match instruction {
            Instruction::Label { label } => self.mark(label.id() as int),
            Instruction::Load { access } => self.load(access),
            Instruction::PreStore { access } => self,
            Instruction::Store { access } => self.store(access),
            Instruction::Operation { left, op, right } => match op {
                OperationType::Plus => self.plus(left, right),
                OperationType::Minus => self.minus(left, right),
                OperationType::Shift => self.simple_bin_op(left, right, BinaryInstruction::Shift),
                OperationType::Times => self.times(left, right),
                OperationType::Div => self.div_mod(left, right, true),
                OperationType::Mod => self.div_mod(left, right, false),
            },
            Instruction::Jump { label } => self.jump(label.id() as int, JumpKind::Jump),
            Instruction::JNegative { label } => self.jump(label.id() as int, JumpKind::Jneg),
            Instruction::JPositive { label } => self.jump(label.id() as int, JumpKind::Jpos),
            Instruction::JZero { label } => self.jump(label.id() as int, JumpKind::Jzero),
            Instruction::Get => self.push(VmInstruction::Get),
            Instruction::Put => self.push(VmInstruction::Put),
        }
    }

    /// The translation of a list of instructions, one after the other.
    pub open spec fn instructions(self, code: Seq<Instruction>) -> State
        decreases code.len(),
    {
        if code.len() == 0 {
            self
        } else {
            self.instructions(code.drop_last()).instruction(code.last())
        }
    }

    /// The accumulator built up to `magnitude` (at least 1) from 0, or down
    /// to its negation: bit by bit from the top, doubling by a shift and
    /// adding one for each set bit.
    pub open spec fn bits(self, magnitude: nat, grow: VmInstruction, one: MemoryLocation) -> State
        decreases magnitude,
    {
        if magnitude <= 1 {
            self.push(grow)
        } else {
            let s = self.bits(magnitude / 2, grow, one).push(VmInstruction::Shift(one.0));
            if magnitude % 2 == 1 {
                s.push(grow)
            } else {
                s
            }
        }
    }

    /// The cell at `location` set to `value`, starting and ending with the
    /// accumulator at 0.
    pub open spec fn constant(self, value: i64, location: MemoryLocation) -> State {
        let magnitude = if value < 0 {
            (-value) as nat
        } else {
            value as nat
        };
        let (grow, shrink) = if value > 0 {
            (VmInstruction::Inc, VmInstruction::Dec)
        } else {
            (VmInstruction::Dec, VmInstruction::Inc)
        };
        if magnitude < 10 {
            self.push_times(grow, magnitude).push(VmInstruction::Store(location.0)).push_times(
                shrink,
                magnitude,
            )
        } else {
            self.bits(magnitude, grow, self.constant_location(1)).push(
                VmInstruction::Store(location.0),
            ).push(VmInstruction::Sub(0))
        }
    }

    /// One cell after the other set to its value.
    pub open spec fn constant_list(self, cells: Seq<(MemoryLocation, i64)>) -> State
        decreases cells.len(),
    {
        if cells.len() == 0 {
            self
        } else {
            self.constant_list(cells.drop_last()).constant(cells.last().1, cells.last().0)
        }
    }

    /// The accumulator set to 0, then every cell that has a value set to it,
    /// from the value nearest to 0 to the farthest.
    pub open spec fn generate_constants(self) -> State {
        self.push(VmInstruction::Sub(0)).constant_list(sorted(valued(self.slots)))
    }
}

/// Whatever could be translated in `before` can be translated in `after`,
/// where `after` has the same literals, every slot of `before` unchanged,
/// and as many labels or more.
pub proof fn lemma_preserves(before: State, after: State)
    requires
        before.slots.len() <= after.slots.len(),
        forall|i: int| 0 <= i < before.slots.len() ==> after.slots[i] == #[trigger] before.slots[i],
        after.constants == before.constants,
        before.emission.positions.len() <= after.emission.positions.len(),
    ensures
        before.preserves(after),
{
    assert forall|value: i64| #[trigger] before.has_constant(value) implies after.has_constant(value)
        && after.constant_location(value) == before.constant_location(value) by {}
    assert forall|access: Access| #[trigger] before.valid_access(access) implies after.valid_access(
        access,
    ) && after.address(access) == before.address(access) by {
        match access {
            Access::Constant(c) => {
                assert(before.has_constant(c.0));
            },
            _ => {},
        }
    }
}

/// The slots with the value of every literal noted at its cell.
pub open spec fn with_constants(slots: Seq<Slot>, constants: Seq<(Constant, VariableIndex)>) -> Seq<
    Slot,
>
    decreases constants.len(),
{
    if constants.len() == 0 {
        slots
    } else {
        let front = with_constants(slots, constants.drop_last());
        let (constant, index) = constants.last();
        if index.id < front.len() {
            front.update(
                index.id as int,
                Slot { location: front[index.id as int].location, value: Some(constant.0) },
            )
        } else {
            front
        }
    }
}

/// The cells that have a value, with it, in the order of the slots.
pub open spec fn valued(slots: Seq<Slot>) -> Seq<(MemoryLocation, i64)>
    decreases slots.len(),
{
    if slots.len() == 0 {
        Seq::empty()
    } else {
        match slots.last().value {
            Some(value) => valued(slots.drop_last()).push((slots.last().location, value)),
            None => valued(slots.drop_last()),
        }
    }
}

/// The order in which values are generated: nearer to 0 first, and of two
/// values equally near the negative one first.
pub open spec fn precedes(a: i64, b: i64) -> bool {
    let magnitude_a = if a < 0 {
        -a
    } else {
        a as int
    };
    let magnitude_b = if b < 0 {
        -b
    } else {
        b as int
    };
    magnitude_a < magnitude_b || (magnitude_a == magnitude_b && a < b)
}

/// `cell` put into an ordered list, behind every cell that does not come
/// after it.
pub open spec fn inserted(cells: Seq<(MemoryLocation, i64)>, cell: (MemoryLocation, i64)) -> Seq<
    (MemoryLocation, i64),
>
    decreases cells.len(),
{
    if cells.len() == 0 {
        seq![cell]
    } else if precedes(cell.1, cells.last().1) {
        inserted(cells.drop_last(), cell).push(cells.last())
    } else {
        cells.push(cell)
    }
}

/// The cells in the order of [`precedes`]; cells with the same value stay in
/// the order they had.
pub open spec fn sorted(cells: Seq<(MemoryLocation, i64)>) -> Seq<(MemoryLocation, i64)>
    decreases cells.len(),
{
    if cells.len() == 0 {
        Seq::empty()
    } else {
        inserted(sorted(cells.drop_last()), cells.last())
    }
}

/// The model with the five simple literals registered.
pub open spec fn prepared(model: Model) -> Model {
    model.register(Constant(0)).register(Constant(1)).register(Constant(-1i64)).register(
        Constant(2),
    ).register(Constant(-2i64))
}

/// The translator's state once the memory is laid out: every variable has
/// its slot, every literal's value is noted, every label is known and none
/// is marked, and nothing is emitted.
pub open spec fn state_of(model: Model) -> State {
    State {
        names: model.names,
        constants: model.constants,
        slots: with_constants(layout(model.shapes), model.constants),
        next_cell: array_cells(model.shapes) + array_count(model.shapes) + unit_count(
            model.shapes,
        ),
        emission: Emission {
            code: Seq::empty(),
            positions: Seq::new(model.labels, |l: int| None),
            pending: Seq::new(model.labels, |l: int| Seq::empty()),
        },
    }
}

/// The program fits the machine: the arrays, a cell for every variable and
/// every literal, and eight cells of the translator's own for every
/// instruction have addresses below `i64::MAX`, and so has every array's
/// base.
pub open spec fn translatable(model: Model) -> bool {
    layout_fits(model.shapes, 8 * model.code.len() + 5)
}

/// The target program of a program in intermediate form: the code that sets
/// the literals and the arrays' bases, then the translation of each
/// instruction in turn, then `Halt`.
pub open spec fn translation(model: Model) -> Seq<VmInstruction> {
    state_of(prepared(model)).generate_constants().instructions(model.code).push(
        VmInstruction::Halt,
    ).emission.code
}

/// One more unit at the end takes one cell of the reserve.
pub proof fn lemma_fits_push_unit(shapes: Seq<Shape>, reserve: nat)
    requires
        layout_fits(shapes, reserve + 1),
    ensures
        layout_fits(shapes.push(Shape::Unit), reserve),
{
    let longer = shapes.push(Shape::Unit);
    assert(longer.drop_last() =~= shapes);
    assert forall|i: int| 0 <= i < longer.len() && (#[trigger] longer[i]) is Array implies base_of(
        longer,
        i,
    ) <= i64::MAX by {
        assert(longer.take(i) =~= shapes.take(i));
        assert(shapes[i] is Array);
    }
}

/// Registering a literal takes at most one cell of the reserve.
pub proof fn lemma_register_fits(model: Model, constant: Constant, reserve: nat)
    requires
        layout_fits(model.shapes, reserve + 1),
    ensures
        layout_fits(model.register(constant).shapes, reserve),
{
    if model.constant_index(constant) is None {
        lemma_fits_push_unit(model.shapes, reserve);
    }
}

/// Noting the literals changes no cell's place and no array's base.
pub proof fn lemma_with_constants(
    slots: Seq<Slot>,
    constants: Seq<(Constant, VariableIndex)>,
    shapes: Seq<Shape>,
)
    requires
        slots.len() == shapes.len(),
        forall|k: int|
            0 <= k < constants.len() ==> (#[trigger] constants[k]).1.id < shapes.len()
                && shapes[constants[k].1.id as int] is Unit,
    ensures
        with_constants(slots, constants).len() == slots.len(),
        forall|i: int|
            0 <= i < slots.len() ==> (#[trigger] with_constants(slots, constants)[i]).location
                == slots[i].location,
        forall|i: int|
            0 <= i < slots.len() && shapes[i] is Array ==> #[trigger] with_constants(
                slots,
                constants,
            )[i] == slots[i],
    decreases constants.len(),
{
    if constants.len() > 0 {
        let front = constants.drop_last();
        assert forall|k: int| 0 <= k < front.len() implies (#[trigger] front[k]).1.id < shapes.len()
            && shapes[front[k].1.id as int] is Unit by {
            assert(front[k] == constants[k]);
        }
        lemma_with_constants(slots, front, shapes);
        assert(constants[constants.len() - 1] == constants.last());
    }
}

/// In the state that the layout of a well-formed program gives, every
/// instruction of the program can be translated and every literal has its
/// cell.
pub proof fn lemma_state_of(model: Model)
    requires
        model.wf(),
        layout_fits(model.shapes, 0),
    ensures
        state_of(model).wf(),
        forall|instruction: Instruction| #[trigger]
            model.valid_instruction(instruction) ==> state_of(model).valid_instruction(instruction),
        forall|c: Constant|
            (#[trigger] model.constant_index(c)) is Some ==> state_of(model).has_constant(c.0),
{
    let state = state_of(model);
    let plain = layout(model.shapes);
    assert(layout_input(model.shapes)) by {
        assert(model.names[0] == model.names[0]);
        assert(model.shapes[0] is Unit);
    }
    lemma_counts_total(model.shapes);
    assert forall|k: int| 0 <= k < model.constants.len() implies (
    #[trigger] model.constants[k]).1.id < model.shapes.len()
        && model.shapes[model.constants[k].1.id as int] is Unit by {
        assert(model.is_unit(model.constants[k].1));
    }
    lemma_with_constants(plain, model.constants, model.shapes);
    lemma_layout_distinct(model.shapes);
    assert(state.emission.wf());
    assert forall|c: Constant| (#[trigger] model.constant_index(c)) is Some implies state.has_constant(
        c.0,
    ) by {
        crate::intermediate::lemma_lookup_constant(model.constants, c);
        let index = model.constant_index(c).unwrap();
        let k = choose|k: int|
            0 <= k < model.constants.len() && (#[trigger] model.constants[k]).0 == c
                && model.constants[k].1 == index;
        assert(model.is_unit(model.constants[k].1));
    }
    assert forall|access: Access| #[trigger] model.valid_access(access) implies state.valid_access(
        access,
    ) by {
        match access {
            Access::Constant(c) => {
                assert(model.constant_index(c) is Some);
            },
            Access::Variable(v) => {},
            Access::ArrayStatic(a, c) => {
                let i = a.id as int;
                assert(is_element(model.shapes, i, c.0 as int));
                assert(state.slots[i] == plain[i]);
                assert(plain[i] == slot_of(model.shapes, i));
                assert(element_cell(model.shapes, i, c.0 as int) == base_of(model.shapes, i) + c.0);
                assert(base_of(model.shapes, i) <= i64::MAX);
                assert(base_of(model.shapes, i) >= 1 - i64::MAX);
            },
            Access::ArrayDynamic(a, i) => {},
        }
    }
}

/// Where `cell` goes in an ordered list: in front of the cells that come
/// after it.
pub proof fn lemma_inserted_at(cells: Seq<(MemoryLocation, i64)>, cell: (MemoryLocation, i64), i: int)
    requires
        0 <= i <= cells.len(),
        forall|k: int| i <= k < cells.len() ==> precedes(cell.1, (#[trigger] cells[k]).1),
        i > 0 ==> !precedes(cell.1, cells[i - 1].1),
    ensures
        inserted(cells, cell) == cells.insert(i, cell),
    decreases cells.len(),
{
    if cells.len() == 0 {
        assert(seq![cell] =~= cells.insert(i, cell));
    } else if i == cells.len() {
        assert(cells.push(cell) =~= cells.insert(i, cell));
    } else {
        assert(precedes(cell.1, cells[cells.len() - 1].1));
        let front = cells.drop_last();
        assert forall|k: int| i <= k < front.len() implies precedes(cell.1, (#[trigger] front[k]).1) by {
            assert(front[k] == cells[k]);
        }
        lemma_inserted_at(front, cell, i);
        assert(front.insert(i, cell).push(cells.last()) =~= cells.insert(i, cell));
    }
}

} // verus!
