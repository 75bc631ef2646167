//! The virtual machine: an accumulator machine over a memory of integers,
//! with a cost for every instruction executed.

pub mod memory;
pub mod run;
pub mod world;

use crate::instruction::Instruction;
use crate::interpreter::memory::Memory;
use crate::interpreter::world::MemoryWorld;
use crate::value::{copy, difference, memval, negation, product, quotient_floor, remainder_floor};
use crate::value::{floor_div, floor_mod, int_value, sign_of, Sign};
use crate::value::{shift_left, shift_right, sign, sum, to_i64, to_usize};
use num_bigint::{BigInt, RandBigInt};
use vstd::arithmetic::power2::pow2;
use vstd::prelude::*;

verus! {

/// Why the machine stopped without reaching `Halt`.
#[derive(Debug, Clone, Copy, PartialEq, Eq, Structural)]
pub enum Error {
    /// A cell was read that nothing was stored in.
    UninitializedMemoryAccess,
    /// The next instruction lies outside the program.
    InstructionPointerOutOfBound,
    /// The world had no input to give.
    WorldError(world::Error),
    /// An address that is no `i64`, or a shift by more bits than a `usize`
    /// counts.
    OperandOutOfRange,
    /// `Mul`, `Div` or `Mod` on a machine without the extended instructions.
    UnsupportedInstruction,
    /// The cost would no longer fit a `u64`.
    CostOverflow,
}

/// The values in memory.
pub type MemoryValue = BigInt;

/// What an instruction computes from the accumulator and a cell.
#[derive(Debug, Clone, Copy, PartialEq, Eq, Structural)]
pub enum BinaryOperation {
    Add,
    Sub,
    Shift,
    Mul,
    Div,
    Mod,
}

/// The accumulator shifted by `bits`: to the left where `bits` is positive,
/// to the right, keeping the sign, where it is negative. A shift by more
/// bits than a `usize` counts has no result.
pub open spec fn shifted(a: int, bits: int) -> Option<int> {
    if bits > 0 {
        if bits <= usize::MAX {
            Some(a * pow2(bits as nat))
        } else {
            None
        }
    } else if bits < 0 {
        if -bits <= usize::MAX {
            Some(a / (pow2((-bits) as nat) as int))
        } else {
            None
        }
    } else {
        Some(a)
    }
}

impl BinaryOperation {
    /// The result on the accumulator `a` and the cell's value `b`. Division
    /// and remainder are floored, and `0` for a zero divisor.
    pub open spec fn apply(self, a: int, b: int) -> Option<int> {
        match self {
            BinaryOperation::Add => Some(a + b),
            BinaryOperation::Sub => Some(a - b),
            BinaryOperation::Shift => shifted(a, b),
            BinaryOperation::Mul => Some(a * b),
            BinaryOperation::Div => Some(floor_div(a, b)),
            BinaryOperation::Mod => Some(floor_mod(a, b)),
        }
    }
}

/// Whether the machine goes on.
pub enum Status {
    Running,
    Halted,
    Failed(Error),
}

/// An address of the machine.
pub open spec fn is_address(a: int) -> bool {
    i64::MIN <= a <= i64::MAX
}

/// The machine: its memory, with the accumulator at cell 0; the place of the
/// next instruction; the cost so far; the inputs that are left; the outputs
/// so far.
pub struct Machine {
    pub memory: Map<int, int>,
    pub ip: nat,
    pub cost: nat,
    pub input: Seq<int>,
    pub output: Seq<int>,
}

impl Machine {
    /// The accumulator is initialized and every cell has an address.
    pub open spec fn wf(self) -> bool {
        &&& self.memory.contains_key(0)
        &&& forall|a: int| self.memory.contains_key(a) ==> is_address(a)
    }

    pub open spec fn acc(self) -> int {
        self.memory[0]
    }

    /// The value of a cell.
    pub open spec fn read(self, address: int) -> Result<int, Error> {
        if !is_address(address) {
            Err(Error::OperandOutOfRange)
        } else if !self.memory.contains_key(address) {
            Err(Error::UninitializedMemoryAccess)
        } else {
            Ok(self.memory[address])
        }
    }

    /// The machine with a cell set.
    pub open spec fn write(self, address: int, value: int) -> Result<Machine, Error> {
        if !is_address(address) {
            Err(Error::OperandOutOfRange)
        } else {
            Ok(Machine { memory: self.memory.insert(address, value), ..self })
        }
    }

    /// The machine with the next instruction one further.
    pub open spec fn advance(self) -> Machine {
        Machine { ip: self.ip + 1, ..self }
    }

    /// The machine with the next instruction at `target` if `taken`, else
    /// one further.
    pub open spec fn branch(self, taken: bool, target: u64) -> Machine {
        if taken {
            Machine { ip: target as nat, ..self }
        } else {
            self.advance()
        }
    }

    /// Accumulator := `op`(accumulator, cell at `address`).
    pub open spec fn combine(self, op: BinaryOperation, address: int) -> Result<Machine, Error> {
        match self.read(address) {
            Ok(b) => match op.apply(self.acc(), b) {
                Some(v) => self.write(0, v),
                None => Err(Error::OperandOutOfRange),
            },
            Err(e) => Err(e),
        }
    }

    /// What the instruction does to memory, input and output, and where it
    /// leaves the instruction pointer.
    pub open spec fn effect(self, instruction: Instruction) -> Result<Machine, Error> {
        match instruction {
            Instruction::Get => if self.input.len() == 0 {
                Err(Error::WorldError(world::Error::InvalidInput))
            } else {
                Ok(
                    Machine {
                        memory: self.memory.insert(0, self.input[0]),
                        input: self.input.skip(1),
                        ..self
                    }.advance(),
                )
            },
            Instruction::Put => Ok(
                Machine { output: self.output.push(self.acc()), ..self }.advance(),
            ),
            Instruction::Load(k) => match self.read(k as int) {
                Ok(v) => advanced(self.write(0, v)),
                Err(e) => Err(e),
            },
            Instruction::Loadi(k) => match self.read(k as int) {
                Ok(a) => match self.read(a) {
                    Ok(v) => advanced(self.write(0, v)),
                    Err(e) => Err(e),
                },
                Err(e) => Err(e),
            },
            Instruction::Store(k) => advanced(self.write(k as int, self.acc())),
            Instruction::Storei(k) => match self.read(k as int) {
                Ok(a) => advanced(self.write(a, self.acc())),
                Err(e) => Err(e),
            },
            Instruction::Add(k) => advanced(self.combine(BinaryOperation::Add, k as int)),
            Instruction::Sub(k) => advanced(self.combine(BinaryOperation::Sub, k as int)),
            Instruction::Shift(k) => advanced(self.combine(BinaryOperation::Shift, k as int)),
            Instruction::Mul(k) => advanced(self.combine(BinaryOperation::Mul, k as int)),
            Instruction::Div(k) => advanced(self.combine(BinaryOperation::Div, k as int)),
            Instruction::Mod(k) => advanced(self.combine(BinaryOperation::Mod, k as int)),
            Instruction::Inc => advanced(self.write(0, self.acc() + 1)),
            Instruction::Dec => advanced(self.write(0, self.acc() - 1)),
            Instruction::Jump(p) => Ok(self.branch(true, p)),
            Instruction::Jpos(p) => Ok(self.branch(self.acc() > 0, p)),
            Instruction::Jzero(p) => Ok(self.branch(self.acc() == 0, p)),
            Instruction::Jneg(p) => Ok(self.branch(self.acc() < 0, p)),
            Instruction::Halt => Ok(self),
        }
    }

    /// The machine with the instruction's cost charged.
    pub open spec fn charge(self, instruction: Instruction) -> Machine {
        Machine { cost: self.cost + instruction.spec_cost(), ..self }
    }

    /// One step: the instruction at the instruction pointer is fetched, its
    /// cost is charged, and it takes effect. `Halt` stops the machine and
    /// changes nothing. Where the step fails, the machine is left with the
    /// cost charged and nothing else changed; a step that cannot even start
    /// leaves the machine as it was.
    pub open spec fn step(self, program: Seq<Instruction>, extended: bool) -> (Machine, Status) {
        if self.ip >= program.len() {
            (self, Status::Failed(Error::InstructionPointerOutOfBound))
        } else {
            let instruction = program[self.ip as int];
            if instruction is Halt {
                (self, Status::Halted)
            } else if instruction.is_extended() && !extended {
                (self, Status::Failed(Error::UnsupportedInstruction))
            } else if self.cost + instruction.spec_cost() > u64::MAX {
                (self, Status::Failed(Error::CostOverflow))
            } else {
                let charged = self.charge(instruction);
                match charged.effect(instruction) {
                    Ok(next) => (next, Status::Running),
                    Err(e) => (charged, Status::Failed(e)),
                }
            }
        }
    }

    /// The machine run until it halts or fails, with the final status.
    pub open spec fn run(self, program: Seq<Instruction>, extended: bool) -> (Machine, Status)
        decreases u64::MAX - self.cost,
    {
        let (next, status) = self.step(program, extended);
        if status is Running && self.cost < next.cost <= u64::MAX {
            next.run(program, extended)
        } else {
            (next, status)
        }
    }

    /// The machine after `n` steps, or where it stopped before.
    pub open spec fn steps(self, program: Seq<Instruction>, extended: bool, n: nat) -> (
        Machine,
        Status,
    )
        decreases n,
    {
        if n == 0 {
            (self, Status::Running)
        } else {
            let (before, status) = self.steps(program, extended, (n - 1) as nat);
            if status is Running {
                before.step(program, extended)
            } else {
                (before, status)
            }
        }
    }

    /// The machine after `instruction`, charged and with its effect; the
    /// machine itself where the instruction fails.
    pub open spec fn doing(self, instruction: Instruction) -> Machine {
        match self.charge(instruction).effect(instruction) {
            Ok(after) => after,
            Err(_) => self,
        }
    }

    /// The instruction can be executed: it is at the instruction pointer,
    /// it is not `Halt`, it is supported, its cost fits, and it does not
    /// fail.
    pub open spec fn can(self, program: Seq<Instruction>, extended: bool, instruction: Instruction) -> bool {
        &&& self.ip < program.len()
        &&& program[self.ip as int] == instruction
        &&& !(instruction is Halt)
        &&& !instruction.is_extended() || extended
        &&& self.cost + instruction.spec_cost() <= u64::MAX
        &&& self.charge(instruction).effect(instruction) is Ok
    }

    /// One step executes the instruction at the instruction pointer.
    pub proof fn lemma_doing(self, program: Seq<Instruction>, extended: bool, instruction: Instruction)
        requires
            self.can(program, extended, instruction),
        ensures
            self.steps(program, extended, 1) == (self.doing(instruction), Status::Running),
    {
        assert(self.steps(program, extended, 0) == (self, Status::Running));
    }

    /// Steps add up.
    pub proof fn lemma_steps_add(self, program: Seq<Instruction>, extended: bool, first: nat, second: nat)
        requires
            self.steps(program, extended, first).1 is Running,
        ensures
            self.steps(program, extended, first + second) == self.steps(
                program,
                extended,
                first,
            ).0.steps(program, extended, second),
        decreases second,
    {
        if second > 0 {
            self.lemma_steps_add(program, extended, first, (second - 1) as nat);
        }
    }

    /// The instruction that the next step charges: the one at the
    /// instruction pointer, unless it is `Halt`, is not supported, or its
    /// cost no longer fits.
    pub open spec fn charged(self, program: Seq<Instruction>, extended: bool) -> Option<Instruction> {
        if self.ip >= program.len() {
            None
        } else {
            let instruction = program[self.ip as int];
            if instruction is Halt || (instruction.is_extended() && !extended) || self.cost
                + instruction.spec_cost() > u64::MAX {
                None
            } else {
                Some(instruction)
            }
        }
    }

    /// The instructions that a run charges, in order.
    pub open spec fn trace(self, program: Seq<Instruction>, extended: bool) -> Seq<Instruction>
        decreases u64::MAX - self.cost,
    {
        let (next, status) = self.step(program, extended);
        let head = match self.charged(program, extended) {
            Some(instruction) => seq![instruction],
            None => Seq::empty(),
        };
        if status is Running && self.cost < next.cost <= u64::MAX {
            head + next.trace(program, extended)
        } else {
            head
        }
    }

    /// The cost at the end of a run is the cost at its start and the
    /// tabled costs of the instructions executed.
    pub proof fn lemma_cost_is_sum(self, program: Seq<Instruction>, extended: bool)
        ensures
            self.run(program, extended).0.cost == self.cost + total_cost(
                self.trace(program, extended),
            ),
        decreases u64::MAX - self.cost,
    {
        let (next, status) = self.step(program, extended);
        let rest = next.trace(program, extended);
        self.lemma_step_costs(program, extended);
        match self.charged(program, extended) {
            Some(instruction) => {
                if status is Running {
                    next.lemma_cost_is_sum(program, extended);
                    assert((seq![instruction] + rest).skip(1) =~= rest);
                    assert((seq![instruction] + rest)[0] == instruction);
                    assert(total_cost(seq![instruction] + rest) == instruction.spec_cost()
                        + total_cost(rest));
                } else {
                    assert(seq![instruction].skip(1) =~= Seq::<Instruction>::empty());
                    assert(total_cost(seq![instruction].skip(1)) == 0);
                    assert(total_cost(seq![instruction]) == instruction.spec_cost());
                    assert(next.cost == self.cost + instruction.spec_cost());
                }
            },
            None => {
                assert(total_cost(Seq::<Instruction>::empty()) == 0);
            },
        }
    }

    /// A step that goes on charges at least 1, and the cost still fits a
    /// `u64`.
    pub proof fn lemma_step_costs(self, program: Seq<Instruction>, extended: bool)
        ensures
            self.step(program, extended).1 is Running ==> self.cost < self.step(
                program,
                extended,
            ).0.cost <= u64::MAX,
            self.step(program, extended).1 is Running ==> self.step(program, extended).0.cost
                == self.cost + program[self.ip as int].spec_cost(),
            self.step(program, extended).1 is Halted ==> self.step(program, extended).0 == self,
    {
    }

    /// But for `Get` and `Put`, an instruction looks only at the memory and
    /// the instruction pointer, and changes nothing else.
    pub proof fn lemma_effect_frame(self, kernel: Machine, instruction: Instruction)
        requires
            kernel.memory == self.memory,
            kernel.ip == self.ip,
            !(instruction is Get),
            !(instruction is Put),
        ensures
            match kernel.effect(instruction) {
                Ok(after) => self.effect(instruction) == Ok::<Machine, Error>(
                    Machine { memory: after.memory, ip: after.ip, ..self },
                ),
                Err(e) => self.effect(instruction) == Err::<Machine, Error>(e),
            },
    {
    }

    /// A step keeps the invariant.
    pub proof fn lemma_step_wf(self, program: Seq<Instruction>, extended: bool)
        requires
            self.wf(),
        ensures
            self.step(program, extended).0.wf(),
    {
    }
}

/// The sum of the tabled costs.
pub open spec fn total_cost(instructions: Seq<Instruction>) -> nat
    decreases instructions.len(),
{
    if instructions.len() == 0 {
        0
    } else {
        instructions[0].spec_cost() + total_cost(instructions.skip(1))
    }
}

/// The machine one instruction further, where there is one.
pub open spec fn advanced(result: Result<Machine, Error>) -> Result<Machine, Error> {
    match result {
        Ok(m) => Ok(m.advance()),
        Err(e) => Err(e),
    }
}

/// The number of bits of the value that the accumulator starts with.
pub const ACCUMULATOR_BITS: u64 = 16;

/// A value for the accumulator that no program can count on:
/// `RandBigInt::gen_bigint` on `rand::thread_rng`, for a number of bits
/// that one allocation can hold. Nothing is known of it but its type.
#[verifier::external_body]
pub(crate) fn random_memory_value(bits: u64) -> BigInt
    requires
        bits <= 0x1_0000,
{
    rand::thread_rng().gen_bigint(bits)
}

impl BinaryOperation {
    /// See [`BinaryOperation::apply`].
    pub fn compute(self, a: &BigInt, b: &BigInt) -> (r: Option<BigInt>)
        ensures
            match r {
                Some(v) => self.apply(int_value(*a), int_value(*b)) == Some(int_value(v)),
                None => self.apply(int_value(*a), int_value(*b)) is None,
            },
    {
        match self {
            BinaryOperation::Add => Some(sum(a, b)),
            BinaryOperation::Sub => Some(difference(a, b)),
            BinaryOperation::Shift => shift(a, b),
            BinaryOperation::Mul => Some(product(a, b)),
            BinaryOperation::Div => {
                match sign(b) {
                    Sign::Zero => Some(memval(0)),
                    _ => Some(quotient_floor(a, b)),
                }
            },
            BinaryOperation::Mod => {
                match sign(b) {
                    Sign::Zero => Some(memval(0)),
                    _ => Some(remainder_floor(a, b)),
                }
            },
        }
    }
}

/// See [`shifted`].
pub fn shift(a: &BigInt, b: &BigInt) -> (r: Option<BigInt>)
    ensures
        match r {
            Some(v) => shifted(int_value(*a), int_value(*b)) == Some(int_value(v)),
            None => shifted(int_value(*a), int_value(*b)) is None,
        },
{
    match sign(b) {
        Sign::Positive => match to_usize(b) {
            Some(bits) => Some(shift_left(a, bits)),
            None => None,
        },
        Sign::Negative => {
            let opposite = negation(b);
            match to_usize(&opposite) {
                Some(bits) => Some(shift_right(a, bits)),
                None => None,
            }
        },
        Sign::Zero => Some(copy(a)),
    }
}

/// The address that an operand names.
fn operand_address(operand: u64) -> (r: Result<i64, Error>)
    ensures
        match r {
            Ok(a) => a == operand,
            Err(e) => e == Error::OperandOutOfRange && !is_address(operand as int),
        },
{
    if operand > 9223372036854775807u64 {
        Err(Error::OperandOutOfRange)
    } else {
        Ok(operand as i64)
    }
}

/// The address that a value names.
fn value_address(value: &BigInt) -> (r: Result<i64, Error>)
    ensures
        match r {
            Ok(a) => a == int_value(*value),
            Err(e) => e == Error::OperandOutOfRange && !is_address(int_value(*value)),
        },
{
    match to_i64(value) {
        Some(a) => Ok(a),
        None => Err(Error::OperandOutOfRange),
    }
}

/// The interpreter of a program.
#[derive(Debug)]
pub struct Interpreter {
    memory: Memory,
    cost: u64,
    instr_ptr: u64,
    program: Vec<Instruction>,
    extended_instruction_set: bool,
}

impl Interpreter {
    pub closed spec fn spec_program(&self) -> Seq<Instruction> {
        self.program@
    }

    pub closed spec fn is_extended(&self) -> bool {
        self.extended_instruction_set
    }

    pub closed spec fn spec_memory(&self) -> Map<int, int> {
        self.memory@
    }

    pub closed spec fn spec_cost(&self) -> nat {
        self.cost as nat
    }

    pub closed spec fn spec_ip(&self) -> nat {
        self.instr_ptr as nat
    }

    /// The machine that the interpreter and the world make up.
    pub open spec fn machine(&self, world: &MemoryWorld) -> Machine {
        Machine {
            memory: self.spec_memory(),
            ip: self.spec_ip(),
            cost: self.spec_cost(),
            input: world.pending(),
            output: world.emitted(),
        }
    }

    /// The accumulator is initialized.
    pub open spec fn inv(&self) -> bool {
        self.spec_memory().contains_key(0)
    }

    /// An interpreter at the start of `program`, with `accumulator` in the
    /// accumulator and every other cell uninitialized.
    pub fn with_accumulator(program: Vec<Instruction>, extended: bool, accumulator: BigInt) -> (r:
        Interpreter)
        ensures
            r.inv(),
            r.spec_program() == program@,
            r.is_extended() == extended,
            r.spec_memory() == Map::<int, int>::empty().insert(0, int_value(accumulator)),
            r.spec_cost() == 0,
            r.spec_ip() == 0,
    {
        Interpreter {
            memory: Memory::new(accumulator),
            cost: 0,
            instr_ptr: 0,
            program,
            extended_instruction_set: extended,
        }
    }

    /// An interpreter at the start of `program`. The accumulator holds a
    /// random value and every other cell is uninitialized.
    pub fn new(program: Vec<Instruction>) -> (r: Interpreter)
        ensures
            r.inv(),
            r.spec_program() == program@,
            !r.is_extended(),
            r.spec_memory().dom() == set![0int],
            r.spec_cost() == 0,
            r.spec_ip() == 0,
    {
        let r = Self::with_accumulator(program, false, random_memory_value(ACCUMULATOR_BITS));
        assert(r.spec_memory().dom() =~= set![0int]);
        r
    }

    /// Like [`Interpreter::new`], with `Mul`, `Div` and `Mod`.
    pub fn new_extended(program: Vec<Instruction>) -> (r: Interpreter)
        ensures
            r.inv(),
            r.spec_program() == program@,
            r.is_extended(),
            r.spec_memory().dom() == set![0int],
            r.spec_cost() == 0,
            r.spec_ip() == 0,
    {
        let r = Self::with_accumulator(program, true, random_memory_value(ACCUMULATOR_BITS));
        assert(r.spec_memory().dom() =~= set![0int]);
        r
    }

    /// The cost so far.
    pub fn cost(&self) -> (r: u64)
        ensures
            r == self.spec_cost(),
    {
        self.cost
    }

    /// The place of the next instruction.
    pub fn instruction_pointer(&self) -> (r: u64)
        ensures
            r == self.spec_ip(),
    {
        self.instr_ptr
    }

    /// Whether the next instruction is `Get`.
    pub fn awaits_input(&self) -> (r: bool)
        ensures
            r == (self.spec_ip() < self.spec_program().len() && self.spec_program()[self.spec_ip() as int]
                is Get),
    {
        if self.instr_ptr < self.program.len() as u64 {
            match self.program[self.instr_ptr as usize] {
                Instruction::Get => true,
                _ => false,
            }
        } else {
            false
        }
    }

    /// The value of an initialized cell.
    fn get_initialized(&self, index: i64) -> (r: Result<&BigInt, Error>)
        ensures
            match r {
                Ok(v) => self.spec_memory().contains_key(index as int) && int_value(*v)
                    == self.spec_memory()[index as int],
                Err(e) => e == Error::UninitializedMemoryAccess && !self.spec_memory().contains_key(
                    index as int,
                ),
            },
    {
        match self.memory.get(index) {
            Some(v) => Ok(v),
            None => Err(Error::UninitializedMemoryAccess),
        }
    }

    /// Cell at `index` := cell at `value_index`.
    fn assign(&mut self, index: i64, value_index: i64) -> (r: Result<(), Error>)
        ensures
            final(self).cost == old(self).cost,
            final(self).instr_ptr == old(self).instr_ptr,
            final(self).program == old(self).program,
            final(self).extended_instruction_set == old(self).extended_instruction_set,
            match r {
                Ok(_) => old(self).memory@.contains_key(value_index as int) && final(self).memory@
                    == old(self).memory@.insert(
                    index as int,
                    old(self).memory@[value_index as int],
                ),
                Err(e) => e == Error::UninitializedMemoryAccess && !old(self).memory@.contains_key(
                    value_index as int,
                ) && final(self).memory@ == old(self).memory@,
            },
    {
        let value = match self.get_initialized(value_index) {
            Ok(v) => copy(v),
            Err(e) => {
                return Err(e);
            },
        };
        self.memory.insert(index, value);
        Ok(())
    }

    /// Accumulator := `op`(accumulator, cell at `value_index`).
    fn mutate_bin(&mut self, value_index: i64, op: BinaryOperation) -> (r: Result<(), Error>)
        requires
            old(self).inv(),
        ensures
            final(self).cost == old(self).cost,
            final(self).instr_ptr == old(self).instr_ptr,
            final(self).program == old(self).program,
            final(self).extended_instruction_set == old(self).extended_instruction_set,
            ({
                let before = Machine {
                    memory: old(self).memory@,
                    ip: 0,
                    cost: 0,
                    input: Seq::empty(),
                    output: Seq::empty(),
                };
                match before.combine(op, value_index as int) {
                    Ok(after) => r is Ok && final(self).memory@ == after.memory,
                    Err(e) => r == Err::<(), Error>(e) && final(self).memory@ == old(self).memory@,
                }
            }),
    {
        let acc_value = match self.get_initialized(0) {
            Ok(v) => v,
            Err(e) => {
                return Err(e);
            },
        };
        let value = match self.get_initialized(value_index) {
            Ok(v) => v,
            Err(e) => {
                return Err(e);
            },
        };
        match op.compute(acc_value, value) {
            Some(new_value) => {
                self.memory.insert(0, new_value);
                Ok(())
            },
            None => Err(Error::OperandOutOfRange),
        }
    }

    /// What the instruction does to memory, input and output: see
    /// [`Machine::effect`]. The instruction pointer is left alone, but for
    /// the jumps.
    fn execute(&mut self, instruction: Instruction, world: &mut MemoryWorld) -> (r: Result<
        (),
        Error,
    >)
        requires
            old(self).inv(),
            !(instruction is Halt),
            old(self).instr_ptr < old(self).program@.len(),
        ensures
            final(self).cost == old(self).cost,
            final(self).program == old(self).program,
            final(self).extended_instruction_set == old(self).extended_instruction_set,
            final(world).log_lines() == old(world).log_lines(),
            match old(self).machine(old(world)).effect(instruction) {
                Ok(after) => r is Ok && final(self).machine(final(world)) == after,
                Err(e) => r == Err::<(), Error>(e) && final(self).machine(final(world)) == old(
                    self,
                ).machine(old(world)),
            },
    {
        let ghost before = self.machine(world);
        proof {
            if !(instruction is Get) && !(instruction is Put) {
                before.lemma_effect_frame(self.kernel(), instruction);
            }
        }
        match instruction {
            Instruction::Get => {
                match world.get() {
                    Ok(value) => {
                        self.memory.insert(0, value);
                        self.advance();
                        assert(self.machine(world) == before.effect(instruction)->Ok_0);
                        Ok(())
                    },
                    Err(e) => {
                        assert(self.machine(world) == before);
                        Err(Error::WorldError(e))
                    },
                }
            },
            Instruction::Put => {
                match self.get_initialized(0) {
                    Ok(v) => {
                        world.put(v);
                    },
                    Err(_) => {},
                }
                self.advance();
                assert(self.machine(world) == before.effect(instruction)->Ok_0);
                Ok(())
            },
            Instruction::Load(arg) => self.load(arg, false),
            Instruction::Loadi(arg) => self.load(arg, true),
            Instruction::Store(arg) => self.store(arg, false),
            Instruction::Storei(arg) => self.store(arg, true),
            Instruction::Add(arg) => self.combine(arg, BinaryOperation::Add),
            Instruction::Sub(arg) => self.combine(arg, BinaryOperation::Sub),
            Instruction::Shift(arg) => self.combine(arg, BinaryOperation::Shift),
            Instruction::Mul(arg) => self.combine(arg, BinaryOperation::Mul),
            Instruction::Div(arg) => self.combine(arg, BinaryOperation::Div),
            Instruction::Mod(arg) => self.combine(arg, BinaryOperation::Mod),
            Instruction::Inc => {
                self.mutate(true);
                self.advance();
                assert(self.kernel() == old(self).kernel().effect(instruction)->Ok_0);
                Ok(())
            },
            Instruction::Dec => {
                self.mutate(false);
                self.advance();
                assert(self.kernel() == old(self).kernel().effect(instruction)->Ok_0);
                Ok(())
            },
            Instruction::Jump(arg) => {
                self.instr_ptr = arg;
                assert(self.kernel() == old(self).kernel().effect(instruction)->Ok_0);
                Ok(())
            },
            Instruction::Jpos(arg) => {
                self.branch(Sign::Positive, arg);
                assert(self.kernel() == old(self).kernel().effect(instruction)->Ok_0);
                Ok(())
            },
            Instruction::Jzero(arg) => {
                self.branch(Sign::Zero, arg);
                Ok(())
            },
            Instruction::Jneg(arg) => {
                self.branch(Sign::Negative, arg);
                Ok(())
            },
            Instruction::Halt => Ok(()),
        }
    }

    /// The machine as far as the interpreter holds it: memory and
    /// instruction pointer, with no cost, no input and no output.
    pub closed spec fn kernel(&self) -> Machine {
        Machine {
            memory: self.memory@,
            ip: self.instr_ptr as nat,
            cost: 0,
            input: Seq::empty(),
            output: Seq::empty(),
        }
    }

    /// The address that `operand` names, or with `indirect` the address
    /// that the cell at `operand` holds.
    fn resolve(&self, operand: u64, indirect: bool) -> (r: Result<i64, Error>)
        ensures
            match r {
                Ok(a) => if indirect {
                    self.kernel().read(operand as int) == Ok::<int, Error>(a as int)
                } else {
                    a == operand
                },
                Err(e) => if indirect {
                    match self.kernel().read(operand as int) {
                        Ok(a) => !is_address(a) && e == Error::OperandOutOfRange,
                        Err(failure) => e == failure,
                    }
                } else {
                    !is_address(operand as int) && e == Error::OperandOutOfRange
                },
            },
    {
        let direct = match operand_address(operand) {
            Ok(a) => a,
            Err(e) => {
                return Err(e);
            },
        };
        if indirect {
            match self.get_initialized(direct) {
                Ok(v) => value_address(v),
                Err(e) => Err(e),
            }
        } else {
            Ok(direct)
        }
    }

    /// Accumulator := the cell at `operand`, or with `indirect` the cell
    /// whose address the cell at `operand` holds; and on to the next
    /// instruction.
    fn load(&mut self, operand: u64, indirect: bool) -> (r: Result<(), Error>)
        requires
            old(self).inv(),
            old(self).instr_ptr < old(self).program@.len(),
        ensures
            final(self).cost == old(self).cost,
            final(self).program == old(self).program,
            final(self).extended_instruction_set == old(self).extended_instruction_set,
            match old(self).kernel().effect(
                if indirect {
                    Instruction::Loadi(operand)
                } else {
                    Instruction::Load(operand)
                },
            ) {
                Ok(after) => r is Ok && final(self).kernel() == after,
                Err(e) => r == Err::<(), Error>(e) && final(self).kernel() == old(self).kernel(),
            },
    {
        let address = match self.resolve(operand, indirect) {
            Ok(a) => a,
            Err(e) => {
                return Err(e);
            },
        };
        match self.assign(0, address) {
            Ok(_) => {
                self.advance();
                Ok(())
            },
            Err(e) => Err(e),
        }
    }

    /// The cell at `operand`, or with `indirect` the cell whose address the
    /// cell at `operand` holds, := accumulator; and on to the next
    /// instruction.
    fn store(&mut self, operand: u64, indirect: bool) -> (r: Result<(), Error>)
        requires
            old(self).inv(),
            old(self).instr_ptr < old(self).program@.len(),
        ensures
            final(self).cost == old(self).cost,
            final(self).program == old(self).program,
            final(self).extended_instruction_set == old(self).extended_instruction_set,
            match old(self).kernel().effect(
                if indirect {
                    Instruction::Storei(operand)
                } else {
                    Instruction::Store(operand)
                },
            ) {
                Ok(after) => r is Ok && final(self).kernel() == after,
                Err(e) => r == Err::<(), Error>(e) && final(self).kernel() == old(self).kernel(),
            },
    {
        let address = match self.resolve(operand, indirect) {
            Ok(a) => a,
            Err(e) => {
                return Err(e);
            },
        };
        match self.assign(address, 0) {
            Ok(_) => {
                self.advance();
                Ok(())
            },
            Err(e) => Err(e),
        }
    }

    /// On to the next instruction.
    fn advance(&mut self)
        requires
            old(self).instr_ptr < old(self).program@.len(),
        ensures
            final(self).instr_ptr == old(self).instr_ptr + 1,
            final(self).cost == old(self).cost,
            final(self).memory == old(self).memory,
            final(self).program == old(self).program,
            final(self).extended_instruction_set == old(self).extended_instruction_set,
    {
        let length = self.program.len();
        self.instr_ptr = self.instr_ptr + 1;
    }

    /// Accumulator := `op`(accumulator, cell at `operand`), and on to the
    /// next instruction.
    fn combine(&mut self, operand: u64, op: BinaryOperation) -> (r: Result<(), Error>)
        requires
            old(self).inv(),
            old(self).instr_ptr < old(self).program@.len(),
        ensures
            final(self).cost == old(self).cost,
            final(self).program == old(self).program,
            final(self).extended_instruction_set == old(self).extended_instruction_set,
            match advanced(old(self).kernel().combine(op, operand as int)) {
                Ok(after) => r is Ok && final(self).kernel() == after,
                Err(e) => r == Err::<(), Error>(e) && final(self).kernel() == old(self).kernel(),
            },
    {
        let address = match operand_address(operand) {
            Ok(a) => a,
            Err(e) => {
                return Err(e);
            },
        };
        match self.mutate_bin(address, op) {
            Ok(_) => {
                self.advance();
                Ok(())
            },
            Err(e) => Err(e),
        }
    }

    /// Accumulator := accumulator + 1 (`up`) or - 1.
    fn mutate(&mut self, up: bool)
        requires
            old(self).inv(),
        ensures
            final(self).cost == old(self).cost,
            final(self).instr_ptr == old(self).instr_ptr,
            final(self).program == old(self).program,
            final(self).extended_instruction_set == old(self).extended_instruction_set,
            final(self).memory@ == old(self).memory@.insert(
                0,
                if up {
                    old(self).memory@[0] + 1
                } else {
                    old(self).memory@[0] - 1
                },
            ),
    {
        let one = memval(1);
        let new_value = match self.get_initialized(0) {
            Ok(v) => if up {
                sum(v, &one)
            } else {
                difference(v, &one)
            },
            Err(_) => one,
        };
        self.memory.insert(0, new_value);
    }

    /// Jumps to `target` where the accumulator has the sign `wanted`, else
    /// goes on to the next instruction.
    fn branch(&mut self, wanted: Sign, target: u64)
        requires
            old(self).inv(),
            old(self).instr_ptr < old(self).program@.len(),
        ensures
            final(self).cost == old(self).cost,
            final(self).memory == old(self).memory,
            final(self).program == old(self).program,
            final(self).extended_instruction_set == old(self).extended_instruction_set,
            final(self).instr_ptr as int == if sign_of(old(self).memory@[0]) == wanted {
                target as int
            } else {
                old(self).instr_ptr + 1
            },
    {
        let taken = match self.get_initialized(0) {
            Ok(v) => sign(v) == wanted,
            Err(_) => false,
        };
        if taken {
            self.instr_ptr = target;
        } else {
            self.advance();
        }
    }

    /// One step of the machine: see [`Machine::step`]. Returns whether the
    /// machine goes on: `Ok(false)` is a `Halt`.
    pub fn interpret_single(&mut self, world: &mut MemoryWorld) -> (r: Result<bool, Error>)
        requires
            old(self).inv(),
        ensures
            final(self).inv(),
            final(self).spec_program() == old(self).spec_program(),
            final(self).is_extended() == old(self).is_extended(),
            final(world).log_lines() == old(world).log_lines(),
            ({
                let (after, status) = old(self).machine(old(world)).step(
                    old(self).spec_program(),
                    old(self).is_extended(),
                );
                &&& final(self).machine(final(world)) == after
                &&& match status {
                    Status::Running => r == Ok::<bool, Error>(true),
                    Status::Halted => r == Ok::<bool, Error>(false),
                    Status::Failed(e) => r == Err::<bool, Error>(e),
                }
            }),
    {
        if self.instr_ptr >= self.program.len() as u64 {
            return Err(Error::InstructionPointerOutOfBound);
        }
        let instr = self.program[self.instr_ptr as usize];
        let cost = instr.cost();
        match instr {
            Instruction::Halt => {
                return Ok(false);
            },
            Instruction::Mul(_) | Instruction::Div(_) | Instruction::Mod(_) => {
                if !self.extended_instruction_set {
                    return Err(Error::UnsupportedInstruction);
                }
            },
            _ => {},
        }
        if cost > u64::MAX - self.cost {
            return Err(Error::CostOverflow);
        }
        self.cost = self.cost + cost;
        match self.execute(instr, world) {
            Ok(_) => Ok(true),
            Err(e) => Err(e),
        }
    }

    /// Runs the machine until it halts or fails: see [`Machine::run`].
    /// Returns the cost at the `Halt`.
    pub fn interpret(&mut self, world: &mut MemoryWorld) -> (r: Result<u64, Error>)
        requires
            old(self).inv(),
        ensures
            final(self).inv(),
            final(self).spec_program() == old(self).spec_program(),
            final(self).is_extended() == old(self).is_extended(),
            final(world).log_lines() == old(world).log_lines(),
            ({
                let (after, status) = old(self).machine(old(world)).run(
                    old(self).spec_program(),
                    old(self).is_extended(),
                );
                &&& final(self).machine(final(world)) == after
                &&& match status {
                    Status::Running => false,
                    Status::Halted => r == Ok::<u64, Error>(after.cost as u64),
                    Status::Failed(e) => r == Err::<u64, Error>(e),
                }
            }),
    {
        loop
            invariant
                self.inv(),
                self.spec_program() == old(self).spec_program(),
                self.is_extended() == old(self).is_extended(),
                world.log_lines() == old(world).log_lines(),
                self.machine(world).run(self.spec_program(), self.is_extended()) == old(
                    self,
                ).machine(old(world)).run(old(self).spec_program(), old(self).is_extended()),
            decreases u64::MAX - self.cost,
        {
            proof {
                self.machine(world).lemma_step_costs(self.spec_program(), self.is_extended());
            }
            match self.interpret_single(world) {
                Ok(true) => {},
                Ok(false) => {
                    return Ok(self.cost);
                },
                Err(error) => {
                    return Err(error);
                },
            }
        }
    }
}

} // verus!
