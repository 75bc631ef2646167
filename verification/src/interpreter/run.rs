//! Running a program on inputs given beforehand.

use crate::instruction::Instruction;
use crate::interpreter::world::MemoryWorld;
use crate::interpreter::{Error, Interpreter, Machine, MemoryValue, Status};
use crate::value::{int_value, int_values};

use vstd::prelude::*;

verus! {

/// The machine at the start of a program: `accumulator` in the accumulator,
/// every other cell uninitialized, no cost, `input` to read and nothing
/// written.
pub open spec fn start(accumulator: int, input: Seq<int>) -> Machine {
    Machine {
        memory: Map::<int, int>::empty().insert(0, accumulator),
        ip: 0,
        cost: 0,
        input,
        output: Seq::empty(),
    }
}

/// What a run gives back for the machine and the status it ended with: the
/// cost and the outputs of a machine that halted, the error of one that
/// failed.
pub open spec fn outcome(
    end: (Machine, Status),
    result: Result<(u64, Vec<MemoryValue>), Error>,
) -> bool {
    match end.1 {
        Status::Running => false,
        Status::Halted => result matches Ok((cost, output)) && cost == end.0.cost && int_values(
            output@,
        ) == end.0.output,
        Status::Failed(e) => result == Err::<(u64, Vec<MemoryValue>), Error>(e),
    }
}

/// Runs `instructions` on `input`, starting with `accumulator` in the
/// accumulator, until the machine halts or fails.
pub fn run_from(
    instructions: Vec<Instruction>,
    input: Vec<MemoryValue>,
    extended: bool,
    accumulator: MemoryValue,
) -> (result: Result<(u64, Vec<MemoryValue>), Error>)
    ensures
        outcome(
            start(int_value(accumulator), int_values(input@)).run(instructions@, extended),
            result,
        ),
{
    let mut world = MemoryWorld::new(input);
    let mut interpreter = Interpreter::with_accumulator(instructions, extended, accumulator);
    assert(interpreter.machine(&world) == start(int_value(accumulator), int_values(input@)));
    match interpreter.interpret(&mut world) {
        Ok(cost) => Ok((cost, world.into_output())),
        Err(e) => Err(e),
    }
}

/// Runs `instructions` on `input` until the machine halts or fails. The
/// accumulator starts with a random value.
pub fn run(instructions: Vec<Instruction>, input: Vec<MemoryValue>) -> (result: Result<
    (u64, Vec<MemoryValue>),
    Error,
>)
    ensures
        exists|accumulator: int|
            outcome(
                #[trigger] start(accumulator, int_values(input@)).run(instructions@, false),
                result,
            ),
{
    let accumulator = crate::interpreter::random_memory_value(crate::interpreter::ACCUMULATOR_BITS);
    let result = run_from(instructions, input, false, accumulator);
    assert(outcome(
        start(int_value(accumulator), int_values(input@)).run(instructions@, false),
        result,
    ));
    result
}

/// Like [`run`], on a machine with `Mul`, `Div` and `Mod`.
pub fn run_extended(instructions: Vec<Instruction>, input: Vec<MemoryValue>) -> (result: Result<
    (u64, Vec<MemoryValue>),
    Error,
>)
    ensures
        exists|accumulator: int|
            outcome(
                #[trigger] start(accumulator, int_values(input@)).run(instructions@, true),
                result,
            ),
{
    let accumulator = crate::interpreter::random_memory_value(crate::interpreter::ACCUMULATOR_BITS);
    let result = run_from(instructions, input, true, accumulator);
    assert(outcome(
        start(int_value(accumulator), int_values(input@)).run(instructions@, true),
        result,
    ));
    result
}

} // verus!
