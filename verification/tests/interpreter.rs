use gembiler::instruction::Instruction;
use gembiler::interpreter::run::{run, run_extended, run_from};
use gembiler::interpreter::world::{self, MemoryWorld};
use gembiler::interpreter::{Error, Interpreter, MemoryValue};
use gembiler::value::memval;
use num_bigint::BigInt;

fn interpret(inputs: Vec<MemoryValue>, program: Vec<Instruction>) -> (MemoryWorld, Result<u64, Error>) {
    let mut world = MemoryWorld::new(inputs);
    let mut interpreter = Interpreter::new(program);
    let result = interpreter.interpret(&mut world);
    (world, result)
}

#[test]
fn empty_program() {
    let (_, result) = interpret(vec![], vec![]);
    assert_eq!(result, Err(Error::InstructionPointerOutOfBound));
}

#[test]
fn halt() {
    let (_, result) = interpret(vec![], vec![Instruction::Halt]);
    assert_eq!(result, Ok(0));
}

#[test]
fn uninitialized() {
    let (_, result) = interpret(vec![], vec![
        Instruction::Load(1),
        Instruction::Halt,
    ]);

    assert_eq!(result, Err(Error::UninitializedMemoryAccess));
}

#[test]
fn simple() {
    let program = vec![
        Instruction::Sub(0),
        Instruction::Halt,
    ];

    let cost = program.iter().map(|i| i.cost()).sum();

    let (_, result) = interpret(vec![], program);

    assert_eq!(result, Ok(cost))
}

#[test]
fn simple_output() {
    let program = vec![
        Instruction::Sub(0),
        Instruction::Put,
        Instruction::Halt,
    ];

    let cost = program.iter().map(|i| i.cost()).sum();

    let (world, result) = interpret(vec![], program);

    assert_eq!(result, Ok(cost));
    assert_eq!(world.output(), &[0.into()]);
}

#[test]
fn simple_io() {
    let program = vec![
        Instruction::Get,
        Instruction::Put,
        Instruction::Halt,
    ];

    let cost = program.iter().map(|i| i.cost()).sum();
    let val = memval(42);
    let inputs = vec![val];
    let outputs = inputs.clone();

    let (world, result) = interpret(inputs, program);

    assert_eq!(result, Ok(cost));
    assert_eq!(world.output(), &*outputs);
}

#[test]
fn simple_io2() {
    let program = vec![
        Instruction::Get,
        Instruction::Put,
        Instruction::Put,
        Instruction::Halt,
    ];

    let cost = program.iter().map(|i| i.cost()).sum();
    let val = memval(42);
    let inputs = vec![val.clone()];
    let outputs = vec![val.clone(), val.clone()];

    let (world, result) = interpret(inputs, program);

    assert_eq!(result, Ok(cost));
    assert_eq!(world.output(), &*outputs);
}

#[test]
fn simple_arithmetic() {
    let program = vec![
        Instruction::Get,
        Instruction::Inc,
        Instruction::Put,
        Instruction::Halt,
    ];

    let cost = program.iter().map(|i| i.cost()).sum();
    let val = memval(42);
    let inputs = vec![val.clone()];
    let outputs = vec![val + 1];

    let (world, result) = interpret(inputs, program);

    assert_eq!(result, Ok(cost));
    assert_eq!(world.output(), &*outputs);
}

#[test]
fn simple_arithmetic2() {
    let program = vec![
        Instruction::Get,
        Instruction::Inc,
        Instruction::Inc,
        Instruction::Add(0),
        Instruction::Dec,
        Instruction::Put,
        Instruction::Halt,
    ];

    let cost = program.iter().map(|i| i.cost()).sum();
    let val = memval(42);
    let inputs = vec![val.clone()];
    let outputs = vec![2 * val + 3];

    let (world, result) = interpret(inputs, program);

    assert_eq!(result, Ok(cost));
    assert_eq!(world.output(), &*outputs);
}


#[test]
fn input_is_delivered_in_order() {
    let program = vec![
        Instruction::Get,
        Instruction::Put,
        Instruction::Get,
        Instruction::Put,
        Instruction::Get,
        Instruction::Put,
        Instruction::Halt,
    ];
    let inputs: Vec<BigInt> = vec![memval(1), memval(2), memval(3)];
    let (cost, output) = run(program, inputs.clone()).unwrap();
    assert_eq!(cost, 600);
    assert_eq!(output, inputs);
}

#[test]
fn input_exhausted() {
    let program = vec![Instruction::Get, Instruction::Get, Instruction::Halt];
    let result = run(program, vec![memval(1)]);
    assert_eq!(result, Err(Error::WorldError(world::Error::InvalidInput)));
}

#[test]
fn instruction_pointer_out_of_bound_after_jump() {
    let result = run(vec![Instruction::Jump(7), Instruction::Halt], vec![]);
    assert_eq!(result, Err(Error::InstructionPointerOutOfBound));
    let result = run(vec![Instruction::Jump(u64::MAX)], vec![]);
    assert_eq!(result, Err(Error::InstructionPointerOutOfBound));
}

#[test]
fn extended_instructions_need_the_extended_machine() {
    let program = vec![
        Instruction::Sub(0),
        Instruction::Inc,
        Instruction::Store(1),
        Instruction::Mul(1),
        Instruction::Halt,
    ];
    assert_eq!(run(program.clone(), vec![]), Err(Error::UnsupportedInstruction));
    let (cost, output) = run_extended(program, vec![]).unwrap();
    assert_eq!(cost, 10 + 1 + 10 + 50);
    assert!(output.is_empty());
}

#[test]
fn operand_out_of_range() {
    let beyond = 1u64 << 63;
    assert_eq!(run(vec![Instruction::Load(beyond)], vec![]), Err(Error::OperandOutOfRange));
    assert_eq!(run(vec![Instruction::Store(beyond)], vec![]), Err(Error::OperandOutOfRange));
    // an indirect address that is no i64
    let huge: BigInt = BigInt::from(1) << 70usize;
    let program = vec![Instruction::Get, Instruction::Store(1), Instruction::Loadi(1)];
    assert_eq!(run(program, vec![huge.clone()]), Err(Error::OperandOutOfRange));
    // a shift by more bits than a usize counts
    let program = vec![Instruction::Get, Instruction::Store(1), Instruction::Shift(1)];
    assert_eq!(run(program.clone(), vec![huge.clone()]), Err(Error::OperandOutOfRange));
    assert_eq!(run(program, vec![-huge]), Err(Error::OperandOutOfRange));
}

#[test]
fn shift_is_arithmetic() {
    // acc := input << 3, >> 1, then negative values shifted right round down
    let program = vec![
        Instruction::Get,
        Instruction::Store(1),
        Instruction::Get,
        Instruction::Store(2),
        Instruction::Get,
        Instruction::Shift(1),
        Instruction::Put,
        Instruction::Shift(2),
        Instruction::Put,
        Instruction::Halt,
    ];
    let run_with = |value: i64| {
        let (_, output) = run(program.clone(), vec![memval(3), memval(-1), memval(value)]).unwrap();
        output
    };
    assert_eq!(run_with(5), vec![memval(40), memval(20)]);
    assert_eq!(run_with(-5), vec![memval(-40), memval(-20)]);
    let program = vec![
        Instruction::Get,
        Instruction::Store(1),
        Instruction::Get,
        Instruction::Shift(1),
        Instruction::Put,
        Instruction::Halt,
    ];
    let (_, output) = run(program.clone(), vec![memval(-1), memval(-5)]).unwrap();
    assert_eq!(output, vec![memval(-3)]);
    let (_, output) = run(program.clone(), vec![memval(-2), memval(-1)]).unwrap();
    assert_eq!(output, vec![memval(-1)]);
    let (_, output) = run(program, vec![memval(0), memval(-7)]).unwrap();
    assert_eq!(output, vec![memval(-7)]);
}

#[test]
fn extended_division_is_floored() {
    let program = vec![
        Instruction::Get,
        Instruction::Store(1),
        Instruction::Get,
        Instruction::Store(2),
        Instruction::Load(1),
        Instruction::Div(2),
        Instruction::Put,
        Instruction::Load(1),
        Instruction::Mod(2),
        Instruction::Put,
        Instruction::Halt,
    ];
    let divide = |a: i64, b: i64| {
        let (_, output) = run_extended(program.clone(), vec![memval(a), memval(b)]).unwrap();
        (output[0].clone(), output[1].clone())
    };
    assert_eq!(divide(33, 7), (memval(4), memval(5)));
    assert_eq!(divide(33, -7), (memval(-5), memval(-2)));
    assert_eq!(divide(-33, -7), (memval(4), memval(-5)));
    assert_eq!(divide(-33, 7), (memval(-5), memval(2)));
    assert_eq!(divide(33, 0), (memval(0), memval(0)));
    assert_eq!(divide(-14, 7), (memval(-2), memval(0)));
}

#[test]
fn indirect_access() {
    let program = vec![
        Instruction::Get,
        Instruction::Store(1),
        Instruction::Get,
        Instruction::Storei(1),
        Instruction::Sub(0),
        Instruction::Loadi(1),
        Instruction::Put,
        Instruction::Load(1),
        Instruction::Put,
        Instruction::Halt,
    ];
    let (cost, output) = run(program, vec![memval(-40), memval(17)]).unwrap();
    assert_eq!(output, vec![memval(17), memval(-40)]);
    assert_eq!(cost, 100 + 10 + 100 + 20 + 10 + 20 + 100 + 10 + 100);
}

#[test]
fn accumulator_can_be_given() {
    let program = vec![Instruction::Put, Instruction::Halt];
    let result = run_from(program, vec![], false, memval(-9));
    assert_eq!(result, Ok((100, vec![memval(-9)])));
}

#[test]
fn cost_is_the_sum_of_the_executed_instructions() {
    // counts down from 3: the loop body runs three times
    let program = vec![
        Instruction::Get,
        Instruction::Jzero(4),
        Instruction::Dec,
        Instruction::Jump(1),
        Instruction::Halt,
    ];
    let (cost, _) = run(program, vec![memval(3)]).unwrap();
    assert_eq!(cost, 100 + 3 * (1 + 1 + 1) + 1);
}

#[test]
fn single_steps() {
    let mut world = MemoryWorld::new(vec![memval(2)]);
    let mut interpreter = Interpreter::new(vec![Instruction::Get, Instruction::Halt]);
    assert!(interpreter.awaits_input());
    assert!(world.has_input());
    assert_eq!(interpreter.interpret_single(&mut world), Ok(true));
    assert_eq!(interpreter.cost(), 100);
    assert!(!interpreter.awaits_input());
    assert_eq!(interpreter.interpret_single(&mut world), Ok(false));
    assert_eq!(interpreter.cost(), 100);
    world.push_input(memval(1));
    assert!(world.has_input());
    world.log(String::from("done"));
    assert_eq!(world.logs(), &[String::from("done")]);
}

#[test]
fn the_instruction_pointer_follows_the_jumps() {
    let program = vec![
        Instruction::Sub(0),
        Instruction::Jzero(3),
        Instruction::Inc,
        Instruction::Halt,
    ];
    let mut world = MemoryWorld::new(vec![]);
    let mut interpreter = Interpreter::new(program);
    assert_eq!(interpreter.instruction_pointer(), 0);
    assert_eq!(interpreter.interpret_single(&mut world), Ok(true));
    assert_eq!(interpreter.instruction_pointer(), 1);
    assert_eq!(interpreter.interpret_single(&mut world), Ok(true));
    assert_eq!(interpreter.instruction_pointer(), 3);
    assert_eq!(interpreter.interpret_single(&mut world), Ok(false));
    assert_eq!(interpreter.cost(), 11);
}
