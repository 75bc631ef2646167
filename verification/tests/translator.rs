use gembiler::assembly::{create_program, parse_listing, Error as ListingError};
use gembiler::instruction::Instruction::{
    Add, Dec, Get, Halt, Inc, Jneg, Jpos, Jump, Jzero, Load, Loadi, Put, Shift, Store, Storei, Sub,
};
use gembiler::instruction::{Instruction, InstructionListPrinter};
use gembiler::intermediate::context::Context;
use gembiler::intermediate::generator::generate;
use gembiler::intermediate::variable::{UniqueVariable, Variable, VariableIndex};
use gembiler::interpreter::run::run_from;
use gembiler::parser::parse_ast;
use gembiler::translator::instruction_manager::{InstructionManager, JumpKind, SENTINEL};
use gembiler::translator::memory::{Memory, MemoryLocation, MemoryRange, Slot};
use gembiler::translator::{comes_before, insert_sorted, Generator};
use gembiler::intermediate::Label;
use gembiler::value::memval;

fn translate(text: &str) -> Vec<Instruction> {
    let program = parse_ast(text).unwrap();
    let context = generate(&program).unwrap();
    let generator = Generator::new(context);
    assert!(generator.fits());
    generator.translate()
}

fn unit(index: usize, name: &str) -> UniqueVariable {
    UniqueVariable::new(VariableIndex::new(index), Variable::Unit { name: String::from(name) })
}

fn array(index: usize, name: &str, start: i64, end: i64) -> UniqueVariable {
    UniqueVariable::new(
        VariableIndex::new(index),
        Variable::Array { name: String::from(name), start, end },
    )
}

#[test]
fn layout_puts_arrays_first() {
    // p0, a, t(-2:2), b, u(10:11)
    let variables =
        vec![unit(0, "p0"), unit(1, "a"), array(2, "t", -2, 2), unit(3, "b"), array(4, "u", 10, 11)];
    assert!(Memory::fits(&variables, 0));
    let mut memory = Memory::new();
    memory.allocate(&variables);
    let slot = |index: usize| memory.slot(VariableIndex::new(index));
    // the accumulator's mirror
    assert_eq!(slot(0), Slot { location: MemoryLocation(0), value: None });
    // t takes the cells 1..=5 and u the cells 6..=7; their bases are 1 - (-2) and 6 - 10
    assert_eq!(slot(2), Slot { location: MemoryLocation(8), value: Some(3) });
    assert_eq!(slot(4), Slot { location: MemoryLocation(9), value: Some(-4) });
    // the scalars follow
    assert_eq!(slot(1), Slot { location: MemoryLocation(10), value: None });
    assert_eq!(slot(3), Slot { location: MemoryLocation(11), value: None });
    assert_eq!(memory.get_location(VariableIndex::new(3)), MemoryLocation(11));
    // the next scalar gets the next cell
    assert_eq!(memory.add_variable(VariableIndex::new(5), None), MemoryLocation(12));
    memory.set_value(VariableIndex::new(5), 17);
    assert_eq!(slot_of(&memory, 5), Slot { location: MemoryLocation(12), value: Some(17) });
    assert_eq!(MemoryRange::new(1, 7), MemoryRange(MemoryLocation(1), MemoryLocation(7)));
}

fn slot_of(memory: &Memory, index: usize) -> Slot {
    memory.slot(VariableIndex::new(index))
}

#[test]
fn layout_that_does_not_fit() {
    let variables = vec![unit(0, "p0"), array(1, "t", i64::MIN, i64::MAX)];
    assert!(!Memory::fits(&variables, 0));
    let variables = vec![unit(0, "p0"), array(1, "t", 0, i64::MAX - 3)];
    assert!(Memory::fits(&variables, 0));
    assert!(!Memory::fits(&variables, 1));
    // the base 1 - i64::MIN is no i64
    let variables = vec![unit(0, "p0"), array(1, "t", i64::MIN, i64::MIN + 1)];
    assert!(!Memory::fits(&variables, 0));
}

#[test]
fn constants_are_generated_nearest_to_zero_first() {
    assert!(comes_before(0, -1));
    assert!(comes_before(-1, 1));
    assert!(comes_before(1, -2));
    assert!(!comes_before(1, 1));
    assert!(!comes_before(2, -2));
    assert!(comes_before(i64::MAX, i64::MIN));
    let mut cells = vec![];
    for (place, value) in [(1, 5), (2, -5), (3, 0), (4, 5), (5, -1)] {
        insert_sorted(&mut cells, (MemoryLocation(place), value));
    }
    let order: Vec<u64> = cells.iter().map(|cell| cell.0 .0).collect();
    assert_eq!(order, vec![3, 5, 2, 1, 4]);
}

#[test]
fn translation_of_a_small_program() {
    // variables: p0 tmp$op tmp$1 tmp$2 a const(3) const(0) const(1) const(-1) const(2) const(-2)
    // cells:     0  1      2     3     4 5       6        7        8         9        10
    let program = translate("DECLARE a BEGIN a ASSIGN 3; WRITE a; END");
    assert_eq!(
        program,
        vec![
            Sub(0),
            // 0
            Store(6),
            // -1
            Dec,
            Store(8),
            Inc,
            // 1
            Inc,
            Store(7),
            Dec,
            // -2
            Dec,
            Dec,
            Store(10),
            Inc,
            Inc,
            // 2
            Inc,
            Inc,
            Store(9),
            Dec,
            Dec,
            // 3
            Inc,
            Inc,
            Inc,
            Store(5),
            Dec,
            Dec,
            Dec,
            // a := 3
            Load(5),
            Store(4),
            // WRITE a
            Load(4),
            Put,
            Halt,
        ]
    );
}

#[test]
fn large_constants_are_built_from_their_bits() {
    // 10 = 0b1010, built as ((1 * 2) * 2 + 1) * 2
    let program = translate("BEGIN WRITE -10; END");
    let one = 6;
    let ten = 4;
    let expected = [Dec, Shift(one), Shift(one), Dec, Shift(one), Store(ten), Sub(0)];
    let at = program.iter().position(|i| *i == Store(ten)).unwrap();
    assert_eq!(program[at - 5..at + 2], expected);
    let (_, output) = run_from(program, vec![], false, memval(77)).unwrap();
    assert_eq!(output, vec![memval(-10)]);
}

#[test]
fn every_jump_has_a_target_in_the_program() {
    let text = "DECLARE a, b, t(0:9) BEGIN READ a; b ASSIGN a TIMES a; \
                WHILE b GE 0 DO t(b) ASSIGN b MOD 7; b ASSIGN b DIV 3; ENDWHILE \
                FOR i FROM 0 TO 9 DO IF t(i) NEQ 0 THEN WRITE i; ELSE WRITE 0; ENDIF ENDFOR \
                DO a ASSIGN a MINUS 1; WHILE a GEQ 1 ENDDO END";
    let program = translate(text);
    for instruction in &program {
        if let Some(target) = match instruction {
            Instruction::Jump(t) | Instruction::Jpos(t) | Instruction::Jzero(t) | Instruction::Jneg(t) => Some(*t),
            _ => None,
        } {
            assert_ne!(target, SENTINEL);
            assert!((target as usize) < program.len());
        }
    }
}

#[test]
fn forward_and_backward_jumps() {
    let mut manager = InstructionManager::new(2);
    let first = Label { id: 0 };
    let second = Label { id: 1 };
    manager.translate_jump(&second, JumpKind::Jzero);
    manager.translate_label(&first);
    manager.instr_Inc();
    manager.translate_jump(&second, JumpKind::Jpos);
    manager.translate_jump(&first, JumpKind::Jump);
    assert_eq!(manager.position(), 4);
    manager.instr_Get();
    manager.instr_Put();
    manager.instr_Load(MemoryLocation(1));
    manager.instr_Loadi(MemoryLocation(2));
    manager.instr_Store(MemoryLocation(3));
    manager.instr_Storei(MemoryLocation(4));
    manager.instr_Add(MemoryLocation(5));
    manager.instr_Sub(MemoryLocation(6));
    manager.instr_Shift(MemoryLocation(7));
    manager.instr_Dec();
    manager.translate_label(&second);
    manager.add_label();
    manager.translate_jump(&Label { id: 2 }, JumpKind::Jneg);
    manager.instr_Halt();
    assert_eq!(
        manager.into_instructions(),
        vec![
            Jzero(14),
            Inc,
            Jpos(14),
            Jump(1),
            Get,
            Put,
            Load(1),
            Loadi(2),
            Store(3),
            Storei(4),
            Add(5),
            Sub(6),
            Shift(7),
            Dec,
            Jneg(SENTINEL),
            Halt,
        ]
    );
}

#[test]
fn small_literal_operands_become_steps() {
    let code = |text: &str| {
        let program = translate(text);
        // what follows the constants: behind the last `Dec` of the code for the literals
        let start = program.iter().rposition(|i| *i == Dec || *i == Sub(0)).unwrap() + 1;
        program[start..].to_vec()
    };
    // variables: a at cell 4
    assert_eq!(code("DECLARE a BEGIN a ASSIGN a PLUS 2; END"), vec![Load(4), Inc, Inc, Store(4), Halt]);
    assert_eq!(code("DECLARE a BEGIN a ASSIGN 2 PLUS a; END"), vec![Load(4), Inc, Inc, Store(4), Halt]);
    assert_eq!(code("DECLARE a BEGIN a ASSIGN a MINUS 0; END"), vec![Load(4), Store(4), Halt]);
    assert_eq!(code("DECLARE a BEGIN a ASSIGN a TIMES 1; END"), vec![Load(4), Store(4), Halt]);
    assert_eq!(code("DECLARE a BEGIN a ASSIGN a DIV 1; END"), vec![Load(4), Store(4), Halt]);
}

#[test]
fn arithmetic_matches_the_machine() {
    let text = "DECLARE a, b, c BEGIN READ a; READ b; \
                c ASSIGN a PLUS b; WRITE c; c ASSIGN a MINUS b; WRITE c; \
                c ASSIGN a TIMES b; WRITE c; c ASSIGN a DIV b; WRITE c; \
                c ASSIGN a MOD b; WRITE c; END";
    let program = translate(text);
    let floor_div = |a: i64, b: i64| if b == 0 { 0 } else { a.div_euclid(b) - if b < 0 && a.rem_euclid(b) != 0 { 1 } else { 0 } };
    for a in [-33i64, -7, -1, 0, 1, 7, 33, 1 << 40] {
        for b in [-33i64, -7, -2, -1, 0, 1, 2, 7, 33] {
            let quotient = floor_div(a, b);
            let remainder = if b == 0 { 0 } else { a - b * quotient };
            let (_, output) =
                run_from(program.clone(), vec![memval(a), memval(b)], false, memval(5)).unwrap();
            let expected: Vec<_> =
                [a + b, a - b, a * b, quotient, remainder].iter().map(|v| memval(*v)).collect();
            assert_eq!(output, expected, "a = {}, b = {}", a, b);
        }
    }
}

#[test]
fn listing_round_trip() {
    let program = vec![
        Get, Put, Load(0), Loadi(1), Store(22), Storei(333), Add(4444), Sub(u64::MAX),
        Shift(9), Inc, Dec, Jump(10), Jpos(11), Jzero(12), Jneg(13), Halt,
    ];
    let listing = InstructionListPrinter(&program).to_bytes();
    let text = String::from_utf8(listing.clone()).unwrap();
    assert!(text.starts_with("GET\nPUT\nLOAD 0\nLOADI 1\nSTORE 22\nSTOREI 333\nADD 4444\n"));
    assert!(text.ends_with("JNEG 13\nHALT\n"));
    assert_eq!(parse_listing(&listing), Ok(program.clone()));
    assert_eq!(create_program(&text), Ok(program));
}

#[test]
fn listings_with_blanks_and_empty_lines() {
    let text = "  GET \r\n\n\tLOAD   7\t\nHALT";
    assert_eq!(
        create_program(text),
        Ok(vec![Instruction::Get, Instruction::Load(7), Instruction::Halt])
    );
    assert_eq!(create_program(""), Ok(vec![]));
}

#[test]
fn texts_that_are_no_listings() {
    let invalid = |position: usize| Err(ListingError::InvalidLine { position });
    assert_eq!(create_program("GET\nLOAD\n"), invalid(4));
    assert_eq!(create_program("GET 1\n"), invalid(0));
    assert_eq!(create_program("load 1\n"), invalid(0));
    assert_eq!(create_program("LOAD1\n"), invalid(0));
    assert_eq!(create_program("LOAD 1 2\n"), invalid(0));
    assert_eq!(create_program("LOAD -1\n"), invalid(0));
    assert_eq!(create_program("LOAD 18446744073709551616\n"), invalid(0));
    assert_eq!(create_program("HALT\nMUL 3\n"), invalid(5));
    assert_eq!(
        create_program("LOAD 18446744073709551615\n"),
        Ok(vec![Instruction::Load(u64::MAX)])
    );
}

#[test]
fn context_of_a_generator_is_kept() {
    let context = Context::new();
    let generator = Generator::new(context);
    assert!(generator.fits());
    let program = generator.translate();
    assert_eq!(program.last(), Some(&Instruction::Halt));
}

#[test]
fn literal_operands_take_the_short_code() {
    let text = "DECLARE a, c BEGIN READ a; \
                c ASSIGN a TIMES 0; WRITE c; c ASSIGN a TIMES -1; WRITE c; \
                c ASSIGN a TIMES 2; WRITE c; c ASSIGN -2 TIMES a; WRITE c; \
                c ASSIGN a DIV 0; WRITE c; c ASSIGN a MOD 0; WRITE c; \
                c ASSIGN a DIV 1; WRITE c; c ASSIGN a DIV -1; WRITE c; \
                c ASSIGN a DIV 2; WRITE c; c ASSIGN a DIV -2; WRITE c; \
                c ASSIGN a MOD 1; WRITE c; c ASSIGN a MOD -1; WRITE c; \
                c ASSIGN 0 DIV a; WRITE c; c ASSIGN 0 MOD a; WRITE c; \
                c ASSIGN 0 MINUS a; WRITE c; c ASSIGN a MINUS -3; WRITE c; END";
    let program = translate(text);
    assert!(!program.iter().any(|i| matches!(i, Jump(_) | Jpos(_) | Jzero(_) | Jneg(_))));
    let floor_div = |a: i64, b: i64| a.div_euclid(b) - if b < 0 && a.rem_euclid(b) != 0 { 1 } else { 0 };
    for a in [-9i64, -4, -3, -1, 0, 1, 3, 4, 9] {
        let (_, output) = run_from(program.clone(), vec![memval(a)], false, memval(5)).unwrap();
        let expected: Vec<_> = [
            0,
            -a,
            2 * a,
            -2 * a,
            0,
            0,
            a,
            -a,
            floor_div(a, 2),
            floor_div(a, -2),
            0,
            0,
            0,
            0,
            -a,
            a + 3,
        ]
        .iter()
        .map(|v| memval(*v))
        .collect();
        assert_eq!(output, expected, "a = {}", a);
    }
}

#[test]
fn the_quotient_by_minus_two_is_floored() {
    let program = translate("DECLARE a, c BEGIN READ a; c ASSIGN a DIV -2; WRITE c; END");
    for (a, expected) in [(6i64, -3i64), (-6, 3), (3, -2), (-3, 1), (1, -1), (-1, 0), (0, 0)] {
        let (_, output) = run_from(program.clone(), vec![memval(a)], false, memval(5)).unwrap();
        assert_eq!(output, vec![memval(expected)], "a = {}", a);
    }
    // the dividend is negated before it is shifted
    let tail = program[program.len() - 9..].to_vec();
    assert_eq!(tail[0], Load(4));
    assert!(matches!(tail[1], Store(_)));
    assert!(matches!((tail[2], tail[3]), (Sub(_), Sub(_))));
    assert!(matches!(tail[4], Shift(_)));
}

#[test]
fn the_remainder_by_one_is_zero() {
    let program = translate(
        "DECLARE a, c BEGIN READ a; c ASSIGN a MOD 1; WRITE c; c ASSIGN a MOD -1; WRITE c; END",
    );
    for a in [-5i64, -1, 0, 1, 5] {
        let (_, output) = run_from(program.clone(), vec![memval(a)], false, memval(5)).unwrap();
        assert_eq!(output, vec![memval(0), memval(0)], "a = {}", a);
    }
}

#[test]
fn product_code_stands_in_the_program() {
    // cells: a 4, b 5, c 6, the literals 0, 1, -1, 2, -2 at 7 to 11,
    // then the cells of the product: left 12, right 13, result 14, neg 15
    let program =
        translate("DECLARE a, b, c BEGIN READ a; READ b; c ASSIGN a TIMES b; WRITE c; END");
    let p = 22u64;
    assert_eq!(program[18..22].to_vec(), vec![Get, Store(4), Get, Store(5)]);
    let expected = vec![
        Load(4),
        Store(12),
        Load(5),
        Store(13),
        Jzero(p + 35),
        Jpos(p + 15),
        Store(15),
        Sub(15),
        Sub(15),
        Store(13),
        Load(12),
        Sub(12),
        Sub(12),
        Store(12),
        Load(13),
        Sub(0),
        Store(14),
        Load(13),
        Store(2),
        Shift(9),
        Shift(8),
        Sub(2),
        Jzero(p + 26),
        Load(12),
        Add(14),
        Store(14),
        Load(13),
        Shift(9),
        Jzero(p + 34),
        Store(13),
        Load(12),
        Shift(8),
        Store(12),
        Jump(p + 17),
        Load(14),
    ];
    assert_eq!(program[22..57].to_vec(), expected);
    assert_eq!(program[57..].to_vec(), vec![Store(6), Load(6), Put, Halt]);
}

#[test]
fn sum_and_difference_go_through_a_cell() {
    let program = translate(
        "DECLARE a, b, c BEGIN READ a; READ b; c ASSIGN a PLUS b; c ASSIGN a MINUS b; \
         c ASSIGN 0 MINUS b; END",
    );
    assert_eq!(
        program[22..].to_vec(),
        vec![
            Load(5),
            Store(12),
            Load(4),
            Add(12),
            Store(6),
            Load(5),
            Store(12),
            Load(4),
            Sub(12),
            Store(6),
            Load(5),
            Store(13),
            Sub(13),
            Sub(13),
            Store(6),
            Halt,
        ]
    );
}

#[test]
fn the_parts_of_the_memory_in_use() {
    let mut memory = Memory::new();
    assert_eq!(memory.segments().arrays, None);
    assert_eq!(memory.segments().variables, None);
    let variables =
        vec![unit(0, "p0"), unit(1, "a"), array(2, "t", -2, 2), unit(3, "b"), array(4, "u", 10, 11)];
    memory.allocate(&variables);
    assert_eq!(memory.segments().arrays, Some(MemoryRange::new(1, 7)));
    assert_eq!(memory.segments().variables, Some(MemoryRange::new(8, 11)));
    memory.add_variable(VariableIndex::new(5), None);
    assert_eq!(memory.segments().arrays, Some(MemoryRange::new(1, 7)));
    assert_eq!(memory.segments().variables, Some(MemoryRange::new(8, 12)));
    let mut scalars = Memory::new();
    scalars.allocate(&[unit(0, "p0")]);
    assert_eq!(scalars.segments().arrays, None);
    assert_eq!(scalars.segments().variables, None);
    scalars.add_variable(VariableIndex::new(1), Some(3));
    assert_eq!(scalars.segments().variables, Some(MemoryRange::new(1, 1)));
}

#[test]
fn arithmetic_on_elements_of_arrays() {
    let text = "DECLARE t(-2:5), i, j, c BEGIN \
                READ i; READ t(i); READ j; READ t(j); \
                c ASSIGN t(i) PLUS t(j); WRITE c; c ASSIGN t(i) MINUS t(j); WRITE c; \
                c ASSIGN t(i) TIMES t(j); WRITE c; c ASSIGN t(i) DIV t(j); WRITE c; \
                c ASSIGN t(i) MOD t(j); WRITE c; \
                c ASSIGN t(i) PLUS 3; WRITE c; c ASSIGN t(i) TIMES -2; WRITE c; \
                c ASSIGN t(i) DIV -2; WRITE c; c ASSIGN t(i) MOD 1; WRITE c; \
                t(-2) ASSIGN t(i); c ASSIGN t(-2) TIMES t(j); WRITE c; \
                c ASSIGN t(-2) DIV t(j); WRITE c; END";
    let program = translate(text);
    let floor_div = |a: i64, b: i64| if b == 0 { 0 } else { a.div_euclid(b) - if b < 0 && a.rem_euclid(b) != 0 { 1 } else { 0 } };
    for (i, j) in [(0i64, 5i64), (5, 1), (-1, 3)] {
        for a in [-33i64, -7, 0, 7, 33] {
            for b in [-7i64, -2, 0, 1, 7] {
                let input = vec![memval(i), memval(a), memval(j), memval(b)];
                let (_, output) = run_from(program.clone(), input, false, memval(5)).unwrap();
                let quotient = floor_div(a, b);
                let remainder = if b == 0 { 0 } else { a - b * quotient };
                let expected: Vec<_> = [
                    a + b,
                    a - b,
                    a * b,
                    quotient,
                    remainder,
                    a + 3,
                    -2 * a,
                    floor_div(a, -2),
                    0,
                    a * b,
                    quotient,
                ]
                .iter()
                .map(|v| memval(*v))
                .collect();
                assert_eq!(output, expected, "i = {}, j = {}, a = {}, b = {}", i, j, a, b);
            }
        }
    }
}
