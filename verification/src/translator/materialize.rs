//! What the code that sets the literals does when the machine runs it.
//!
//! The code at the start of every target program is a straight line of
//! increments, decrements, shifts and stores. This module says what a
//! straight line of instructions does to the machine, and proves that the
//! line for the literals leaves every literal in its cell and 0 in the
//! accumulator.

use crate::instruction::Instruction;
use crate::interpreter::{is_address, Machine, Status};
use crate::translator::memory::MemoryLocation;
use crate::intermediate::context::Model;
use crate::intermediate::variable::VariableIndex;
use crate::intermediate::{lemma_lookup_constant, Constant};
use crate::translator::memory::{base_of, cell_of, layout, layout_fits, layout_input};
use crate::translator::memory::{lemma_counts_total, slot_of};
use crate::translator::memory::{lemma_layout_distinct, Slot};
use crate::translator::state::{inserted, precedes, prepared, sorted, state_of, valued};
use crate::translator::state::{lemma_with_constants, with_constants};
use crate::translator::state::{repeat, State};
use vstd::arithmetic::power2::lemma2_to64;
use vstd::prelude::*;

verus! {

/// An instruction that neither jumps nor halts nor reads or writes the
/// world, and is in the basic instruction set.
pub open spec fn is_plain(instruction: Instruction) -> bool {
    match instruction {
        Instruction::Load(_)
        | Instruction::Loadi(_)
        | Instruction::Store(_)
        | Instruction::Storei(_)
        | Instruction::Add(_)
        | Instruction::Sub(_)
        | Instruction::Shift(_)
        | Instruction::Inc
        | Instruction::Dec => true,
        _ => false,
    }
}

/// Every instruction of the block is plain.
pub open spec fn all_plain(block: Seq<Instruction>) -> bool {
    forall|k: int| 0 <= k < block.len() ==> is_plain(#[trigger] block[k])
}

/// The machine after the instructions of a block, one after the other, each
/// charged and taking effect; none where one of them fails.
pub open spec fn flow(machine: Machine, block: Seq<Instruction>) -> Option<Machine>
    decreases block.len(),
{
    if block.len() == 0 {
        Some(machine)
    } else {
        match flow(machine, block.drop_last()) {
            Some(before) => match before.charge(block.last()).effect(block.last()) {
                Ok(after) => Some(after),
                Err(_) => None,
            },
            None => None,
        }
    }
}

/// A block, instruction by instruction: the flow of two blocks one after
/// the other is the flow of the second from where the first ends.
pub proof fn lemma_flow_concat(machine: Machine, first: Seq<Instruction>, second: Seq<Instruction>)
    ensures
        flow(machine, first + second) == match flow(machine, first) {
            Some(middle) => flow(middle, second),
            None => None,
        },
    decreases second.len(),
{
    if second.len() == 0 {
        assert(first + second =~= first);
    } else {
        lemma_flow_concat(machine, first, second.drop_last());
        assert((first + second).drop_last() =~= first + second.drop_last());
        assert((first + second).last() == second.last());
    }
}

/// What a plain instruction that succeeds leaves of the machine: one
/// instruction further, its cost charged, input and output untouched, the
/// accumulator still initialized.
pub proof fn lemma_plain_effect(machine: Machine, instruction: Instruction)
    requires
        machine.wf(),
        is_plain(instruction),
    ensures
        machine.charge(instruction).effect(instruction) matches Ok(after) ==> {
            &&& after.wf()
            &&& after.ip == machine.ip + 1
            &&& after.cost == machine.cost + instruction.spec_cost()
            &&& after.cost <= machine.cost + 20
            &&& after.input == machine.input
            &&& after.output == machine.output
        },
{
}

/// What a plain block that succeeds leaves of the machine.
pub proof fn lemma_flow_shape(machine: Machine, block: Seq<Instruction>)
    requires
        machine.wf(),
        all_plain(block),
    ensures
        flow(machine, block) matches Some(after) ==> {
            &&& after.wf()
            &&& after.ip == machine.ip + block.len()
            &&& machine.cost <= after.cost <= machine.cost + 20 * block.len()
            &&& after.input == machine.input
            &&& after.output == machine.output
        },
    decreases block.len(),
{
    if block.len() > 0 {
        lemma_flow_shape(machine, block.drop_last());
        match flow(machine, block.drop_last()) {
            Some(before) => {
                assert(is_plain(block[block.len() - 1]));
                lemma_plain_effect(before, block.last());
            },
            None => {},
        }
    }
}

/// A plain block in a program is run step by step as it flows: where the
/// machine stands at the start of the block, the block succeeds, and the
/// cost still fits, as many steps as the block has instructions lead to the
/// machine behind the block.
pub proof fn lemma_flow_steps(
    machine: Machine,
    program: Seq<Instruction>,
    extended: bool,
    block: Seq<Instruction>,
)
    requires
        machine.wf(),
        all_plain(block),
        machine.ip + block.len() <= program.len(),
        program.subrange(machine.ip as int, (machine.ip + block.len()) as int) == block,
        machine.cost + 20 * block.len() <= u64::MAX,
        flow(machine, block) is Some,
    ensures
        machine.steps(program, extended, block.len()) == (
            flow(machine, block).unwrap(),
            Status::Running,
        ),
    decreases block.len(),
{
    if block.len() > 0 {
        let front = block.drop_last();
        let n = block.len();
        assert(program.subrange(machine.ip as int, (machine.ip + front.len()) as int) =~= front);
        assert forall|k: int| 0 <= k < front.len() implies is_plain(#[trigger] front[k]) by {
            assert(front[k] == block[k]);
        }
        lemma_flow_steps(machine, program, extended, front);
        lemma_flow_shape(machine, front);
        let before = flow(machine, front).unwrap();
        assert(program[before.ip as int] == block[n - 1]);
        assert(is_plain(block[n - 1]));
        lemma_plain_effect(before, block.last());
    }
}

/// A run of increments adds their number to the accumulator, a run of
/// decrements subtracts it.
pub proof fn lemma_repeat_flow(machine: Machine, up: bool, count: nat)
    requires
        machine.wf(),
    ensures
        ({
            let instruction = if up {
                Instruction::Inc
            } else {
                Instruction::Dec
            };
            let change = if up {
                count as int
            } else {
                -(count as int)
            };
            flow(machine, repeat(instruction, count)) matches Some(after) && after.memory
                == machine.memory.insert(0, machine.acc() + change)
        }),
    decreases count,
{
    let instruction = if up {
        Instruction::Inc
    } else {
        Instruction::Dec
    };
    if count == 0 {
        assert(machine.memory.insert(0, machine.acc()) =~= machine.memory);
    } else {
        lemma_repeat_flow(machine, up, (count - 1) as nat);
        assert(repeat(instruction, count).drop_last() =~= repeat(instruction, (count - 1) as nat));
        let before = flow(machine, repeat(instruction, (count - 1) as nat)).unwrap();
        assert(all_plain(repeat(instruction, (count - 1) as nat)));
        lemma_flow_shape(machine, repeat(instruction, (count - 1) as nat));
        let change = if up {
            count as int
        } else {
            -(count as int)
        };
        let after = flow(machine, repeat(instruction, count)).unwrap();
        assert(after.memory =~= machine.memory.insert(0, machine.acc() + change));
    }
}

/// The instruction that moves the accumulator away from 0 towards a value
/// of the given sign.
pub open spec fn grow(up: bool) -> Instruction {
    if up {
        Instruction::Inc
    } else {
        Instruction::Dec
    }
}

/// The code of [`State::bits`].
pub open spec fn bits_code(magnitude: nat, up: bool, one: MemoryLocation) -> Seq<Instruction>
    decreases magnitude,
{
    if magnitude <= 1 {
        seq![grow(up)]
    } else {
        let code = bits_code(magnitude / 2, up, one).push(Instruction::Shift(one.0));
        if magnitude % 2 == 1 {
            code.push(grow(up))
        } else {
            code
        }
    }
}

/// The distance of a value from 0.
pub open spec fn magnitude_of(value: i64) -> nat {
    if value < 0 {
        (-value) as nat
    } else {
        value as nat
    }
}

/// The code of [`State::constant`].
pub open spec fn constant_code(value: i64, location: MemoryLocation, one: MemoryLocation) -> Seq<
    Instruction,
> {
    let magnitude = magnitude_of(value);
    if magnitude < 10 {
        repeat(grow(value > 0), magnitude).push(Instruction::Store(location.0)) + repeat(
            grow(!(value > 0)),
            magnitude,
        )
    } else {
        bits_code(magnitude, value > 0, one).push(Instruction::Store(location.0)).push(
            Instruction::Sub(0),
        )
    }
}

/// The code of [`State::constant_list`].
pub open spec fn constants_code(cells: Seq<(MemoryLocation, i64)>, one: MemoryLocation) -> Seq<
    Instruction,
>
    decreases cells.len(),
{
    if cells.len() == 0 {
        Seq::empty()
    } else {
        constants_code(cells.drop_last(), one) + constant_code(cells.last().1, cells.last().0, one)
    }
}

impl State {
    /// The state with more code at the end.
    pub open spec fn with_more(self, code: Seq<Instruction>) -> State {
        State {
            emission: crate::translator::instruction_manager::Emission {
                code: self.emission.code + code,
                ..self.emission
            },
            ..self
        }
    }

    pub proof fn lemma_with_more_twice(self, first: Seq<Instruction>, second: Seq<Instruction>)
        ensures
            self.with_more(first).with_more(second) == self.with_more(first + second),
    {
        assert((self.emission.code + first) + second =~= self.emission.code + (first + second));
    }

    pub proof fn lemma_push_code(self, instruction: Instruction)
        ensures
            self.push(instruction) == self.with_more(seq![instruction]),
    {
        assert(self.emission.code.push(instruction) =~= self.emission.code + seq![instruction]);
    }

    pub proof fn lemma_push_times_code(self, instruction: Instruction, count: nat)
        ensures
            self.push_times(instruction, count) == self.with_more(repeat(instruction, count)),
        decreases count,
    {
        if count == 0 {
            assert(self.emission.code + repeat(instruction, 0) =~= self.emission.code);
        } else {
            self.lemma_push_times_code(instruction, (count - 1) as nat);
            assert(self.emission.code + repeat(instruction, count) =~= (self.emission.code + repeat(
                instruction,
                (count - 1) as nat,
            )).push(instruction));
        }
    }

    pub proof fn lemma_bits_code(self, magnitude: nat, up: bool, one: MemoryLocation)
        ensures
            self.bits(magnitude, grow(up), one) == self.with_more(bits_code(magnitude, up, one)),
        decreases magnitude,
    {
        if magnitude <= 1 {
            self.lemma_push_code(grow(up));
        } else {
            self.lemma_bits_code(magnitude / 2, up, one);
            let half = bits_code(magnitude / 2, up, one);
            let shifted = half.push(Instruction::Shift(one.0));
            assert(self.emission.code + shifted =~= (self.emission.code + half).push(
                Instruction::Shift(one.0),
            ));
            assert(self.emission.code + shifted.push(grow(up)) =~= (self.emission.code
                + shifted).push(grow(up)));
        }
    }

    pub proof fn lemma_constant_code(self, value: i64, location: MemoryLocation)
        ensures
            self.constant(value, location) == self.with_more(
                constant_code(value, location, self.constant_location(1)),
            ),
    {
        let magnitude = magnitude_of(value);
        let one = self.constant_location(1);
        let up = value > 0;
        let code = self.emission.code;
        if magnitude < 10 {
            self.lemma_push_times_code(grow(up), magnitude);
            let stored = self.push_times(grow(up), magnitude).push(Instruction::Store(location.0));
            stored.lemma_push_times_code(grow(!up), magnitude);
            assert((code + repeat(grow(up), magnitude)).push(Instruction::Store(location.0))
                + repeat(grow(!up), magnitude) =~= code + constant_code(value, location, one));
        } else {
            self.lemma_bits_code(magnitude, up, one);
            assert((code + bits_code(magnitude, up, one)).push(
                Instruction::Store(location.0),
            ).push(Instruction::Sub(0)) =~= code + constant_code(value, location, one));
        }
    }

    pub proof fn lemma_constant_list_code(self, cells: Seq<(MemoryLocation, i64)>)
        ensures
            self.constant_list(cells) == self.with_more(
                constants_code(cells, self.constant_location(1)),
            ),
        decreases cells.len(),
    {
        let one = self.constant_location(1);
        if cells.len() == 0 {
            assert(self.emission.code + constants_code(cells, one) =~= self.emission.code);
        } else {
            self.lemma_constant_list_code(cells.drop_last());
            let before = self.constant_list(cells.drop_last());
            before.lemma_constant_code(cells.last().1, cells.last().0);
            self.lemma_with_more_twice(
                constants_code(cells.drop_last(), one),
                constant_code(cells.last().1, cells.last().0, one),
            );
        }
    }
}

/// The bits of a magnitude, built up in the accumulator from 0.
pub proof fn lemma_bits_flow(machine: Machine, magnitude: nat, up: bool, one: MemoryLocation)
    requires
        machine.wf(),
        machine.acc() == 0,
        magnitude >= 1,
        one.0 != 0,
        is_address(one.0 as int),
        machine.memory.contains_key(one.0 as int),
        machine.memory[one.0 as int] == 1,
    ensures
        flow(machine, bits_code(magnitude, up, one)) matches Some(after) && after.memory
            == machine.memory.insert(
            0,
            if up {
                magnitude as int
            } else {
                -(magnitude as int)
            },
        ),
    decreases magnitude,
{
    if magnitude <= 1 {
        let code = bits_code(magnitude, up, one);
        assert(code.drop_last() =~= Seq::<Instruction>::empty());
        assert(flow(machine, code.drop_last()) == Some(machine));
        assert(code.last() == grow(up));
        let after = flow(machine, code).unwrap();
        assert(after.memory =~= machine.memory.insert(
            0,
            if up {
                1int
            } else {
                -1int
            },
        ));
    } else {
        let half = bits_code(magnitude / 2, up, one);
        lemma_bits_flow(machine, magnitude / 2, up, one);
        lemma_bits_shape(magnitude / 2, up, one);
        lemma_flow_shape(machine, half);
        let halfway = flow(machine, half).unwrap();
        let shifted = half.push(Instruction::Shift(one.0));
        assert(shifted.drop_last() =~= half);
        lemma2_to64();
        let doubled = flow(machine, shifted).unwrap();
        let signed_half = if up {
            (magnitude / 2) as int
        } else {
            -((magnitude / 2) as int)
        };
        assert(halfway.memory[one.0 as int] == 1);
        assert(doubled.memory =~= machine.memory.insert(0, signed_half * 2));
        if magnitude % 2 == 1 {
            let code = shifted.push(grow(up));
            assert(code.drop_last() =~= shifted);
            let after = flow(machine, code).unwrap();
            assert(after.memory =~= machine.memory.insert(
                0,
                if up {
                    magnitude as int
                } else {
                    -(magnitude as int)
                },
            ));
        }
    }
}

/// The code for the bits is a plain block.
pub proof fn lemma_bits_shape(magnitude: nat, up: bool, one: MemoryLocation)
    ensures
        all_plain(bits_code(magnitude, up, one)),
    decreases magnitude,
{
    if magnitude > 1 {
        lemma_bits_shape(magnitude / 2, up, one);
    }
}

/// The code for a cell is a plain block.
pub proof fn lemma_constant_shape(value: i64, location: MemoryLocation, one: MemoryLocation)
    ensures
        all_plain(constant_code(value, location, one)),
{
    lemma_bits_shape(magnitude_of(value), value > 0, one);
}

/// The code for a list of cells is a plain block.
pub proof fn lemma_constants_shape(cells: Seq<(MemoryLocation, i64)>, one: MemoryLocation)
    ensures
        all_plain(constants_code(cells, one)),
    decreases cells.len(),
{
    if cells.len() > 0 {
        lemma_constants_shape(cells.drop_last(), one);
        lemma_constant_shape(cells.last().1, cells.last().0, one);
    }
}

/// The code for one cell leaves the value in the cell and 0 in the
/// accumulator, and changes nothing else. A value of two digits or more
/// needs the literal 1 in its cell.
pub proof fn lemma_constant_flow(
    machine: Machine,
    value: i64,
    location: MemoryLocation,
    one: MemoryLocation,
)
    requires
        machine.wf(),
        machine.acc() == 0,
        location.0 != 0,
        is_address(location.0 as int),
        magnitude_of(value) >= 10 ==> {
            &&& one.0 != 0
            &&& is_address(one.0 as int)
            &&& machine.memory.contains_key(one.0 as int)
            &&& machine.memory[one.0 as int] == 1
        },
    ensures
        flow(machine, constant_code(value, location, one)) matches Some(after) && after.memory
            == machine.memory.insert(location.0 as int, value as int),
{
    let magnitude = magnitude_of(value);
    let up = value > 0;
    let store = Instruction::Store(location.0);
    if magnitude < 10 {
        let first = repeat(grow(up), magnitude);
        let second = repeat(grow(!up), magnitude);
        lemma_repeat_flow(machine, up, magnitude);
        assert(all_plain(first));
        lemma_flow_shape(machine, first);
        let grown = flow(machine, first).unwrap();
        assert(first.push(store).drop_last() =~= first);
        let stored = flow(machine, first.push(store)).unwrap();
        assert(stored.memory =~= machine.memory.insert(0, value as int).insert(
            location.0 as int,
            value as int,
        ));
        lemma_flow_concat(machine, first.push(store), second);
        lemma_repeat_flow(stored, !up, magnitude);
        let after = flow(stored, second).unwrap();
        assert(after.memory =~= machine.memory.insert(location.0 as int, value as int));
    } else {
        let bits = bits_code(magnitude, up, one);
        lemma_bits_flow(machine, magnitude, up, one);
        lemma_bits_shape(magnitude, up, one);
        lemma_flow_shape(machine, bits);
        assert(bits.push(store).drop_last() =~= bits);
        let stored = flow(machine, bits.push(store)).unwrap();
        assert(stored.memory =~= machine.memory.insert(0, value as int).insert(
            location.0 as int,
            value as int,
        ));
        assert(bits.push(store).push(Instruction::Sub(0)).drop_last() =~= bits.push(store));
        let after = flow(machine, constant_code(value, location, one)).unwrap();
        assert(after.memory =~= machine.memory.insert(location.0 as int, value as int));
    }
}

/// The cells are apart: each has an address of its own, none of them 0.
pub open spec fn cells_apart(cells: Seq<(MemoryLocation, i64)>) -> bool {
    &&& forall|k: int|
        0 <= k < cells.len() ==> (#[trigger] cells[k]).0.0 != 0 && is_address(cells[k].0.0 as int)
    &&& forall|j: int, k: int|
        0 <= j < k < cells.len() ==> (#[trigger] cells[j]).0 != (#[trigger] cells[k]).0
}

/// In front of every value of two digits or more stands the cell of the
/// literal 1.
pub open spec fn one_comes_first(cells: Seq<(MemoryLocation, i64)>, one: MemoryLocation) -> bool {
    forall|k: int|
        0 <= k < cells.len() && magnitude_of((#[trigger] cells[k]).1) >= 10 ==> exists|j: int|
            0 <= j < k && #[trigger] cells[j] == (one, 1i64)
}

/// The code for a list of cells leaves every value in its cell and 0 in
/// the accumulator.
pub proof fn lemma_constants_flow(
    machine: Machine,
    cells: Seq<(MemoryLocation, i64)>,
    one: MemoryLocation,
)
    requires
        machine.wf(),
        machine.acc() == 0,
        cells_apart(cells),
        one_comes_first(cells, one),
    ensures
        flow(machine, constants_code(cells, one)) matches Some(after) && after.acc() == 0
            && forall|k: int|
            0 <= k < cells.len() ==> after.memory.contains_key((#[trigger] cells[k]).0.0 as int)
                && after.memory[cells[k].0.0 as int] == cells[k].1,
    decreases cells.len(),
{
    if cells.len() > 0 {
        let front = cells.drop_last();
        let last = cells.last();
        assert(cells_apart(front)) by {
            assert forall|k: int| 0 <= k < front.len() implies (#[trigger] front[k]).0.0 != 0
                && is_address(front[k].0.0 as int) by {
                assert(front[k] == cells[k]);
            }
            assert forall|j: int, k: int| 0 <= j < k < front.len() implies (#[trigger] front[j]).0
                != (#[trigger] front[k]).0 by {
                assert(front[j] == cells[j]);
                assert(front[k] == cells[k]);
            }
        }
        assert(one_comes_first(front, one)) by {
            assert forall|k: int|
                0 <= k < front.len() && magnitude_of((#[trigger] front[k]).1)
                    >= 10 implies exists|j: int| 0 <= j < k && #[trigger] front[j] == (one, 1i64) by {
                assert(front[k] == cells[k]);
                let j = choose|j: int| 0 <= j < k && #[trigger] cells[j] == (one, 1i64);
                assert(front[j] == cells[j]);
            }
        }
        lemma_constants_flow(machine, front, one);
        lemma_constants_shape(front, one);
        lemma_flow_shape(machine, constants_code(front, one));
        let before = flow(machine, constants_code(front, one)).unwrap();
        assert(cells[cells.len() - 1] == last);
        if magnitude_of(last.1) >= 10 {
            let j = choose|j: int| 0 <= j < cells.len() - 1 && #[trigger] cells[j] == (one, 1i64);
            assert(front[j] == cells[j]);
            assert(before.memory[front[j].0.0 as int] == front[j].1);
        }
        lemma_constant_flow(before, last.1, last.0, one);
        lemma_flow_concat(machine, constants_code(front, one), constant_code(last.1, last.0, one));
        let after = flow(machine, constants_code(cells, one)).unwrap();
        assert forall|k: int| 0 <= k < cells.len() implies after.memory.contains_key(
            (#[trigger] cells[k]).0.0 as int,
        ) && after.memory[cells[k].0.0 as int] == cells[k].1 by {
            if k < front.len() {
                assert(front[k] == cells[k]);
                assert(cells[k].0 != cells[cells.len() - 1].0);
            }
        }
    }
}

/// No value of a later cell comes before the value of an earlier one.
pub open spec fn ordered(cells: Seq<(MemoryLocation, i64)>) -> bool {
    forall|j: int, k: int|
        0 <= j < k < cells.len() ==> !precedes((#[trigger] cells[k]).1, (#[trigger] cells[j]).1)
}

/// What putting a cell into an ordered list gives: the same cells and the
/// new one, still in order.
pub proof fn lemma_inserted(cells: Seq<(MemoryLocation, i64)>, cell: (MemoryLocation, i64))
    ensures
        inserted(cells, cell).len() == cells.len() + 1,
        inserted(cells, cell).contains(cell),
        forall|x: (MemoryLocation, i64)| #[trigger]
            cells.contains(x) ==> inserted(cells, cell).contains(x),
        forall|x: (MemoryLocation, i64)| #[trigger]
            inserted(cells, cell).contains(x) ==> x == cell || cells.contains(x),
        ordered(cells) ==> ordered(inserted(cells, cell)),
    decreases cells.len(),
{
    let result = inserted(cells, cell);
    if cells.len() == 0 {
        assert(result[0] == cell);
    } else if precedes(cell.1, cells.last().1) {
        let front = cells.drop_last();
        let inner = inserted(front, cell);
        lemma_inserted(front, cell);
        let last = cells.last();
        assert(result[result.len() - 1] == last);
        let at = choose|i: int| 0 <= i < inner.len() && inner[i] == cell;
        assert(result[at] == cell);
        assert forall|x: (MemoryLocation, i64)| cells.contains(x) implies result.contains(x) by {
            let i = choose|i: int| 0 <= i < cells.len() && cells[i] == x;
            if i < front.len() {
                assert(front[i] == x);
                assert(front.contains(x));
                assert(inner.contains(x));
                let j = choose|j: int| 0 <= j < inner.len() && inner[j] == x;
                assert(result[j] == x);
            } else {
                assert(result[result.len() - 1] == x);
            }
        }
        assert forall|x: (MemoryLocation, i64)| result.contains(x) implies x == cell
            || cells.contains(x) by {
            let i = choose|i: int| 0 <= i < result.len() && result[i] == x;
            if i < inner.len() {
                assert(inner[i] == x);
                assert(inner.contains(x));
                if x != cell {
                    let j = choose|j: int| 0 <= j < front.len() && front[j] == x;
                    assert(cells[j] == x);
                }
            } else {
                assert(cells[cells.len() - 1] == x);
            }
        }
        if ordered(cells) {
            assert(ordered(front)) by {
                assert forall|j: int, k: int| 0 <= j < k < front.len() implies !precedes(
                    (#[trigger] front[k]).1,
                    (#[trigger] front[j]).1,
                ) by {
                    assert(front[j] == cells[j]);
                    assert(front[k] == cells[k]);
                }
            }
            assert forall|j: int, k: int| 0 <= j < k < result.len() implies !precedes(
                (#[trigger] result[k]).1,
                (#[trigger] result[j]).1,
            ) by {
                if k < inner.len() {
                    assert(result[j] == inner[j]);
                    assert(result[k] == inner[k]);
                } else {
                    assert(result[j] == inner[j]);
                    assert(inner.contains(inner[j]));
                    if inner[j] != cell {
                        let i = choose|i: int| 0 <= i < front.len() && front[i] == inner[j];
                        assert(cells[i] == inner[j]);
                        assert(!precedes(cells[cells.len() - 1].1, cells[i].1));
                    }
                }
            }
        }
    } else {
        assert(result[result.len() - 1] == cell);
        assert forall|x: (MemoryLocation, i64)| cells.contains(x) implies result.contains(x) by {
            let i = choose|i: int| 0 <= i < cells.len() && cells[i] == x;
            assert(result[i] == x);
        }
        assert forall|x: (MemoryLocation, i64)| result.contains(x) implies x == cell
            || cells.contains(x) by {
            let i = choose|i: int| 0 <= i < result.len() && result[i] == x;
            if i < cells.len() {
                assert(cells[i] == x);
            }
        }
        if ordered(cells) {
            assert forall|j: int, k: int| 0 <= j < k < result.len() implies !precedes(
                (#[trigger] result[k]).1,
                (#[trigger] result[j]).1,
            ) by {
                if k < cells.len() {
                    assert(result[j] == cells[j]);
                    assert(result[k] == cells[k]);
                } else {
                    assert(result[j] == cells[j]);
                    if j < cells.len() - 1 {
                        assert(!precedes(cells[cells.len() - 1].1, cells[j].1));
                    }
                }
            }
        }
    }
}

/// Sorting keeps the cells and puts them in order.
pub proof fn lemma_sorted(cells: Seq<(MemoryLocation, i64)>)
    ensures
        sorted(cells).len() == cells.len(),
        forall|x: (MemoryLocation, i64)| #[trigger]
            cells.contains(x) ==> sorted(cells).contains(x),
        forall|x: (MemoryLocation, i64)| #[trigger]
            sorted(cells).contains(x) ==> cells.contains(x),
        ordered(sorted(cells)),
    decreases cells.len(),
{
    if cells.len() > 0 {
        let front = cells.drop_last();
        lemma_sorted(front);
        lemma_inserted(sorted(front), cells.last());
        let result = inserted(sorted(front), cells.last());
        assert(sorted(cells) == result);
        assert forall|x: (MemoryLocation, i64)| #[trigger] cells.contains(x) implies sorted(
            cells,
        ).contains(x) by {
            let i = choose|i: int| 0 <= i < cells.len() && cells[i] == x;
            if i < front.len() {
                assert(front[i] == x);
                assert(front.contains(x));
                assert(sorted(front).contains(x));
                assert(result.contains(x));
            } else {
                assert(result.contains(cells.last()));
            }
        }
        assert forall|x: (MemoryLocation, i64)| #[trigger] sorted(cells).contains(
            x,
        ) implies cells.contains(x) by {
            assert(result.contains(x));
            if x == cells.last() {
                assert(cells[cells.len() - 1] == x);
            } else {
                assert(sorted(front).contains(x));
                assert(front.contains(x));
                let i = choose|i: int| 0 <= i < front.len() && front[i] == x;
                assert(cells[i] == x);
            }
        }
    }
}

/// The cells with a value are those of the slots that have one.
pub proof fn lemma_valued(slots: Seq<Slot>)
    ensures
        forall|i: int|
            0 <= i < slots.len() && (#[trigger] slots[i]).value is Some ==> valued(slots).contains(
                (slots[i].location, slots[i].value.unwrap()),
            ),
        forall|x: (MemoryLocation, i64)| #[trigger]
            valued(slots).contains(x) ==> exists|i: int|
                0 <= i < slots.len() && (#[trigger] slots[i]).location == x.0 && slots[i].value
                    == Some(x.1),
    decreases slots.len(),
{
    if slots.len() > 0 {
        let front = slots.drop_last();
        let last = slots.last();
        lemma_valued(front);
        let result = valued(slots);
        assert forall|i: int|
            0 <= i < slots.len() && (#[trigger] slots[i]).value is Some implies result.contains(
            (slots[i].location, slots[i].value.unwrap()),
        ) by {
            let x = (slots[i].location, slots[i].value.unwrap());
            if i < front.len() {
                assert(front[i] == slots[i]);
                assert(valued(front).contains(x));
                let j = choose|j: int| 0 <= j < valued(front).len() && valued(front)[j] == x;
                assert(result[j] == x);
            } else {
                assert(result[result.len() - 1] == x);
            }
        }
        assert forall|x: (MemoryLocation, i64)| result.contains(x) implies exists|i: int|
            0 <= i < slots.len() && (#[trigger] slots[i]).location == x.0 && slots[i].value
                == Some(x.1) by {
            let j = choose|j: int| 0 <= j < result.len() && result[j] == x;
            if j < valued(front).len() {
                assert(valued(front)[j] == x);
                assert(valued(front).contains(x));
                let i = choose|i: int|
                    0 <= i < front.len() && (#[trigger] front[i]).location == x.0 && front[i].value
                        == Some(x.1);
                assert(slots[i] == front[i]);
            } else {
                assert(slots[slots.len() - 1] == last);
            }
        }
    }
}

/// The slots with the literals noted: each literal's slot holds the
/// literal, where the literals have cells of their own.
pub proof fn lemma_noted(slots: Seq<Slot>, constants: Seq<(Constant, VariableIndex)>, k: int)
    requires
        0 <= k < constants.len(),
        forall|i: int| 0 <= i < constants.len() ==> (#[trigger] constants[i]).1.id < slots.len(),
        forall|i: int, j: int|
            0 <= i < j < constants.len() ==> (#[trigger] constants[i]).1 != (
            #[trigger] constants[j]).1,
    ensures
        with_constants(slots, constants).len() == slots.len(),
        with_constants(slots, constants)[constants[k].1.id as int].value == Some(constants[k].0.0),
    decreases constants.len(),
{
    lemma_noted_len(slots, constants);
    let front = constants.drop_last();
    lemma_noted_len(slots, front);
    assert(constants[constants.len() - 1] == constants.last());
    if k < front.len() {
        assert forall|i: int| 0 <= i < front.len() implies (#[trigger] front[i]).1.id
            < slots.len() by {
            assert(front[i] == constants[i]);
        }
        assert forall|i: int, j: int| 0 <= i < j < front.len() implies (#[trigger] front[i]).1 != (
        #[trigger] front[j]).1 by {
            assert(front[i] == constants[i]);
            assert(front[j] == constants[j]);
        }
        lemma_noted(slots, front, k);
        assert(front[k] == constants[k]);
        assert(constants[k].1 != constants[constants.len() - 1].1);
    }
}

/// Noting the literals keeps the number of slots.
pub proof fn lemma_noted_len(slots: Seq<Slot>, constants: Seq<(Constant, VariableIndex)>)
    ensures
        with_constants(slots, constants).len() == slots.len(),
    decreases constants.len(),
{
    if constants.len() > 0 {
        lemma_noted_len(slots, constants.drop_last());
    }
}

/// A slot that is no literal's keeps its value when the literals are
/// noted.
pub proof fn lemma_not_noted(slots: Seq<Slot>, constants: Seq<(Constant, VariableIndex)>, at: int)
    requires
        0 <= at < slots.len(),
        forall|i: int| 0 <= i < constants.len() ==> (#[trigger] constants[i]).1.id != at,
    ensures
        with_constants(slots, constants).len() == slots.len(),
        with_constants(slots, constants)[at] == slots[at],
    decreases constants.len(),
{
    lemma_noted_len(slots, constants);
    if constants.len() > 0 {
        let front = constants.drop_last();
        lemma_noted_len(slots, front);
        assert forall|i: int| 0 <= i < front.len() implies (#[trigger] front[i]).1.id != at by {
            assert(front[i] == constants[i]);
        }
        lemma_not_noted(slots, front, at);
        assert(constants[constants.len() - 1] == constants.last());
    }
}

/// The code at the start of every target program, which sets the literals
/// and the arrays' bases.
pub open spec fn constants_prelude(model: Model) -> Seq<Instruction> {
    state_of(prepared(model)).generate_constants().emission.code
}

/// The cell of the `k`-th literal of a prepared program.
pub open spec fn literal_cell(model: Model, k: int) -> int {
    cell_of(prepared(model).shapes, prepared(model).constants[k].1.id as int)
}

/// After the code that sets the literals, every literal is in its cell,
/// the cell of every array holds the array's base, and the accumulator
/// holds 0.
///
/// This holds of every program that starts with that code, whatever the
/// accumulator held at the start, on a machine that can be charged for the
/// code: as many steps as the code has instructions are taken without a
/// failure and leave behind them the instruction pointer, every literal of
/// the prepared program in its cell, every array's base in the array's
/// cell, and 0 in the accumulator.
pub proof fn lemma_constants_materialized(
    model: Model,
    machine: Machine,
    program: Seq<Instruction>,
    extended: bool,
)
    requires
        prepared(model).wf(),
        layout_fits(prepared(model).shapes, 0),
        prepared(model).constant_index(Constant(1)) is Some,
        machine.wf(),
        machine.ip == 0,
        machine.cost + 20 * constants_prelude(model).len() <= u64::MAX,
        constants_prelude(model).len() <= program.len(),
        program.subrange(0, constants_prelude(model).len() as int) == constants_prelude(model),
    ensures
        ({
            let (after, status) = machine.steps(
                program,
                extended,
                constants_prelude(model).len(),
            );
            &&& status is Running
            &&& after.ip == constants_prelude(model).len()
            &&& after.acc() == 0
            &&& forall|k: int|
                0 <= k < prepared(model).constants.len() ==> after.memory.contains_key(
                    #[trigger] literal_cell(model, k),
                ) && after.memory[literal_cell(model, k)] == prepared(model).constants[k].0.0
            &&& forall|i: int|
                0 <= i < prepared(model).shapes.len() && (#[trigger] prepared(model).shapes[i])
                    is Array ==> after.memory.contains_key(cell_of(prepared(model).shapes, i))
                    && after.memory[cell_of(prepared(model).shapes, i)] == base_of(
                    prepared(model).shapes,
                    i,
                )
        }),
{
    let ready = prepared(model);
    let state = state_of(ready);
    let plain = layout(ready.shapes);
    let one = state.constant_location(1);
    let cells = sorted(valued(state.slots));
    let block = constants_code(cells, one);
    let zero = Instruction::Sub(0);
    // the shape of the code
    let zeroed = state.push(zero);
    zeroed.lemma_constant_list_code(cells);
    assert(zeroed.constant_location(1) == one);
    assert(constants_prelude(model) =~= seq![zero] + block);
    // the slots
    assert(ready.names[0] == ready.names[0]);
    assert(layout_input(ready.shapes));
    lemma_layout_distinct(ready.shapes);
    lemma_counts_total(ready.shapes);
    assert forall|i: int| 0 <= i < ready.constants.len() implies (#[trigger] ready.constants[i]).1.id
        < ready.shapes.len() && ready.shapes[ready.constants[i].1.id as int] is Unit by {
        assert(ready.is_unit(ready.constants[i].1));
    }
    lemma_with_constants(plain, ready.constants, ready.shapes);
    lemma_valued(state.slots);
    lemma_sorted(valued(state.slots));
    assert forall|i: int| 0 <= i < ready.constants.len() implies (#[trigger] ready.constants[i]).1.id
        != 0 by {}
    lemma_not_noted(plain, ready.constants, 0);
    assert(state.slots[0].value is None);
    assert forall|i: int| 0 <= i < state.slots.len() implies (#[trigger] state.slots[i]).location.0
        == cell_of(ready.shapes, i) by {
        assert(with_constants(plain, ready.constants)[i].location == plain[i].location);
        crate::translator::memory::lemma_cell_bound(ready.shapes, i);
    }
    // the cells are apart
    assert(cells_apart(cells)) by {
        assert forall|k: int| 0 <= k < cells.len() implies (#[trigger] cells[k]).0.0 != 0
            && is_address(cells[k].0.0 as int) by {
            assert(cells.contains(cells[k]));
            assert(valued(state.slots).contains(cells[k]));
            let i = choose|i: int|
                0 <= i < state.slots.len() && (#[trigger] state.slots[i]).location == cells[k].0
                    && state.slots[i].value == Some(cells[k].1);
            assert(i != 0);
            crate::translator::memory::lemma_cell_bound(ready.shapes, i);
        }
        assert forall|i: int, j: int| 0 <= i < j < state.slots.len() implies (
        #[trigger] state.slots[i]).location != (#[trigger] state.slots[j]).location by {
            assert(cell_of(ready.shapes, i) != cell_of(ready.shapes, j));
        }
        lemma_valued_apart(state.slots);
        lemma_sorted_apart(valued(state.slots));
    }
    // the literal 1 comes first
    lemma_lookup_constant(ready.constants, Constant(1));
    let index_of_one = ready.constant_index(Constant(1)).unwrap();
    let k_one = choose|k: int|
        0 <= k < ready.constants.len() && (#[trigger] ready.constants[k]).0 == Constant(1)
            && ready.constants[k].1 == index_of_one;
    assert forall|i: int| 0 <= i < ready.constants.len() implies (#[trigger] ready.constants[i]).1.id
        < plain.len() by {}
    lemma_noted(plain, ready.constants, k_one);
    assert(state.slots[index_of_one.id as int].value == Some(1i64));
    assert(valued(state.slots).contains((one, 1i64)));
    assert(cells.contains((one, 1i64)));
    assert(one_comes_first(cells, one)) by {
        let j = choose|j: int| 0 <= j < cells.len() && cells[j] == (one, 1i64);
        assert forall|k: int|
            0 <= k < cells.len() && magnitude_of((#[trigger] cells[k]).1) >= 10 implies exists|
            j: int,
        | 0 <= j < k && #[trigger] cells[j] == (one, 1i64) by {
            if j > k {
                assert(!precedes(cells[j].1, cells[k].1));
            }
            assert(j != k);
        }
    }
    // the run
    let cleared = flow(machine, seq![zero]).unwrap();
    assert(seq![zero].drop_last() =~= Seq::<Instruction>::empty());
    assert(flow(machine, seq![zero].drop_last()) == Some(machine));
    assert(seq![zero].last() == zero);
    assert(cleared.memory =~= machine.memory.insert(0, 0));
    assert(all_plain(seq![zero]));
    lemma_flow_shape(machine, seq![zero]);
    lemma_constants_flow(cleared, cells, one);
    lemma_constants_shape(cells, one);
    lemma_flow_concat(machine, seq![zero], block);
    let code = constants_prelude(model);
    assert(all_plain(code));
    lemma_flow_steps(machine, program, extended, code);
    lemma_flow_shape(machine, code);
    let after = flow(machine, code).unwrap();
    assert forall|k: int| 0 <= k < ready.constants.len() implies after.memory.contains_key(
        #[trigger] literal_cell(model, k),
    ) && after.memory[literal_cell(model, k)] == ready.constants[k].0.0 by {
        lemma_noted(plain, ready.constants, k);
        let index = ready.constants[k].1.id as int;
        let cell = (state.slots[index].location, ready.constants[k].0.0);
        assert(valued(state.slots).contains(cell));
        assert(cells.contains(cell));
        let at = choose|at: int| 0 <= at < cells.len() && cells[at] == cell;
        assert(after.memory[cells[at].0.0 as int] == cells[at].1);
    }
    assert forall|i: int| 0 <= i < ready.shapes.len() && (#[trigger] ready.shapes[i])
        is Array implies after.memory.contains_key(cell_of(ready.shapes, i)) && after.memory[cell_of(
        ready.shapes,
        i,
    )] == base_of(ready.shapes, i) by {
        assert forall|k: int| 0 <= k < ready.constants.len() implies (
        #[trigger] ready.constants[k]).1.id != i by {
            assert(ready.is_unit(ready.constants[k].1));
        }
        lemma_not_noted(plain, ready.constants, i);
        assert(state.slots[i] == slot_of(ready.shapes, i));
        crate::translator::memory::lemma_cell_bound(ready.shapes, i);
        let base = base_of(ready.shapes, i);
        assert(i64::MIN <= base <= i64::MAX);
        let cell = (state.slots[i].location, base as i64);
        assert(valued(state.slots).contains(cell));
        assert(cells.contains(cell));
        let at = choose|at: int| 0 <= at < cells.len() && cells[at] == cell;
        assert(after.memory[cells[at].0.0 as int] == cells[at].1);
    }
}

/// Every cell has an address of its own.
pub open spec fn apart(cells: Seq<(MemoryLocation, i64)>) -> bool {
    forall|j: int, k: int|
        0 <= j < k < cells.len() ==> (#[trigger] cells[j]).0 != (#[trigger] cells[k]).0
}

/// The cells with a value have addresses of their own, where the slots
/// have.
pub proof fn lemma_valued_apart(slots: Seq<Slot>)
    requires
        forall|i: int, j: int|
            0 <= i < j < slots.len() ==> (#[trigger] slots[i]).location != (
            #[trigger] slots[j]).location,
    ensures
        apart(valued(slots)),
    decreases slots.len(),
{
    if slots.len() > 0 {
        let front = slots.drop_last();
        let last = slots.last();
        assert forall|i: int, j: int| 0 <= i < j < front.len() implies (
        #[trigger] front[i]).location != (#[trigger] front[j]).location by {
            assert(front[i] == slots[i]);
            assert(front[j] == slots[j]);
        }
        lemma_valued_apart(front);
        lemma_valued(front);
        let cells = valued(slots);
        assert forall|j: int, k: int| 0 <= j < k < cells.len() implies (#[trigger] cells[j]).0 != (
        #[trigger] cells[k]).0 by {
            if k < valued(front).len() {
                assert(cells[j] == valued(front)[j]);
                assert(cells[k] == valued(front)[k]);
            } else {
                assert(cells[j] == valued(front)[j]);
                assert(valued(front).contains(cells[j]));
                let i = choose|i: int|
                    0 <= i < front.len() && (#[trigger] front[i]).location == cells[j].0
                        && front[i].value == Some(cells[j].1);
                assert(front[i] == slots[i]);
                assert(slots[i].location != slots[slots.len() - 1].location);
            }
        }
    }
}

/// Putting a cell with an address of its own into a list keeps the cells
/// apart.
pub proof fn lemma_inserted_apart(cells: Seq<(MemoryLocation, i64)>, cell: (MemoryLocation, i64))
    requires
        apart(cells),
        forall|i: int| 0 <= i < cells.len() ==> (#[trigger] cells[i]).0 != cell.0,
    ensures
        apart(inserted(cells, cell)),
    decreases cells.len(),
{
    let result = inserted(cells, cell);
    lemma_inserted(cells, cell);
    if cells.len() > 0 && precedes(cell.1, cells.last().1) {
        let front = cells.drop_last();
        let inner = inserted(front, cell);
        assert forall|i: int| 0 <= i < front.len() implies (#[trigger] front[i]).0 != cell.0 by {
            assert(front[i] == cells[i]);
        }
        assert(apart(front)) by {
            assert forall|j: int, k: int| 0 <= j < k < front.len() implies (#[trigger] front[j]).0
                != (#[trigger] front[k]).0 by {
                assert(front[j] == cells[j]);
                assert(front[k] == cells[k]);
            }
        }
        lemma_inserted_apart(front, cell);
        lemma_inserted(front, cell);
        assert forall|j: int, k: int| 0 <= j < k < result.len() implies (#[trigger] result[j]).0
            != (#[trigger] result[k]).0 by {
            if k < inner.len() {
                assert(result[j] == inner[j]);
                assert(result[k] == inner[k]);
            } else {
                assert(result[j] == inner[j]);
                assert(inner.contains(inner[j]));
                assert(cells[cells.len() - 1].0 != cell.0);
                if inner[j] != cell {
                    let i = choose|i: int| 0 <= i < front.len() && front[i] == inner[j];
                    assert(cells[i] == inner[j]);
                    assert(cells[i].0 != cells[cells.len() - 1].0);
                }
            }
        }
    } else {
        assert forall|j: int, k: int| 0 <= j < k < result.len() implies (#[trigger] result[j]).0
            != (#[trigger] result[k]).0 by {
            if cells.len() > 0 {
                assert(result[j] == cells[j]);
                if k < cells.len() {
                    assert(result[k] == cells[k]);
                }
            }
        }
    }
}

/// Sorting keeps the cells apart.
pub proof fn lemma_sorted_apart(cells: Seq<(MemoryLocation, i64)>)
    requires
        apart(cells),
    ensures
        apart(sorted(cells)),
    decreases cells.len(),
{
    if cells.len() > 0 {
        let front = cells.drop_last();
        assert(apart(front)) by {
            assert forall|j: int, k: int| 0 <= j < k < front.len() implies (#[trigger] front[j]).0
                != (#[trigger] front[k]).0 by {
                assert(front[j] == cells[j]);
                assert(front[k] == cells[k]);
            }
        }
        lemma_sorted_apart(front);
        lemma_sorted(front);
        assert forall|i: int| 0 <= i < sorted(front).len() implies (#[trigger] sorted(front)[i]).0
            != cells.last().0 by {
            assert(sorted(front).contains(sorted(front)[i]));
            assert(front.contains(sorted(front)[i]));
            let j = choose|j: int| 0 <= j < front.len() && front[j] == sorted(front)[i];
            assert(cells[j] == front[j]);
            assert(cells[j].0 != cells[cells.len() - 1].0);
        }
        lemma_inserted_apart(sorted(front), cells.last());
    }
}

} // verus!
