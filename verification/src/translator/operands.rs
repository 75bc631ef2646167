//! What the code that loads an operand does when the machine runs it.
//!
//! A literal, a scalar and an element at a literal index are loaded from
//! one cell. An element at a variable index is loaded in three steps: the
//! array's base, plus the index, and the cell at that address.

use crate::instruction::Instruction;
use crate::intermediate::Access;
use crate::interpreter::{is_address, Machine};
use crate::translator::materialize::{all_plain, flow, lemma_flow_concat};
use crate::translator::state::{literal, State};
use vstd::prelude::*;

verus! {

/// The code that loads the operand.
pub open spec fn load_code(state: State, access: Access) -> Seq<Instruction> {
    let (first, second) = state.address(access);
    match access {
        Access::ArrayDynamic(_, _) => seq![
            Instruction::Load(first.0),
            Instruction::Add(second.0),
            Instruction::Loadi(0),
        ],
        _ => seq![Instruction::Load(first.0)],
    }
}

/// The cells that the code for the operand reads: the cell of a literal,
/// of a scalar or of an element at a literal index; for an element at a
/// variable index the cells of the array's base and of the index, and the
/// element's own.
pub open spec fn cells_read(state: State, m: Machine, access: Access) -> Set<int> {
    let (first, second) = state.address(access);
    match access {
        Access::ArrayDynamic(_, _) => set![
            first.0 as int,
            second.0 as int,
            m.memory[first.0 as int] + m.memory[second.0 as int],
        ],
        _ => set![first.0 as int],
    }
}

/// The operand has the value `v` on the machine: the cells that its code
/// reads are addresses apart from the accumulator and hold something, and
/// the last of them holds `v`. A literal operand is `v` itself.
pub open spec fn has_value(state: State, m: Machine, access: Access, v: int) -> bool {
    let (first, second) = state.address(access);
    &&& state.valid_access(access)
    &&& is_address(first.0 as int)
    &&& first.0 != 0
    &&& m.memory.contains_key(first.0 as int)
    &&& match access {
        Access::ArrayDynamic(_, _) => {
            let element = m.memory[first.0 as int] + m.memory[second.0 as int];
            &&& is_address(second.0 as int)
            &&& second.0 != 0
            &&& m.memory.contains_key(second.0 as int)
            &&& is_address(element)
            &&& element != 0
            &&& m.memory.contains_key(element)
            &&& m.memory[element] == v
        },
        _ => m.memory[first.0 as int] == v && (literal(access) matches Some(c) ==> v == c),
    }
}

impl State {
    /// The code that the translator appends for loading an operand is
    /// [`load_code`].
    pub proof fn lemma_load_code(self, access: Access)
        ensures
            self.load(access) == self.with_more(load_code(self, access)),
    {
        assert(self.load(access).emission.code =~= self.emission.code + load_code(self, access));
    }
}

/// One instruction flows as it takes effect.
pub proof fn lemma_flow_one(m: Machine, instruction: Instruction)
    ensures
        flow(m, seq![instruction]) == match m.charge(instruction).effect(instruction) {
            Ok(after) => Some(after),
            Err(_) => None::<Machine>,
        },
{
    let block = seq![instruction];
    assert(block.drop_last() =~= Seq::<Instruction>::empty());
    assert(flow(m, block.drop_last()) == Some(m));
    assert(block.last() == instruction);
}

/// One more instruction at the end of a block that flows.
pub proof fn lemma_flow_push(m: Machine, block: Seq<Instruction>, instruction: Instruction)
    ensures
        flow(m, block + seq![instruction]) == match flow(m, block) {
            Some(before) => match before.charge(instruction).effect(instruction) {
                Ok(after) => Some(after),
                Err(_) => None::<Machine>,
            },
            None => None,
        },
{
    lemma_flow_concat(m, block, seq![instruction]);
    match flow(m, block) {
        Some(before) => lemma_flow_one(before, instruction),
        None => {},
    }
}

/// The code that loads an operand leaves the operand's value in the
/// accumulator and changes nothing else.
pub proof fn lemma_load_flow(state: State, access: Access, m: Machine, v: int)
    requires
        m.wf(),
        has_value(state, m, access, v),
    ensures
        all_plain(load_code(state, access)),
        flow(m, load_code(state, access)) matches Some(after) && after.memory == m.memory.insert(
            0,
            v,
        ),
{
    let (first, second) = state.address(access);
    let code = load_code(state, access);
    match access {
        Access::ArrayDynamic(_, _) => {
            let i1 = Instruction::Load(first.0);
            let i2 = Instruction::Add(second.0);
            let i3 = Instruction::Loadi(0);
            assert(code =~= (seq![i1] + seq![i2]) + seq![i3]);
            lemma_flow_one(m, i1);
            lemma_flow_push(m, seq![i1], i2);
            lemma_flow_push(m, seq![i1] + seq![i2], i3);
            let after = flow(m, code).unwrap();
            assert(after.memory =~= m.memory.insert(0, v));
        },
        _ => {
            lemma_flow_one(m, Instruction::Load(first.0));
        },
    }
}

} // verus!
