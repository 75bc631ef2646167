//! What the code for `+` and `-` does when the machine runs it.
//!
//! The code for a sum or a difference is a straight line: the load of one
//! operand and a run of increments or decrements where the other is a
//! small literal, else the loads of both around a scratch cell. This
//! module writes the line out, proves that the translator appends exactly
//! that line, and that the machine leaves the sum or the difference in the
//! accumulator, whatever kind of operand the two are.

use crate::instruction::Instruction;
use crate::intermediate::Access;
use crate::interpreter::{is_address, Machine};
use crate::translator::materialize::{all_plain, flow, lemma_flow_concat, lemma_flow_shape};
use crate::translator::materialize::{lemma_flow_steps, lemma_repeat_flow};
use crate::translator::operands::{cells_read, has_value, lemma_flow_push, lemma_load_flow};
use crate::translator::operands::load_code;
use crate::translator::product::agrees;
use crate::translator::state::{lemma_preserves, literal, repeat, small_literal, State};
use vstd::prelude::*;

verus! {

/// A run of increments for an amount that is not negative, of decrements
/// for a negative one.
pub open spec fn stepping(amount: int) -> Seq<Instruction> {
    if amount >= 0 {
        repeat(Instruction::Inc, amount as nat)
    } else {
        repeat(Instruction::Dec, (-amount) as nat)
    }
}

/// Two blocks without jumps, one after the other, are a block without
/// jumps.
pub proof fn lemma_plain_concat(first: Seq<Instruction>, second: Seq<Instruction>)
    requires
        all_plain(first),
        all_plain(second),
    ensures
        all_plain(first + second),
{
    assert forall|k: int| 0 <= k < (first + second).len() implies crate::translator::materialize::is_plain(
        #[trigger] (first + second)[k],
    ) by {
        if k < first.len() {
            assert(crate::translator::materialize::is_plain(first[k]));
        } else {
            assert(crate::translator::materialize::is_plain(second[k - first.len()]));
        }
    }
}

impl State {
    /// The right operand loaded and stored in the scratch cell, the left
    /// operand loaded, and `last` at the end.
    pub open spec fn through_cell(self, left: Access, right: Access, last: Instruction) -> Seq<
        Instruction,
    > {
        let (with_cell, tmp) = self.temp("bin_op"@);
        ((load_code(self, right) + seq![Instruction::Store(tmp.0)]) + load_code(with_cell, left))
            + seq![last]
    }

    /// The code for a sum.
    pub open spec fn sum_code(self, left: Access, right: Access) -> Seq<Instruction> {
        let tmp = self.temp("bin_op"@).1.0;
        match (small_literal(left), small_literal(right)) {
            (Some(c), _) => load_code(self, right) + stepping(c as int),
            (None, Some(c)) => load_code(self, left) + stepping(c as int),
            (None, None) => self.through_cell(left, right, Instruction::Add(tmp)),
        }
    }

    /// The code for a difference.
    pub open spec fn difference_code(self, left: Access, right: Access) -> Seq<Instruction> {
        let tmp = self.temp("bin_op"@).1.0;
        let neg = self.temp("neg"@).1.0;
        match small_literal(right) {
            Some(c) => load_code(self, left) + stepping(-(c as int)),
            None => if literal(left) == Some(0i64) {
                load_code(self, right) + seq![
                    Instruction::Store(neg),
                    Instruction::Sub(neg),
                    Instruction::Sub(neg),
                ]
            } else {
                self.through_cell(left, right, Instruction::Sub(tmp))
            },
        }
    }

    /// A load and a run of increments or decrements, appended.
    proof fn lemma_stepped_code(self, access: Access, amount: int)
        ensures
            self.load(access).step_by(amount).emission.code == self.emission.code + (load_code(
                self,
                access,
            ) + stepping(amount)),
    {
        self.lemma_load_code(access);
        let s = self.load(access);
        if amount >= 0 {
            s.lemma_push_times_code(Instruction::Inc, amount as nat);
        } else {
            s.lemma_push_times_code(Instruction::Dec, (-amount) as nat);
        }
        assert(s.emission.code + stepping(amount) =~= self.emission.code + (load_code(self, access)
            + stepping(amount)));
    }

    /// The two loads around the scratch cell, appended.
    proof fn lemma_through_cell_code(self, left: Access, right: Access, last: Instruction)
        ensures
            ({
                let s = self.load(right);
                let (s, tmp) = s.temp("bin_op"@);
                let s = s.push(Instruction::Store(tmp.0)).load(left).push(last);
                &&& tmp == self.temp("bin_op"@).1
                &&& s.emission.code == self.emission.code + self.through_cell(left, right, last)
            }),
    {
        let (with_cell, cell) = self.temp("bin_op"@);
        self.lemma_load_code(right);
        let s1 = self.load(right);
        let (s2, tmp) = s1.temp("bin_op"@);
        let s3 = s2.push(Instruction::Store(tmp.0));
        assert(s3.address(left) == with_cell.address(left));
        s3.lemma_load_code(left);
        assert(load_code(s3, left) == load_code(with_cell, left));
        let s4 = s3.load(left).push(last);
        assert(s4.emission.code =~= self.emission.code + self.through_cell(left, right, last));
    }

    /// The code that the translator appends for a sum is
    /// [`State::sum_code`].
    pub proof fn lemma_plus_code(self, left: Access, right: Access)
        ensures
            self.plus(left, right).emission.code == self.emission.code + self.sum_code(left, right),
    {
        let tmp = self.temp("bin_op"@).1.0;
        match (small_literal(left), small_literal(right)) {
            (Some(c), _) => {
                self.lemma_stepped_code(right, c as int);
            },
            (None, Some(c)) => {
                self.lemma_stepped_code(left, c as int);
            },
            (None, None) => {
                self.lemma_through_cell_code(left, right, Instruction::Add(tmp));
            },
        }
    }

    /// The code that the translator appends for a difference is
    /// [`State::difference_code`].
    pub proof fn lemma_minus_code(self, left: Access, right: Access)
        ensures
            self.minus(left, right).emission.code == self.emission.code + self.difference_code(
                left,
                right,
            ),
    {
        let tmp = self.temp("bin_op"@).1.0;
        match small_literal(right) {
            Some(c) => {
                self.lemma_stepped_code(left, -(c as int));
            },
            None => {
                if literal(left) == Some(0i64) {
                    self.lemma_load_code(right);
                    assert(self.minus(left, right).emission.code =~= self.emission.code
                        + self.difference_code(left, right));
                } else {
                    self.lemma_through_cell_code(left, right, Instruction::Sub(tmp));
                }
            },
        }
    }
}

/// What a straight line of code needs of the machine and the program: the
/// line stands at the machine's place, and enough cost is left.
pub open spec fn placed(m: Machine, program: Seq<Instruction>, code: Seq<Instruction>) -> bool {
    &&& m.wf()
    &&& m.ip + code.len() <= program.len()
    &&& program.subrange(m.ip as int, (m.ip + code.len()) as int) == code
    &&& m.cost + 20 * code.len() <= u64::MAX
}

/// What a straight line of code leaves: the machine stands behind it with
/// `result` in the accumulator, and no cell but the accumulator and those
/// of `scratch` has changed.
pub open spec fn gives(
    m: Machine,
    program: Seq<Instruction>,
    extended: bool,
    code: Seq<Instruction>,
    scratch: Set<int>,
    result: int,
) -> bool {
    let (after, status) = m.steps(program, extended, code.len());
    &&& status is Running
    &&& after.wf()
    &&& after.ip == m.ip + code.len()
    &&& after.acc() == result
    &&& agrees(m, after, scratch.insert(0))
    &&& after.input == m.input
    &&& after.output == m.output
}

/// A line that flows is run step by step as it flows.
pub proof fn lemma_line(
    m: Machine,
    program: Seq<Instruction>,
    extended: bool,
    code: Seq<Instruction>,
    scratch: Set<int>,
    result: int,
)
    requires
        placed(m, program, code),
        all_plain(code),
        flow(m, code) matches Some(after) && after.acc() == result && agrees(
            m,
            after,
            scratch.insert(0),
        ),
    ensures
        gives(m, program, extended, code, scratch, result),
{
    lemma_flow_steps(m, program, extended, code);
    lemma_flow_shape(m, code);
}

/// A load and a run of increments or decrements leave the operand plus the
/// amount in the accumulator.
proof fn lemma_stepped(state: State, access: Access, m: Machine, v: int, amount: int)
    requires
        m.wf(),
        has_value(state, m, access, v),
    ensures
        all_plain(load_code(state, access) + stepping(amount)),
        flow(m, load_code(state, access) + stepping(amount)) matches Some(after) && after.memory
            == m.memory.insert(0, v + amount),
{
    let load = load_code(state, access);
    let run = stepping(amount);
    lemma_load_flow(state, access, m, v);
    lemma_flow_shape(m, load);
    let loaded = flow(m, load).unwrap();
    let count = run.len();
    lemma_repeat_flow(loaded, amount >= 0, count);
    lemma_flow_concat(m, load, run);
    assert(all_plain(run));
    lemma_plain_concat(load, run);
    let after = flow(loaded, run).unwrap();
    assert(after.memory =~= m.memory.insert(0, v + amount));
}

/// The two loads around the scratch cell leave the sum, or the difference,
/// of the two operands in the accumulator, and the right operand in the
/// scratch cell.
proof fn lemma_through_cell(
    state: State,
    left: Access,
    right: Access,
    add: bool,
    m: Machine,
    a: int,
    b: int,
)
    requires
        m.wf(),
        has_value(state, m, left, a),
        has_value(state, m, right, b),
        ({
            let tmp = state.temp("bin_op"@).1.0 as int;
            is_address(tmp) && tmp != 0 && !cells_read(state, m, left).contains(tmp)
        }),
    ensures
        ({
            let tmp = state.temp("bin_op"@).1.0;
            let code = state.through_cell(
                left,
                right,
                if add {
                    Instruction::Add(tmp)
                } else {
                    Instruction::Sub(tmp)
                },
            );
            &&& all_plain(code)
            &&& flow(m, code) matches Some(after) && after.memory == m.memory.insert(
                tmp as int,
                b,
            ).insert(
                0,
                if add {
                    a + b
                } else {
                    a - b
                },
            )
        }),
{
    let (with_cell, cell) = state.temp("bin_op"@);
    let tmp = cell.0;
    let last = if add {
        Instruction::Add(tmp)
    } else {
        Instruction::Sub(tmp)
    };
    let store = Instruction::Store(tmp);
    let first = load_code(state, right);
    let second = load_code(with_cell, left);
    lemma_preserves(state, with_cell);
    // the right operand
    lemma_load_flow(state, right, m, b);
    lemma_flow_shape(m, first);
    let m1 = flow(m, first).unwrap();
    // into the scratch cell
    lemma_flow_push(m, first, store);
    lemma_plain_concat(first, seq![store]);
    lemma_flow_shape(m, first + seq![store]);
    let m2 = flow(m, first + seq![store]).unwrap();
    assert(m2.memory =~= m.memory.insert(0, b).insert(tmp as int, b));
    // the left operand
    assert(has_value(with_cell, m2, left, a));
    lemma_load_flow(with_cell, left, m2, a);
    lemma_flow_concat(m, first + seq![store], second);
    lemma_plain_concat(first + seq![store], second);
    lemma_flow_shape(m, (first + seq![store]) + second);
    let m3 = flow(m, (first + seq![store]) + second).unwrap();
    // and the operation
    lemma_flow_push(m, (first + seq![store]) + second, last);
    lemma_plain_concat((first + seq![store]) + second, seq![last]);
    let after = flow(m, ((first + seq![store]) + second) + seq![last]).unwrap();
    assert(after.memory =~= m.memory.insert(tmp as int, b).insert(
        0,
        if add {
            a + b
        } else {
            a - b
        },
    ));
}

/// The code for a sum leaves the sum in the accumulator.
///
/// Where the code stands in the program at the machine's place, the
/// operands have the values `a` and `b`, the scratch cell is an address
/// apart from the accumulator and from the cells that the left operand is
/// read from, and enough cost is left, then after as many steps as the
/// code has instructions the machine stands behind the code with `a + b`
/// in the accumulator, and no cell but the accumulator and the scratch
/// cell has changed.
pub proof fn lemma_sum(
    state: State,
    left: Access,
    right: Access,
    m: Machine,
    program: Seq<Instruction>,
    extended: bool,
    a: int,
    b: int,
)
    requires
        has_value(state, m, left, a),
        has_value(state, m, right, b),
        ({
            let tmp = state.temp("bin_op"@).1.0 as int;
            is_address(tmp) && tmp != 0 && !cells_read(state, m, left).contains(tmp)
        }),
        placed(m, program, state.sum_code(left, right)),
    ensures
        gives(
            m,
            program,
            extended,
            state.sum_code(left, right),
            set![state.temp("bin_op"@).1.0 as int],
            a + b,
        ),
{
    let code = state.sum_code(left, right);
    let scratch = set![state.temp("bin_op"@).1.0 as int];
    match (small_literal(left), small_literal(right)) {
        (Some(c), _) => {
            lemma_stepped(state, right, m, b, c as int);
        },
        (None, Some(c)) => {
            lemma_stepped(state, left, m, a, c as int);
        },
        (None, None) => {
            lemma_through_cell(state, left, right, true, m, a, b);
        },
    }
    lemma_line(m, program, extended, code, scratch, a + b);
}

/// The code for a difference leaves the difference in the accumulator.
///
/// Where the code stands in the program at the machine's place, the
/// operands have the values `a` and `b`, the two scratch cells are
/// addresses apart from the accumulator, the first also from the cells
/// that the left operand is read from, and enough cost is left, then after
/// as many steps as the code has instructions the machine stands behind
/// the code with `a - b` in the accumulator, and no cell but the
/// accumulator and the scratch cells has changed.
pub proof fn lemma_difference(
    state: State,
    left: Access,
    right: Access,
    m: Machine,
    program: Seq<Instruction>,
    extended: bool,
    a: int,
    b: int,
)
    requires
        has_value(state, m, left, a),
        has_value(state, m, right, b),
        ({
            let tmp = state.temp("bin_op"@).1.0 as int;
            is_address(tmp) && tmp != 0 && !cells_read(state, m, left).contains(tmp)
        }),
        ({
            let neg = state.temp("neg"@).1.0 as int;
            is_address(neg) && neg != 0
        }),
        placed(m, program, state.difference_code(left, right)),
    ensures
        gives(
            m,
            program,
            extended,
            state.difference_code(left, right),
            set![state.temp("bin_op"@).1.0 as int, state.temp("neg"@).1.0 as int],
            a - b,
        ),
{
    let code = state.difference_code(left, right);
    let neg = state.temp("neg"@).1.0;
    let scratch = set![state.temp("bin_op"@).1.0 as int, neg as int];
    match small_literal(right) {
        Some(c) => {
            lemma_stepped(state, left, m, a, -(c as int));
        },
        None => {
            if literal(left) == Some(0i64) {
                let load = load_code(state, right);
                let i1 = Instruction::Store(neg);
                let i2 = Instruction::Sub(neg);
                lemma_load_flow(state, right, m, b);
                assert(code =~= ((load + seq![i1]) + seq![i2]) + seq![i2]);
                lemma_flow_push(m, load, i1);
                lemma_plain_concat(load, seq![i1]);
                lemma_flow_push(m, load + seq![i1], i2);
                lemma_plain_concat(load + seq![i1], seq![i2]);
                lemma_flow_push(m, (load + seq![i1]) + seq![i2], i2);
                lemma_plain_concat((load + seq![i1]) + seq![i2], seq![i2]);
            } else {
                lemma_through_cell(state, left, right, false, m, a, b);
            }
        },
    }
    lemma_line(m, program, extended, code, scratch, a - b);
}

} // verus!
