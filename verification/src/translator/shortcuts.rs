//! What the short code for a literal operand of `*`, `/` and `mod` does
//! when the machine runs it.
//!
//! Where one operand is one of the literals 0, 1, -1, 2, -2 the translator
//! has a short line of code in place of a loop. This module writes the
//! lines out, proves that the translator appends exactly them, and that the
//! machine leaves the product, the floored quotient or the remainder that
//! goes with it in the accumulator, whatever kind of operand the other is.

use crate::instruction::Instruction;
use crate::intermediate::Access;
use crate::interpreter::{is_address, Machine};
use crate::translator::materialize::{all_plain, flow, lemma_flow_shape};
use crate::translator::operands::{has_value, lemma_flow_one, lemma_flow_push, lemma_load_flow};
use crate::translator::operands::load_code;
use crate::translator::state::{literal, State};
use crate::translator::sums::{gives, lemma_line, lemma_plain_concat, placed};
use crate::value::{floor_div, floor_mod};
use vstd::arithmetic::power2::lemma2_to64;
use vstd::prelude::*;

verus! {

/// The accumulator cleared.
pub open spec fn cleared() -> Seq<Instruction> {
    seq![Instruction::Sub(0)]
}

/// The accumulator negated through the cell `neg`.
pub open spec fn negation(neg: u64) -> Seq<Instruction> {
    seq![Instruction::Store(neg), Instruction::Sub(neg), Instruction::Sub(neg)]
}

/// The accumulator shifted by what the cell `by` holds.
pub open spec fn shifting(by: u64) -> Seq<Instruction> {
    seq![Instruction::Shift(by)]
}

impl State {
    /// The short code for a product with one of the literals 0, 1, -1, 2,
    /// -2 as an operand.
    pub open spec fn product_short_code(self, left: Access, right: Access) -> Seq<Instruction> {
        let (c, other) = Self::literal_factor(left, right).unwrap();
        let load = load_code(self, other);
        let one = self.constant_location(1).0;
        let neg = self.temp("neg"@).1.0;
        if c == 0 {
            cleared()
        } else if c == 1 {
            load
        } else if c == -1 {
            load + negation(neg)
        } else if c == 2 {
            load + shifting(one)
        } else {
            (load + shifting(one)) + negation(neg)
        }
    }

    /// The short code for a quotient or a remainder with a literal as an
    /// operand.
    pub open spec fn division_short_code(self, left: Access, right: Access, div: bool) -> Seq<
        Instruction,
    > {
        let load = load_code(self, left);
        let minus_one = self.constant_location(-1i64).0;
        let neg = self.temp("neg"@).1.0;
        match (literal(left), literal(right)) {
            (None, Some(c)) => if c == 0 || !div {
                cleared()
            } else if c == 1 {
                load
            } else if c == -1 {
                load + negation(neg)
            } else if c == 2 {
                load + shifting(minus_one)
            } else {
                (load + negation(neg)) + shifting(minus_one)
            },
            _ => cleared(),
        }
    }

    /// The code that the translator appends for a product with a shortcut
    /// is [`State::product_short_code`].
    pub proof fn lemma_times_literal_code(self, left: Access, right: Access)
        requires
            self.times_literal(left, right) is Some,
        ensures
            self.times(left, right).emission.code == self.emission.code + self.product_short_code(
                left,
                right,
            ),
    {
        let (c, other) = Self::literal_factor(left, right).unwrap();
        self.lemma_load_code(other);
        let after = self.times(left, right).emission.code;
        assert(after =~= self.emission.code + self.product_short_code(left, right));
    }

    /// The code that the translator appends for a quotient or a remainder
    /// with a shortcut is [`State::division_short_code`].
    pub proof fn lemma_div_mod_literal_code(self, left: Access, right: Access, div: bool)
        requires
            self.div_mod_literal(left, right, div) is Some,
        ensures
            self.div_mod(left, right, div).emission.code == self.emission.code
                + self.division_short_code(left, right, div),
    {
        self.lemma_load_code(left);
        let after = self.div_mod(left, right, div).emission.code;
        assert(after =~= self.emission.code + self.division_short_code(left, right, div));
    }
}

/// The cell for negating and the cell that is shifted by: both are
/// addresses apart from the accumulator and from each other, and the
/// second holds `by`.
pub open spec fn ready(m: Machine, neg: u64, shift: u64, by: int) -> bool {
    &&& is_address(neg as int)
    &&& neg != 0
    &&& neg != shift
    &&& is_address(shift as int)
    &&& shift != 0
    &&& m.memory.contains_key(shift as int)
    &&& m.memory[shift as int] == by
}

/// Clearing leaves 0.
proof fn lemma_cleared(m: Machine)
    requires
        m.wf(),
    ensures
        all_plain(cleared()),
        flow(m, cleared()) matches Some(after) && after.memory == m.memory.insert(0, 0),
{
    lemma_flow_one(m, Instruction::Sub(0));
}

/// A block that leaves `v` in the accumulator, and the negation behind
/// it: `-v` is left, and `v` in the cell `neg`.
proof fn lemma_negation(m: Machine, block: Seq<Instruction>, neg: u64, v: int)
    requires
        m.wf(),
        all_plain(block),
        flow(m, block) matches Some(before) && before.acc() == v,
        is_address(neg as int),
        neg != 0,
    ensures
        all_plain(block + negation(neg)),
        flow(m, block + negation(neg)) matches Some(after) && after.memory == flow(
            m,
            block,
        ).unwrap().memory.insert(neg as int, v).insert(0, -v),
{
    let i1 = Instruction::Store(neg);
    let i2 = Instruction::Sub(neg);
    let before = flow(m, block).unwrap();
    assert(block + negation(neg) =~= ((block + seq![i1]) + seq![i2]) + seq![i2]);
    lemma_flow_shape(m, block);
    lemma_flow_push(m, block, i1);
    lemma_plain_concat(block, seq![i1]);
    lemma_flow_push(m, block + seq![i1], i2);
    lemma_plain_concat(block + seq![i1], seq![i2]);
    lemma_flow_push(m, (block + seq![i1]) + seq![i2], i2);
    lemma_plain_concat((block + seq![i1]) + seq![i2], seq![i2]);
    let after = flow(m, block + negation(neg)).unwrap();
    assert(after.memory =~= before.memory.insert(neg as int, v).insert(0, -v));
}

/// A block that leaves `v` in the accumulator, and the shift behind it:
/// `v` doubled or halved is left.
proof fn lemma_shifting(m: Machine, block: Seq<Instruction>, shift: u64, by: int, v: int)
    requires
        m.wf(),
        all_plain(block),
        flow(m, block) matches Some(before) && before.acc() == v && before.memory.contains_key(
            shift as int,
        ) && before.memory[shift as int] == by,
        is_address(shift as int),
        shift != 0,
        by == 1 || by == -1,
    ensures
        all_plain(block + shifting(shift)),
        flow(m, block + shifting(shift)) matches Some(after) && after.memory == flow(
            m,
            block,
        ).unwrap().memory.insert(
            0,
            if by == 1 {
                v * 2
            } else {
                v / 2
            },
        ),
{
    lemma2_to64();
    lemma_flow_shape(m, block);
    lemma_flow_push(m, block, Instruction::Shift(shift));
    lemma_plain_concat(block, shifting(shift));
}

/// The short code for a product leaves the product in the accumulator.
///
/// Where one operand is one of the literals 0, 1, -1, 2, -2, the code
/// stands in the program at the machine's place, the operands have the
/// values `a` and `b`, the literal 1 is in its cell, and the cell for
/// negating is apart from it and from the accumulator, the machine stands
/// behind the code after as many steps as the code has instructions, with
/// `a * b` in the accumulator.
pub proof fn lemma_product_short(
    state: State,
    left: Access,
    right: Access,
    m: Machine,
    program: Seq<Instruction>,
    extended: bool,
    a: int,
    b: int,
)
    requires
        state.times_literal(left, right) is Some,
        has_value(state, m, left, a),
        has_value(state, m, right, b),
        ready(m, state.temp("neg"@).1.0, state.constant_location(1).0, 1),
        placed(m, program, state.product_short_code(left, right)),
    ensures
        gives(
            m,
            program,
            extended,
            state.product_short_code(left, right),
            set![state.temp("neg"@).1.0 as int],
            a * b,
        ),
{
    let (c, other) = State::literal_factor(left, right).unwrap();
    let v = if left is Constant {
        b
    } else {
        a
    };
    let neg = state.temp("neg"@).1.0;
    let one = state.constant_location(1).0;
    let load = load_code(state, other);
    let code = state.product_short_code(left, right);
    assert(a * b == c * v) by (nonlinear_arith)
        requires
            (a == c && v == b) || (b == c && v == a),
    ;
    assert(c * v == if c == 0 {
        0
    } else if c == 1 {
        v
    } else if c == -1 {
        -v
    } else if c == 2 {
        v * 2
    } else {
        -(v * 2)
    }) by (nonlinear_arith)
        requires
            c == 0 || c == 1 || c == -1 || c == 2 || c == -2,
    ;
    lemma_load_flow(state, other, m, v);
    if c == 0 {
        lemma_cleared(m);
    } else if c == 1 {
    } else if c == -1 {
        lemma_negation(m, load, neg, v);
    } else if c == 2 {
        lemma_shifting(m, load, one, 1, v);
    } else {
        lemma_shifting(m, load, one, 1, v);
        lemma_negation(m, load + shifting(one), neg, v * 2);
    }
    lemma_line(m, program, extended, code, set![neg as int], a * b);
}

/// The short code for a quotient or a remainder leaves the floored
/// quotient, or the remainder that goes with it, in the accumulator.
///
/// Where the translator has a shortcut for the two operands, the code
/// stands in the program at the machine's place, the operands have the
/// values `a` and `b`, the literal -1 is in its cell, and the cell for
/// negating is apart from it and from the accumulator, the machine stands
/// behind the code after as many steps as the code has instructions, with
/// the result in the accumulator. A divisor of 0 gives 0.
pub proof fn lemma_division_short(
    state: State,
    left: Access,
    right: Access,
    div: bool,
    m: Machine,
    program: Seq<Instruction>,
    extended: bool,
    a: int,
    b: int,
)
    requires
        state.div_mod_literal(left, right, div) is Some,
        has_value(state, m, left, a),
        has_value(state, m, right, b),
        ready(m, state.temp("neg"@).1.0, state.constant_location(-1i64).0, -1),
        placed(m, program, state.division_short_code(left, right, div)),
    ensures
        gives(
            m,
            program,
            extended,
            state.division_short_code(left, right, div),
            set![state.temp("neg"@).1.0 as int],
            if div {
                floor_div(a, b)
            } else {
                floor_mod(a, b)
            },
        ),
{
    let neg = state.temp("neg"@).1.0;
    let minus_one = state.constant_location(-1i64).0;
    let load = load_code(state, left);
    let code = state.division_short_code(left, right, div);
    let result = if div {
        floor_div(a, b)
    } else {
        floor_mod(a, b)
    };
    if a == 0 && b != 0 {
        assert(0int / b == 0 && 0int / (-b) == 0) by (nonlinear_arith)
            requires
                b != 0,
        ;
    }
    assert(a / 1 == a && (-a) / 1 == -a) by (nonlinear_arith);
    assert(1 * a == a && (-1) * (-a) == a) by (nonlinear_arith);
    lemma_load_flow(state, left, m, a);
    lemma_cleared(m);
    match (literal(left), literal(right)) {
        (None, Some(c)) => {
            if c == 0 || !div {
                assert(result == 0);
            } else if c == 1 {
                assert(result == a);
            } else if c == -1 {
                lemma_negation(m, load, neg, a);
                assert(result == -a);
            } else if c == 2 {
                lemma_shifting(m, load, minus_one, -1, a);
                assert(result == a / 2);
            } else {
                lemma_negation(m, load, neg, a);
                lemma_shifting(m, load + negation(neg), minus_one, -1, -a);
                assert(result == (-a) / 2);
            }
        },
        _ => {
            assert(result == 0);
        },
    }
    lemma_line(m, program, extended, code, set![neg as int], result);
}

} // verus!
