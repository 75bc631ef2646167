//! What the code for a product does when the machine runs it.
//!
//! The code that the translator emits for `left * right` is listed here
//! with its jumps resolved, and proved to leave the product in the
//! accumulator: for two operands that are read from one cell each (a
//! literal, a scalar, an element at a literal index) as a whole, and for
//! operands of every kind behind the code that loads and saves them.

use crate::instruction::Instruction;
use crate::interpreter::{is_address, Machine, Status};
use crate::translator::memory::MemoryLocation;
use crate::intermediate::Access;
use crate::translator::instruction_manager::{patch, retarget, JumpKind, SENTINEL};
use crate::translator::materialize::{flow, lemma_flow_concat, lemma_flow_shape, lemma_flow_steps};
use crate::translator::operands::{cells_read, has_value, lemma_flow_push, lemma_load_flow};
use crate::translator::operands::load_code;
use crate::translator::state::lemma_preserves;
use crate::translator::sums::lemma_plain_concat;
use crate::translator::state::{ProductCells, State};
use vstd::arithmetic::power2::lemma2_to64;
use vstd::prelude::*;

verus! {

/// Two instructions, one after the other.
#[verifier::rlimit(100)]
pub proof fn lemma_run2(m: Machine, program: Seq<Instruction>, extended: bool, a: Instruction, b: Instruction)
    requires
        m.can(program, extended, a),
        m.doing(a).can(program, extended, b),
    ensures
        m.steps(program, extended, 2) == (m.doing(a).doing(b), Status::Running),
{
    m.lemma_doing(program, extended, a);
    m.doing(a).lemma_doing(program, extended, b);
    m.lemma_steps_add(program, extended, 1, 1);
}

/// Three instructions, one after the other.
#[verifier::rlimit(100)]
pub proof fn lemma_run3(
    m: Machine,
    program: Seq<Instruction>,
    extended: bool,
    a: Instruction,
    b: Instruction,
    c: Instruction,
)
    requires
        m.can(program, extended, a),
        m.doing(a).can(program, extended, b),
        m.doing(a).doing(b).can(program, extended, c),
    ensures
        m.steps(program, extended, 3) == (m.doing(a).doing(b).doing(c), Status::Running),
{
    lemma_run2(m, program, extended, a, b);
    m.doing(a).doing(b).lemma_doing(program, extended, c);
    m.lemma_steps_add(program, extended, 2, 1);
}

/// Four instructions, one after the other.
#[verifier::rlimit(100)]
pub proof fn lemma_run4(
    m: Machine,
    program: Seq<Instruction>,
    extended: bool,
    a: Instruction,
    b: Instruction,
    c: Instruction,
    d: Instruction,
)
    requires
        m.can(program, extended, a),
        m.doing(a).can(program, extended, b),
        m.doing(a).doing(b).can(program, extended, c),
        m.doing(a).doing(b).doing(c).can(program, extended, d),
    ensures
        m.steps(program, extended, 4) == (m.doing(a).doing(b).doing(c).doing(d), Status::Running),
{
    lemma_run3(m, program, extended, a, b, c);
    m.doing(a).doing(b).doing(c).lemma_doing(program, extended, d);
    m.lemma_steps_add(program, extended, 3, 1);
}

/// Five instructions, one after the other.
#[verifier::rlimit(100)]
pub proof fn lemma_run5(
    m: Machine,
    program: Seq<Instruction>,
    extended: bool,
    a: Instruction,
    b: Instruction,
    c: Instruction,
    d: Instruction,
    e: Instruction,
)
    requires
        m.can(program, extended, a),
        m.doing(a).can(program, extended, b),
        m.doing(a).doing(b).can(program, extended, c),
        m.doing(a).doing(b).doing(c).can(program, extended, d),
        m.doing(a).doing(b).doing(c).doing(d).can(program, extended, e),
    ensures
        m.steps(program, extended, 5) == (
            m.doing(a).doing(b).doing(c).doing(d).doing(e),
            Status::Running,
        ),
{
    lemma_run4(m, program, extended, a, b, c, d);
    m.doing(a).doing(b).doing(c).doing(d).lemma_doing(program, extended, e);
    m.lemma_steps_add(program, extended, 4, 1);
}

/// The places of a product's code and of the cells it works on.
pub struct ProductFrame {
    /// Where the code starts.
    pub base: int,
    /// The cell of the left operand.
    pub x: u64,
    /// The cell of the right operand.
    pub y: u64,
    pub cells: ProductCells,
    /// The scratch cell of the negation.
    pub neg: MemoryLocation,
}

impl ProductFrame {
    /// The code for a product of two operands read from one cell each, as it stands in the target
    /// program from `base` on.
    pub open spec fn listing(self) -> Seq<Instruction> {
        let p = self.base;
        let c = self.cells;
        seq![
            Instruction::Load(self.x),
            Instruction::Store(c.left_tmp.0),
            Instruction::Load(self.y),
            Instruction::Store(c.right_tmp.0),
            Instruction::Jzero((p + 35) as u64),
            Instruction::Jpos((p + 15) as u64),
            Instruction::Store(self.neg.0),
            Instruction::Sub(self.neg.0),
            Instruction::Sub(self.neg.0),
            Instruction::Store(c.right_tmp.0),
            Instruction::Load(c.left_tmp.0),
            Instruction::Sub(c.left_tmp.0),
            Instruction::Sub(c.left_tmp.0),
            Instruction::Store(c.left_tmp.0),
            Instruction::Load(c.right_tmp.0),
            Instruction::Sub(0),
            Instruction::Store(c.result.0),
            Instruction::Load(c.right_tmp.0),
            Instruction::Store(c.tmp.0),
            Instruction::Shift(c.minus_one.0),
            Instruction::Shift(c.one.0),
            Instruction::Sub(c.tmp.0),
            Instruction::Jzero((p + 26) as u64),
            Instruction::Load(c.left_tmp.0),
            Instruction::Add(c.result.0),
            Instruction::Store(c.result.0),
            Instruction::Load(c.right_tmp.0),
            Instruction::Shift(c.minus_one.0),
            Instruction::Jzero((p + 34) as u64),
            Instruction::Store(c.right_tmp.0),
            Instruction::Load(c.left_tmp.0),
            Instruction::Shift(c.one.0),
            Instruction::Store(c.left_tmp.0),
            Instruction::Jump((p + 17) as u64),
            Instruction::Load(c.result.0),
        ]
    }

    /// The cells that the code writes to.
    pub open spec fn scratch(self) -> Set<int> {
        set![
            0int,
            self.cells.left_tmp.0 as int,
            self.cells.right_tmp.0 as int,
            self.cells.tmp.0 as int,
            self.cells.result.0 as int,
            self.neg.0 as int,
        ]
    }

    /// The cells are addresses, the scratch cells are apart from each
    /// other, and the operands and the two literals are no scratch cells.
    pub open spec fn apart(self) -> bool {
        let c = self.cells;
        &&& 0 <= self.base
        &&& self.base + 35 <= u64::MAX
        &&& is_address(self.x as int) && is_address(self.y as int)
        &&& is_address(c.left_tmp.0 as int) && is_address(c.right_tmp.0 as int)
        &&& is_address(c.tmp.0 as int) && is_address(c.result.0 as int)
        &&& is_address(c.one.0 as int) && is_address(c.minus_one.0 as int)
        &&& is_address(self.neg.0 as int)
        &&& c.left_tmp.0 != 0 && c.right_tmp.0 != 0 && c.tmp.0 != 0 && c.result.0 != 0
        &&& self.neg.0 != 0
        &&& c.left_tmp.0 != c.right_tmp.0 && c.left_tmp.0 != c.tmp.0 && c.left_tmp.0
            != c.result.0 && c.left_tmp.0 != self.neg.0
        &&& c.right_tmp.0 != c.tmp.0 && c.right_tmp.0 != c.result.0 && c.right_tmp.0
            != self.neg.0
        &&& c.tmp.0 != c.result.0 && c.tmp.0 != self.neg.0
        &&& c.result.0 != self.neg.0
        &&& !self.scratch().contains(self.x as int)
        &&& !self.scratch().contains(self.y as int)
        &&& !self.scratch().contains(c.one.0 as int)
        &&& !self.scratch().contains(c.minus_one.0 as int)
    }

    /// The code stands in the program, and the two literals are in their
    /// cells.
    pub open spec fn placed(self, program: Seq<Instruction>, m: Machine) -> bool {
        &&& self.apart()
        &&& m.wf()
        &&& self.base + 35 <= program.len()
        &&& program.subrange(self.base, self.base + 35) == self.listing()
        &&& m.memory.contains_key(self.cells.one.0 as int)
        &&& m.memory[self.cells.one.0 as int] == 1
        &&& m.memory.contains_key(self.cells.minus_one.0 as int)
        &&& m.memory[self.cells.minus_one.0 as int] == -1
    }

    /// The code from its fifth instruction on stands in the program, and
    /// the two literals are in their cells. The first four instructions
    /// load and save the operands.
    pub open spec fn seated(self, program: Seq<Instruction>, m: Machine) -> bool {
        &&& self.apart()
        &&& m.wf()
        &&& self.base + 35 <= program.len()
        &&& program.subrange(self.base + 4, self.base + 35) == self.listing().subrange(4, 35)
        &&& m.memory.contains_key(self.cells.one.0 as int)
        &&& m.memory[self.cells.one.0 as int] == 1
        &&& m.memory.contains_key(self.cells.minus_one.0 as int)
        &&& m.memory[self.cells.minus_one.0 as int] == -1
    }

    /// Code that stands in the program as a whole stands there from its
    /// fifth instruction on.
    #[verifier::rlimit(100)]
    pub proof fn lemma_seated(self, program: Seq<Instruction>, m: Machine)
        requires
            self.placed(program, m),
        ensures
            self.seated(program, m),
    {
        assert(program.subrange(self.base + 4, self.base + 35) =~= self.listing().subrange(4, 35)) by {
            assert forall|k: int| 4 <= k < 35 implies program[self.base + k] == self.listing()[k] by {
                self.lemma_head_at(program, k);
            }
        }
    }

    /// The instruction at place `k` of the code, from the fifth on.
    #[verifier::rlimit(100)]
    pub proof fn lemma_at(self, program: Seq<Instruction>, k: int)
        requires
            0 <= self.base,
            self.base + 35 <= program.len(),
            program.subrange(self.base + 4, self.base + 35) == self.listing().subrange(4, 35),
            4 <= k < 35,
        ensures
            program[self.base + k] == self.listing()[k],
    {
        assert(program.subrange(self.base + 4, self.base + 35)[k - 4] == program[self.base + k]);
        assert(self.listing().subrange(4, 35)[k - 4] == self.listing()[k]);
    }

    /// The instruction at place `k` of code that stands in the program as
    /// a whole.
    #[verifier::rlimit(100)]
    pub proof fn lemma_head_at(self, program: Seq<Instruction>, k: int)
        requires
            0 <= self.base,
            self.base + 35 <= program.len(),
            program.subrange(self.base, self.base + 35) == self.listing(),
            0 <= k < 35,
        ensures
            program[self.base + k] == self.listing()[k],
    {
        assert(program.subrange(self.base, self.base + 35)[k] == program[self.base + k]);
    }
}

/// What the second machine has outside the cells of `touched` is what the
/// first one has.
pub open spec fn agrees(before: Machine, after: Machine, touched: Set<int>) -> bool {
    forall|a: int|
        !touched.contains(a) ==> before.memory.contains_key(a) == #[trigger] after.memory.contains_key(a)
            && (before.memory.contains_key(a) ==> after.memory[a] == before.memory[a])
}

/// A budget of cost for the loop of a product: enough for every turn.
pub open spec fn loop_budget(right: int) -> int
    decreases right,
{
    if right <= 1 {
        400
    } else {
        400 + loop_budget(right / 2)
    }
}

impl ProductFrame {
    /// The first four instructions: the operands are loaded and saved.
    #[verifier::rlimit(100)]
    pub proof fn lemma_head(self, m: Machine, program: Seq<Instruction>, extended: bool, a: int, b: int)
        requires
            self.placed(program, m),
            m.ip == self.base,
            m.memory.contains_key(self.x as int),
            m.memory[self.x as int] == a,
            m.memory.contains_key(self.y as int),
            m.memory[self.y as int] == b,
            m.cost + 100 <= u64::MAX,
        ensures
            ({
                let (after, status) = m.steps(program, extended, 4);
                &&& status is Running
                &&& self.seated(program, after)
                &&& after.ip == self.base + 4
                &&& after.acc() == b
                &&& after.memory.contains_key(self.cells.left_tmp.0 as int)
                &&& after.memory[self.cells.left_tmp.0 as int] == a
                &&& after.memory.contains_key(self.cells.right_tmp.0 as int)
                &&& after.memory[self.cells.right_tmp.0 as int] == b
                &&& agrees(m, after, self.scratch())
                &&& after.cost <= m.cost + 40
                &&& after.input == m.input
                &&& after.output == m.output
            }),
    {
        let c = self.cells;
        self.lemma_seated(program, m);
        self.lemma_head_at(program, 0);
        self.lemma_head_at(program, 1);
        self.lemma_head_at(program, 2);
        self.lemma_head_at(program, 3);
        lemma_run4(
            m,
            program,
            extended,
            Instruction::Load(self.x),
            Instruction::Store(c.left_tmp.0),
            Instruction::Load(self.y),
            Instruction::Store(c.right_tmp.0),
        );
    }

    /// A right operand of 0 leaves for the end with 0 in the accumulator.
    #[verifier::rlimit(100)]
    pub proof fn lemma_zero(self, m: Machine, program: Seq<Instruction>, extended: bool)
        requires
            self.seated(program, m),
            m.ip == self.base + 4,
            m.cost + 100 <= u64::MAX,
        ensures
            m.steps(program, extended, 1) == (
                Machine {
                    ip: if m.acc() == 0 {
                        (self.base + 35) as nat
                    } else {
                        (self.base + 5) as nat
                    },
                    cost: m.cost + 1,
                    ..m
                },
                Status::Running,
            ),
    {
        self.lemma_at(program, 4);
        m.lemma_doing(program, extended, Instruction::Jzero((self.base + 35) as u64));
    }

    /// The jump over the negation, for a positive right operand.
    #[verifier::rlimit(100)]
    pub proof fn lemma_sign(self, m: Machine, program: Seq<Instruction>, extended: bool)
        requires
            self.seated(program, m),
            m.ip == self.base + 5,
            m.cost + 100 <= u64::MAX,
        ensures
            ({
                let (after, status) = m.steps(program, extended, 1);
                &&& status is Running
                &&& after == Machine {
                    ip: if m.acc() > 0 {
                        (self.base + 15) as nat
                    } else {
                        (self.base + 6) as nat
                    },
                    cost: m.cost + 1,
                    ..m
                }
            }),
    {
        self.lemma_at(program, 5);
        m.lemma_doing(program, extended, Instruction::Jpos((self.base + 15) as u64));
    }

    /// The negation of both operands, for a negative right operand.
    #[verifier::rlimit(100)]
    pub proof fn lemma_negate(self, m: Machine, program: Seq<Instruction>, extended: bool, a: int, b: int)
        requires
            self.seated(program, m),
            m.ip == self.base + 6,
            m.acc() == b,
            m.memory.contains_key(self.cells.left_tmp.0 as int),
            m.memory[self.cells.left_tmp.0 as int] == a,
            m.cost + 200 <= u64::MAX,
        ensures
            ({
                let (after, status) = m.steps(program, extended, 9);
                &&& status is Running
                &&& self.seated(program, after)
                &&& after.ip == self.base + 15
                &&& after.memory.contains_key(self.cells.left_tmp.0 as int)
                &&& after.memory[self.cells.left_tmp.0 as int] == -a
                &&& after.memory.contains_key(self.cells.right_tmp.0 as int)
                &&& after.memory[self.cells.right_tmp.0 as int] == -b
                &&& agrees(m, after, self.scratch())
                &&& after.cost <= m.cost + 200
                &&& after.input == m.input
                &&& after.output == m.output
            }),
    {
        let c = self.cells;
        self.lemma_at(program, 6);
        self.lemma_at(program, 7);
        self.lemma_at(program, 8);
        self.lemma_at(program, 9);
        self.lemma_at(program, 10);
        self.lemma_at(program, 11);
        self.lemma_at(program, 12);
        self.lemma_at(program, 13);
        self.lemma_at(program, 14);
        lemma_run5(
            m,
            program,
            extended,
            Instruction::Store(self.neg.0),
            Instruction::Sub(self.neg.0),
            Instruction::Sub(self.neg.0),
            Instruction::Store(c.right_tmp.0),
            Instruction::Load(c.left_tmp.0),
        );
        let m5 = m.steps(program, extended, 5).0;
        lemma_run4(
            m5,
            program,
            extended,
            Instruction::Sub(c.left_tmp.0),
            Instruction::Sub(c.left_tmp.0),
            Instruction::Store(c.left_tmp.0),
            Instruction::Load(c.right_tmp.0),
        );
        m.lemma_steps_add(program, extended, 5, 4);
    }

    /// The result is set to 0.
    #[verifier::rlimit(100)]
    pub proof fn lemma_clear(self, m: Machine, program: Seq<Instruction>, extended: bool)
        requires
            self.seated(program, m),
            m.ip == self.base + 15,
            m.cost + 100 <= u64::MAX,
        ensures
            ({
                let (after, status) = m.steps(program, extended, 2);
                &&& status is Running
                &&& after == Machine {
                    ip: (self.base + 17) as nat,
                    cost: m.cost + 20,
                    memory: m.memory.insert(0, 0).insert(self.cells.result.0 as int, 0),
                    ..m
                }
            }),
    {
        let c = self.cells;
        self.lemma_at(program, 15);
        self.lemma_at(program, 16);
        lemma_run2(m, program, extended, Instruction::Sub(0), Instruction::Store(c.result.0));
        let after = m.steps(program, extended, 2).0;
        assert(after.memory =~= m.memory.insert(0, 0).insert(c.result.0 as int, 0));
    }
}

/// What holds at the head of the product's loop: the code is placed, the
/// machine stands at the loop, and the three cells hold the left operand,
/// the right operand, which is positive, and the result so far.
pub open spec fn at_loop(
    f: ProductFrame,
    program: Seq<Instruction>,
    m: Machine,
    left: int,
    right: int,
    result: int,
) -> bool {
    &&& f.seated(program, m)
    &&& m.ip == f.base + 17
    &&& right > 0
    &&& m.memory.contains_key(f.cells.left_tmp.0 as int)
    &&& m.memory[f.cells.left_tmp.0 as int] == left
    &&& m.memory.contains_key(f.cells.right_tmp.0 as int)
    &&& m.memory[f.cells.right_tmp.0 as int] == right
    &&& m.memory.contains_key(f.cells.result.0 as int)
    &&& m.memory[f.cells.result.0 as int] == result
}

/// The number of steps of one turn of the loop.
pub open spec fn turn_steps(right: int) -> nat {
    (9 + if right % 2 != 0 {
        3int
    } else {
        0int
    } + if right / 2 == 0 {
        1int
    } else {
        5int
    }) as nat
}

/// The number of steps of the loop.
pub open spec fn loop_steps(right: int) -> nat
    decreases right,
{
    if right <= 1 {
        turn_steps(right)
    } else {
        turn_steps(right) + loop_steps(right / 2)
    }
}

impl ProductFrame {
    /// The lowest bit of the right operand is tested.
    #[verifier::rlimit(100)]
    pub proof fn lemma_turn_test(
        self,
        m: Machine,
        program: Seq<Instruction>,
        extended: bool,
        left: int,
        right: int,
        result: int,
    )
        requires
            at_loop(self, program, m, left, right, result),
            m.cost + 100 <= u64::MAX,
        ensures
            ({
                let (after, status) = m.steps(program, extended, 6);
                &&& status is Running
                &&& self.seated(program, after)
                &&& after.ip == if right % 2 == 0 {
                    self.base + 26
                } else {
                    self.base + 23
                }
                &&& after.memory == m.memory.insert(0, (right / 2) * 2 - right).insert(
                    self.cells.tmp.0 as int,
                    right,
                )
                &&& after.cost <= m.cost + 100
                &&& after.input == m.input
                &&& after.output == m.output
            }),
    {
        let c = self.cells;
        lemma2_to64();
        self.lemma_at(program, 17);
        self.lemma_at(program, 18);
        self.lemma_at(program, 19);
        self.lemma_at(program, 20);
        self.lemma_at(program, 21);
        self.lemma_at(program, 22);
        lemma_run5(
            m,
            program,
            extended,
            Instruction::Load(c.right_tmp.0),
            Instruction::Store(c.tmp.0),
            Instruction::Shift(c.minus_one.0),
            Instruction::Shift(c.one.0),
            Instruction::Sub(c.tmp.0),
        );
        let m5 = m.steps(program, extended, 5).0;
        assert(m5.acc() == (right / 2) * 2 - right);
        m5.lemma_doing(program, extended, Instruction::Jzero((self.base + 26) as u64));
        m.lemma_steps_add(program, extended, 5, 1);
        let after = m.steps(program, extended, 6).0;
        assert(after.memory =~= m.memory.insert(0, (right / 2) * 2 - right).insert(
            c.tmp.0 as int,
            right,
        ));
    }

    /// The left operand is added to the result.
    #[verifier::rlimit(100)]
    pub proof fn lemma_turn_add(self, m: Machine, program: Seq<Instruction>, extended: bool)
        requires
            self.seated(program, m),
            m.ip == self.base + 23,
            m.memory.contains_key(self.cells.left_tmp.0 as int),
            m.memory.contains_key(self.cells.result.0 as int),
            m.cost + 100 <= u64::MAX,
        ensures
            ({
                let (after, status) = m.steps(program, extended, 3);
                let sum = m.memory[self.cells.left_tmp.0 as int] + m.memory[self.cells.result.0 as int];
                &&& status is Running
                &&& after == Machine {
                    ip: (self.base + 26) as nat,
                    cost: m.cost + 30,
                    memory: m.memory.insert(0, sum).insert(self.cells.result.0 as int, sum),
                    ..m
                }
            }),
    {
        let c = self.cells;
        self.lemma_at(program, 23);
        self.lemma_at(program, 24);
        self.lemma_at(program, 25);
        lemma_run3(
            m,
            program,
            extended,
            Instruction::Load(c.left_tmp.0),
            Instruction::Add(c.result.0),
            Instruction::Store(c.result.0),
        );
        let after = m.steps(program, extended, 3).0;
        let sum = m.memory[c.left_tmp.0 as int] + m.memory[c.result.0 as int];
        assert(after.memory =~= m.memory.insert(0, sum).insert(c.result.0 as int, sum));
    }

    /// The right operand is halved and tested.
    #[verifier::rlimit(100)]
    pub proof fn lemma_turn_halve(self, m: Machine, program: Seq<Instruction>, extended: bool)
        requires
            self.seated(program, m),
            m.ip == self.base + 26,
            m.memory.contains_key(self.cells.right_tmp.0 as int),
            m.cost + 100 <= u64::MAX,
        ensures
            ({
                let (after, status) = m.steps(program, extended, 3);
                let half = m.memory[self.cells.right_tmp.0 as int] / 2;
                &&& status is Running
                &&& after == Machine {
                    ip: if half == 0 {
                        (self.base + 34) as nat
                    } else {
                        (self.base + 29) as nat
                    },
                    cost: m.cost + 16,
                    memory: m.memory.insert(0, half),
                    ..m
                }
            }),
    {
        let c = self.cells;
        lemma2_to64();
        self.lemma_at(program, 26);
        self.lemma_at(program, 27);
        self.lemma_at(program, 28);
        lemma_run3(
            m,
            program,
            extended,
            Instruction::Load(c.right_tmp.0),
            Instruction::Shift(c.minus_one.0),
            Instruction::Jzero((self.base + 34) as u64),
        );
        let after = m.steps(program, extended, 3).0;
        let half = m.memory[c.right_tmp.0 as int] / 2;
        assert(after.memory =~= m.memory.insert(0, half));
    }

    /// The result is loaded.
    #[verifier::rlimit(100)]
    pub proof fn lemma_turn_finish(self, m: Machine, program: Seq<Instruction>, extended: bool)
        requires
            self.seated(program, m),
            m.ip == self.base + 34,
            m.memory.contains_key(self.cells.result.0 as int),
            m.cost + 100 <= u64::MAX,
        ensures
            ({
                let (after, status) = m.steps(program, extended, 1);
                &&& status is Running
                &&& after == Machine {
                    ip: (self.base + 35) as nat,
                    cost: m.cost + 10,
                    memory: m.memory.insert(0, m.memory[self.cells.result.0 as int]),
                    ..m
                }
            }),
    {
        self.lemma_at(program, 34);
        m.lemma_doing(program, extended, Instruction::Load(self.cells.result.0));
    }

    /// The halved right operand is stored, the left operand doubled, and
    /// the loop starts again.
    #[verifier::rlimit(100)]
    pub proof fn lemma_turn_double(self, m: Machine, program: Seq<Instruction>, extended: bool)
        requires
            self.seated(program, m),
            m.ip == self.base + 29,
            m.memory.contains_key(self.cells.left_tmp.0 as int),
            m.cost + 100 <= u64::MAX,
        ensures
            ({
                let (after, status) = m.steps(program, extended, 5);
                let twice = m.memory[self.cells.left_tmp.0 as int] * 2;
                &&& status is Running
                &&& after == Machine {
                    ip: (self.base + 17) as nat,
                    cost: m.cost + 36,
                    memory: m.memory.insert(self.cells.right_tmp.0 as int, m.acc()).insert(
                        0,
                        twice,
                    ).insert(self.cells.left_tmp.0 as int, twice),
                    ..m
                }
            }),
    {
        let c = self.cells;
        lemma2_to64();
        self.lemma_at(program, 29);
        self.lemma_at(program, 30);
        self.lemma_at(program, 31);
        self.lemma_at(program, 32);
        self.lemma_at(program, 33);
        lemma_run5(
            m,
            program,
            extended,
            Instruction::Store(c.right_tmp.0),
            Instruction::Load(c.left_tmp.0),
            Instruction::Shift(c.one.0),
            Instruction::Store(c.left_tmp.0),
            Instruction::Jump((self.base + 17) as u64),
        );
        let after = m.steps(program, extended, 5).0;
        let twice = m.memory[c.left_tmp.0 as int] * 2;
        assert(after.memory =~= m.memory.insert(c.right_tmp.0 as int, m.acc()).insert(
            0,
            twice,
        ).insert(c.left_tmp.0 as int, twice));
    }
}

/// The number of steps of the code for a product.
pub open spec fn product_steps(right: int) -> nat {
    if right == 0 {
        5
    } else if right > 0 {
        8 + loop_steps(right)
    } else {
        17 + loop_steps(-right)
    }
}

impl ProductFrame {
    /// What the loop leaves: the result so far and the product of the two
    /// operands in the accumulator, behind the code.
    #[verifier::rlimit(100)]
    pub proof fn lemma_loop(
        self,
        m: Machine,
        program: Seq<Instruction>,
        extended: bool,
        left: int,
        right: int,
        result: int,
    )
        requires
            at_loop(self, program, m, left, right, result),
            m.cost + loop_budget(right) <= u64::MAX,
        ensures
            ({
                let (after, status) = m.steps(program, extended, loop_steps(right));
                &&& status is Running
                &&& after.wf()
                &&& after.ip == self.base + 35
                &&& after.acc() == result + left * right
                &&& agrees(m, after, self.scratch())
                &&& after.cost <= m.cost + loop_budget(right)
                &&& after.input == m.input
                &&& after.output == m.output
            }),
        decreases right,
    {
        let c = self.cells;
        let half = right / 2;
        let odd = right % 2 != 0;
        lemma_budget_positive(right);
        lemma_budget_positive(half);
        self.lemma_turn_test(m, program, extended, left, right, result);
        let t1 = m.steps(program, extended, 6).0;
        let n2: nat = if odd {
            3
        } else {
            0
        };
        if odd {
            self.lemma_turn_add(t1, program, extended);
            m.lemma_steps_add(program, extended, 6, 3);
        }
        let t2 = m.steps(program, extended, 6 + n2).0;
        let sum = if odd {
            result + left
        } else {
            result
        };
        assert(t2.memory[c.result.0 as int] == sum);
        assert(t2.memory[c.right_tmp.0 as int] == right);
        assert(t2.memory[c.left_tmp.0 as int] == left);
        self.lemma_turn_halve(t2, program, extended);
        m.lemma_steps_add(program, extended, 6 + n2, 3);
        let t3 = m.steps(program, extended, 9 + n2).0;
        assert(sum + (left * 2) * half == result + left * right) by (nonlinear_arith)
            requires
                right == half * 2 + if odd {
                    1int
                } else {
                    0int
                },
                sum == if odd {
                    result + left
                } else {
                    result
                },
        ;
        if half == 0 {
            self.lemma_turn_finish(t3, program, extended);
            m.lemma_steps_add(program, extended, 9 + n2, 1);
            assert((left * 2) * half == 0) by (nonlinear_arith)
                requires
                    half == 0,
            ;
        } else {
            self.lemma_turn_double(t3, program, extended);
            m.lemma_steps_add(program, extended, 9 + n2, 5);
            let t4 = m.steps(program, extended, 14 + n2).0;
            assert(at_loop(self, program, t4, left * 2, half, sum));
            self.lemma_loop(t4, program, extended, left * 2, half, sum);
            m.lemma_steps_add(program, extended, 14 + n2, loop_steps(half));
        }
    }

    /// The code behind the first four instructions: where the operands
    /// are saved and the right one is in the accumulator, the product is
    /// left in the accumulator.
    #[verifier::rlimit(100)]
    pub proof fn lemma_tail(
        self,
        m: Machine,
        program: Seq<Instruction>,
        extended: bool,
        a: int,
        b: int,
    )
        requires
            self.seated(program, m),
            m.ip == self.base + 4,
            m.acc() == b,
            m.memory.contains_key(self.cells.left_tmp.0 as int),
            m.memory[self.cells.left_tmp.0 as int] == a,
            m.memory.contains_key(self.cells.right_tmp.0 as int),
            m.memory[self.cells.right_tmp.0 as int] == b,
            m.cost + 900 + loop_budget(
                if b < 0 {
                    -b
                } else {
                    b
                },
            ) <= u64::MAX,
        ensures
            ({
                let (after, status) = m.steps(program, extended, (product_steps(b) - 4) as nat);
                &&& status is Running
                &&& after.wf()
                &&& after.ip == self.base + 35
                &&& after.acc() == a * b
                &&& agrees(m, after, self.scratch())
                &&& after.input == m.input
                &&& after.output == m.output
            }),
    {
        let c = self.cells;
        lemma_budget_positive(if b < 0 {
            -b
        } else {
            b
        });
        self.lemma_zero(m, program, extended);
        let e = m.steps(program, extended, 1).0;
        if b == 0 {
            assert(a * b == 0) by (nonlinear_arith)
                requires
                    b == 0,
            ;
        } else {
            self.lemma_sign(e, program, extended);
            m.lemma_steps_add(program, extended, 1, 1);
            let s = m.steps(program, extended, 2).0;
            if b > 0 {
                self.lemma_clear(s, program, extended);
                m.lemma_steps_add(program, extended, 2, 2);
                let z = m.steps(program, extended, 4).0;
                assert(at_loop(self, program, z, a, b, 0));
                self.lemma_loop(z, program, extended, a, b, 0);
                m.lemma_steps_add(program, extended, 4, loop_steps(b));
            } else {
                self.lemma_negate(s, program, extended, a, b);
                m.lemma_steps_add(program, extended, 2, 9);
                let n = m.steps(program, extended, 11).0;
                self.lemma_clear(n, program, extended);
                m.lemma_steps_add(program, extended, 11, 2);
                let z = m.steps(program, extended, 13).0;
                assert(at_loop(self, program, z, -a, -b, 0));
                self.lemma_loop(z, program, extended, -a, -b, 0);
                m.lemma_steps_add(program, extended, 13, loop_steps(-b));
                assert((-a) * (-b) == a * b) by (nonlinear_arith);
            }
        }
    }

    /// The code for a product of two operands read from one cell each leaves the product in the
    /// accumulator.
    ///
    /// Where the code stands in a program from `base` on, the cells it
    /// works on are apart, the literals 1 and -1 are in their cells, and
    /// the machine stands at `base` with `a` and `b` in the cells of the
    /// operands and enough cost left, then after
    /// [`product_steps`]`(b)` steps the machine stands behind the code
    /// with `a * b` in the accumulator, and no cell but the scratch cells
    /// has changed.
    #[verifier::rlimit(100)]
    pub proof fn lemma_product(
        self,
        m: Machine,
        program: Seq<Instruction>,
        extended: bool,
        a: int,
        b: int,
    )
        requires
            self.placed(program, m),
            m.ip == self.base,
            m.memory.contains_key(self.x as int),
            m.memory[self.x as int] == a,
            m.memory.contains_key(self.y as int),
            m.memory[self.y as int] == b,
            m.cost + 1000 + loop_budget(
                if b < 0 {
                    -b
                } else {
                    b
                },
            ) <= u64::MAX,
        ensures
            ({
                let (after, status) = m.steps(program, extended, product_steps(b));
                &&& status is Running
                &&& after.wf()
                &&& after.ip == self.base + 35
                &&& after.acc() == a * b
                &&& agrees(m, after, self.scratch())
                &&& after.input == m.input
                &&& after.output == m.output
            }),
    {
        lemma_budget_positive(if b < 0 {
            -b
        } else {
            b
        });
        self.lemma_head(m, program, extended, a, b);
        let head = m.steps(program, extended, 4).0;
        self.lemma_tail(head, program, extended, a, b);
        m.lemma_steps_add(program, extended, 4, (product_steps(b) - 4) as nat);
        let after = m.steps(program, extended, product_steps(b)).0;
        assert(agrees(m, after, self.scratch()));
    }
}

/// The budget of the loop is not negative.
#[verifier::rlimit(100)]
pub proof fn lemma_budget_positive(right: int)
    ensures
        loop_budget(right) >= 400,
    decreases right,
{
    if right > 1 {
        lemma_budget_positive(right / 2);
    }
}

/// The operand is read from one cell: a literal, a scalar, or an element
/// of an array at a literal index.
pub open spec fn is_direct(access: Access) -> bool {
    access is Constant || access is Variable || access is ArrayStatic
}

/// Patching for no jump changes nothing, and patching for one jump
/// retargets it.
#[verifier::rlimit(100)]
pub proof fn lemma_patch_one(code: Seq<Instruction>, place: usize, target: u64)
    ensures
        patch(code, Seq::empty(), target) == code,
        patch(code, Seq::<usize>::empty().push(place), target) == if 0 <= place < code.len() {
            code.update(place as int, retarget(code[place as int], target))
        } else {
            code
        },
{
    let places = Seq::<usize>::empty().push(place);
    assert(places.drop_last() =~= Seq::<usize>::empty());
    assert(patch(code, places.drop_last(), target) == code);
}

impl State {
    /// The code that loads the two operands of a product and saves them.
    pub open spec fn product_head(self, left: Access, right: Access, cells: ProductCells) -> Seq<
        Instruction,
    > {
        ((load_code(self, left) + seq![Instruction::Store(cells.left_tmp.0)]) + load_code(
            self,
            right,
        )) + seq![Instruction::Store(cells.right_tmp.0)]
    }

    /// The two operands loaded and saved.
    #[verifier::rlimit(100)]
    pub proof fn lemma_product_head(self, left: Access, right: Access, cells: ProductCells)
        ensures
            self.load(left).push(Instruction::Store(cells.left_tmp.0)).load(right).push(
                Instruction::Store(cells.right_tmp.0),
            ) == self.with_more(self.product_head(left, right, cells)),
            4 <= self.product_head(left, right, cells).len() <= 8,
    {
        let head = self.product_head(left, right, cells);
        self.lemma_load_code(left);
        let s = self.load(left).push(Instruction::Store(cells.left_tmp.0));
        s.lemma_load_code(right);
        assert(load_code(s, right) == load_code(self, right));
        let s = s.load(right).push(Instruction::Store(cells.right_tmp.0));
        assert(s.emission.code =~= self.emission.code + head);
    }

    /// What follows the saving of the operands in the first part of the
    /// code for a product.
    pub open spec fn product_rest(self, cells: ProductCells, start: int, real_end: int) -> State {
        let s = self.jump(real_end, JumpKind::Jzero).jump(start, JumpKind::Jpos);
        let s = s.neg_tmp().push(Instruction::Store(cells.right_tmp.0));
        let s = s.push(Instruction::Load(cells.left_tmp.0)).neg(cells.left_tmp).push(
            Instruction::Store(cells.left_tmp.0),
        );
        let s = s.push(Instruction::Load(cells.right_tmp.0));
        s.mark(start).push(Instruction::Sub(0)).push(Instruction::Store(cells.result.0))
    }

    /// What follows the saving of the operands: its instructions are
    /// appended, with the jump to the end still waiting.
    #[verifier::rlimit(100)]
    pub proof fn lemma_product_rest_listing(self, cells: ProductCells, start: int, real_end: int)
        requires
            self.emission.code.len() + 31 <= usize::MAX,
            self.emission.positions.len() == self.emission.pending.len(),
            self.emission.fresh(start),
            self.emission.fresh(real_end),
            self.emission.pending[start] == Seq::<usize>::empty(),
            self.emission.pending[real_end] == Seq::<usize>::empty(),
            start != real_end,
        ensures
            ({
                let q = self.emission.code.len() as int;
                let after = self.product_rest(cells, start, real_end);
                let neg = self.temp("neg"@).1;
                &&& after.emission.code == self.emission.code + seq![
                    Instruction::Jzero(SENTINEL),
                    Instruction::Jpos((q + 11) as u64),
                    Instruction::Store(neg.0),
                    Instruction::Sub(neg.0),
                    Instruction::Sub(neg.0),
                    Instruction::Store(cells.right_tmp.0),
                    Instruction::Load(cells.left_tmp.0),
                    Instruction::Sub(cells.left_tmp.0),
                    Instruction::Sub(cells.left_tmp.0),
                    Instruction::Store(cells.left_tmp.0),
                    Instruction::Load(cells.right_tmp.0),
                    Instruction::Sub(0),
                    Instruction::Store(cells.result.0),
                ]
                &&& after.emission.positions == self.emission.positions.update(
                    start,
                    Some((q + 11) as u64),
                )
                &&& after.emission.pending == self.emission.pending.update(
                    real_end,
                    Seq::<usize>::empty().push(q as usize),
                )
            }),
    {
        let q = self.emission.code.len() as int;
        let after = self.product_rest(cells, start, real_end);
        let neg = self.temp("neg"@).1;
        let s = self.jump(real_end, JumpKind::Jzero).jump(start, JumpKind::Jpos);
        let s = s.neg_tmp().push(Instruction::Store(cells.right_tmp.0));
        let s = s.push(Instruction::Load(cells.left_tmp.0)).neg(cells.left_tmp).push(
            Instruction::Store(cells.left_tmp.0),
        );
        let before_mark = s.push(Instruction::Load(cells.right_tmp.0));
        assert(before_mark.emission.code.len() == q + 11);
        assert(before_mark.emission.pending[start] =~= Seq::<usize>::empty().push((q + 1) as usize));
        lemma_patch_one(before_mark.emission.code, (q + 1) as usize, (q + 11) as u64);
        let marked = before_mark.mark(start);
        assert(marked.emission.code == before_mark.emission.code.update(
            q + 1,
            Instruction::Jpos((q + 11) as u64),
        ));
        assert(after.emission.code =~= self.emission.code + seq![
            Instruction::Jzero(SENTINEL),
            Instruction::Jpos((q + 11) as u64),
            Instruction::Store(neg.0),
            Instruction::Sub(neg.0),
            Instruction::Sub(neg.0),
            Instruction::Store(cells.right_tmp.0),
            Instruction::Load(cells.left_tmp.0),
            Instruction::Sub(cells.left_tmp.0),
            Instruction::Sub(cells.left_tmp.0),
            Instruction::Store(cells.left_tmp.0),
            Instruction::Load(cells.right_tmp.0),
            Instruction::Sub(0),
            Instruction::Store(cells.result.0),
        ]);
        assert(after.emission.positions =~= self.emission.positions.update(
            start,
            Some((q + 11) as u64),
        ));
        assert(after.emission.pending =~= self.emission.pending.update(
            real_end,
            Seq::<usize>::empty().push(q as usize),
        ));
    }

    /// The first part of the code for a product: its instructions are
    /// appended, with the jump to the end still waiting.
    #[verifier::rlimit(100)]
    pub proof fn lemma_product_setup_listing(
        self,
        left: Access,
        right: Access,
        cells: ProductCells,
        start: int,
        real_end: int,
    )
        requires
            self.emission.code.len() + 40 <= usize::MAX,
            self.emission.positions.len() == self.emission.pending.len(),
            self.emission.fresh(start),
            self.emission.fresh(real_end),
            self.emission.pending[start] == Seq::<usize>::empty(),
            self.emission.pending[real_end] == Seq::<usize>::empty(),
            start != real_end,
        ensures
            ({
                let head = self.product_head(left, right, cells);
                let p = self.emission.code.len() + head.len() - 4;
                let after = self.product_setup(left, right, cells, start, real_end);
                let neg = self.temp("neg"@).1;
                &&& 4 <= head.len() <= 8
                &&& after.emission.code == self.emission.code + (head + seq![
                    Instruction::Jzero(SENTINEL),
                    Instruction::Jpos((p + 15) as u64),
                    Instruction::Store(neg.0),
                    Instruction::Sub(neg.0),
                    Instruction::Sub(neg.0),
                    Instruction::Store(cells.right_tmp.0),
                    Instruction::Load(cells.left_tmp.0),
                    Instruction::Sub(cells.left_tmp.0),
                    Instruction::Sub(cells.left_tmp.0),
                    Instruction::Store(cells.left_tmp.0),
                    Instruction::Load(cells.right_tmp.0),
                    Instruction::Sub(0),
                    Instruction::Store(cells.result.0),
                ])
                &&& after.emission.positions == self.emission.positions.update(
                    start,
                    Some((p + 15) as u64),
                )
                &&& after.emission.pending == self.emission.pending.update(
                    real_end,
                    Seq::<usize>::empty().push((p + 4) as usize),
                )
            }),
    {
        reveal(State::product_setup);
        let head = self.product_head(left, right, cells);
        self.lemma_product_head(left, right, cells);
        let saved = self.with_more(head);
        assert(self.product_setup(left, right, cells, start, real_end) == saved.product_rest(
            cells,
            start,
            real_end,
        ));
        saved.lemma_product_rest_listing(cells, start, real_end);
        let rest = saved.product_rest(cells, start, real_end).emission.code;
        assert(rest =~= self.emission.code + (head + rest.subrange(
            saved.emission.code.len() as int,
            rest.len() as int,
        )));
    }

    /// The loop of the code for a product: its instructions are appended,
    /// with every jump at its target.
    #[verifier::rlimit(100)]
    pub proof fn lemma_product_loop_listing(self, cells: ProductCells, main: int, step: int, end: int)
        requires
            self.emission.code.len() + 18 <= usize::MAX,
            self.emission.positions.len() == self.emission.pending.len(),
            self.emission.fresh(main),
            self.emission.fresh(step),
            self.emission.fresh(end),
            self.emission.pending[main] == Seq::<usize>::empty(),
            self.emission.pending[step] == Seq::<usize>::empty(),
            self.emission.pending[end] == Seq::<usize>::empty(),
            main != step,
            main != end,
            step != end,
        ensures
            ({
                let q = self.emission.code.len() as int;
                let after = self.product_loop(cells, main, step, end);
                &&& after.emission.code == self.emission.code + seq![
                    Instruction::Load(cells.right_tmp.0),
                    Instruction::Store(cells.tmp.0),
                    Instruction::Shift(cells.minus_one.0),
                    Instruction::Shift(cells.one.0),
                    Instruction::Sub(cells.tmp.0),
                    Instruction::Jzero((q + 9) as u64),
                    Instruction::Load(cells.left_tmp.0),
                    Instruction::Add(cells.result.0),
                    Instruction::Store(cells.result.0),
                    Instruction::Load(cells.right_tmp.0),
                    Instruction::Shift(cells.minus_one.0),
                    Instruction::Jzero((q + 17) as u64),
                    Instruction::Store(cells.right_tmp.0),
                    Instruction::Load(cells.left_tmp.0),
                    Instruction::Shift(cells.one.0),
                    Instruction::Store(cells.left_tmp.0),
                    Instruction::Jump(q as u64),
                    Instruction::Load(cells.result.0),
                ]
                &&& after.emission.positions == self.emission.positions.update(
                    main,
                    Some(q as u64),
                ).update(step, Some((q + 9) as u64)).update(end, Some((q + 17) as u64))
                &&& after.emission.pending == self.emission.pending
            }),
    {
        reveal(State::product_loop);
        let q = self.emission.code.len() as int;
        let after = self.product_loop(cells, main, step, end);
        lemma_patch_one(self.emission.code, 0, q as u64);
        let s = self.mark(main).push(Instruction::Load(cells.right_tmp.0)).push(
            Instruction::Store(cells.tmp.0),
        );
        let s = s.push(Instruction::Shift(cells.minus_one.0)).push(
            Instruction::Shift(cells.one.0),
        ).push(Instruction::Sub(cells.tmp.0)).jump(step, JumpKind::Jzero);
        let before_step = s.push(Instruction::Load(cells.left_tmp.0)).push(
            Instruction::Add(cells.result.0),
        ).push(Instruction::Store(cells.result.0));
        assert(before_step.emission.code.len() == q + 9);
        assert(before_step.emission.pending[step] =~= Seq::<usize>::empty().push((q + 5) as usize));
        lemma_patch_one(before_step.emission.code, (q + 5) as usize, (q + 9) as u64);
        let s = before_step.mark(step).push(Instruction::Load(cells.right_tmp.0)).push(
            Instruction::Shift(cells.minus_one.0),
        ).jump(end, JumpKind::Jzero);
        let before_end = s.push(Instruction::Store(cells.right_tmp.0)).push(
            Instruction::Load(cells.left_tmp.0),
        ).push(Instruction::Shift(cells.one.0)).push(Instruction::Store(cells.left_tmp.0)).jump(
            main,
            JumpKind::Jump,
        );
        assert(before_end.emission.code.len() == q + 17);
        assert(before_end.emission.pending[end] =~= Seq::<usize>::empty().push((q + 11) as usize));
        lemma_patch_one(before_end.emission.code, (q + 11) as usize, (q + 17) as u64);
        assert(after.emission.code =~= self.emission.code + seq![
            Instruction::Load(cells.right_tmp.0),
            Instruction::Store(cells.tmp.0),
            Instruction::Shift(cells.minus_one.0),
            Instruction::Shift(cells.one.0),
            Instruction::Sub(cells.tmp.0),
            Instruction::Jzero((q + 9) as u64),
            Instruction::Load(cells.left_tmp.0),
            Instruction::Add(cells.result.0),
            Instruction::Store(cells.result.0),
            Instruction::Load(cells.right_tmp.0),
            Instruction::Shift(cells.minus_one.0),
            Instruction::Jzero((q + 17) as u64),
            Instruction::Store(cells.right_tmp.0),
            Instruction::Load(cells.left_tmp.0),
            Instruction::Shift(cells.one.0),
            Instruction::Store(cells.left_tmp.0),
            Instruction::Jump(q as u64),
            Instruction::Load(cells.result.0),
        ]);
        assert(after.emission.positions =~= self.emission.positions.update(
            main,
            Some(q as u64),
        ).update(step, Some((q + 9) as u64)).update(end, Some((q + 17) as u64)));
        assert(after.emission.pending =~= self.emission.pending);
    }

    /// The places of the code for a product and of the cells it works on.
    /// The code that loads and saves the operands ends at the frame's
    /// fifth place; for two operands that are read from one cell each it
    /// starts at the frame's base.
    pub open spec fn product_frame(self, left: Access, right: Access) -> ProductFrame {
        let (s, left_tmp) = self.temp("mul_left"@);
        let (s, right_tmp) = s.temp("mul_right"@);
        let (s, tmp) = s.temp("1"@);
        let (s, result) = s.temp("mul_result"@);
        let cells = ProductCells {
            left_tmp,
            right_tmp,
            tmp,
            result,
            one: s.constant_location(1),
            minus_one: s.constant_location(-1i64),
        };
        ProductFrame {
            base: self.emission.code.len() + s.product_head(left, right, cells).len() - 4,
            x: s.address(left).0.0,
            y: s.address(right).0.0,
            cells,
            neg: s.temp("neg"@).1,
        }
    }

    /// The code that loads and saves the operands of a product, as it
    /// stands in front of the frame's fifth place.
    pub open spec fn product_loads(self, left: Access, right: Access) -> Seq<Instruction> {
        let (s, left_tmp) = self.temp("mul_left"@);
        let (s, right_tmp) = s.temp("mul_right"@);
        let (s, tmp) = s.temp("1"@);
        let (s, result) = s.temp("mul_result"@);
        let cells = ProductCells {
            left_tmp,
            right_tmp,
            tmp,
            result,
            one: s.constant_location(1),
            minus_one: s.constant_location(-1i64),
        };
        s.product_head(left, right, cells)
    }

    /// The code for a product without a shortcut is the code that loads
    /// and saves the operands and, behind it, the listing of
    /// [`ProductFrame::listing`] from its fifth instruction on.
    #[verifier::rlimit(100)]
    pub proof fn lemma_times_code(self, left: Access, right: Access)
        requires
            self.times_literal(left, right) is None,
            self.emission.code.len() + 40 <= usize::MAX,
            self.emission.positions.len() == self.emission.pending.len(),
        ensures
            self.times(left, right).emission.code == self.emission.code + (self.product_loads(
                left,
                right,
            ) + self.product_frame(left, right).listing().subrange(4, 35)),
            4 <= self.product_loads(left, right).len() <= 8,
    {
        let frame = self.product_frame(left, right);
        let head = self.product_loads(left, right);
        let p = frame.base;
        let (s, left_tmp) = self.temp("mul_left"@);
        let (s, right_tmp) = s.temp("mul_right"@);
        let (s, tmp) = s.temp("1"@);
        let (s, result) = s.temp("mul_result"@);
        let one = s.constant_location(1);
        let minus_one = s.constant_location(-1i64);
        let with_temps = s;
        let n = self.emission.positions.len() as int;
        let (s, label_start) = s.fresh_label();
        let (s, label_main) = s.fresh_label();
        let (s, label_step) = s.fresh_label();
        let (s, label_end) = s.fresh_label();
        let (s, label_real_end) = s.fresh_label();
        let cells = ProductCells { left_tmp, right_tmp, tmp, result, one, minus_one };
        assert(s.address(left) == with_temps.address(left));
        assert(s.address(right) == with_temps.address(right));
        assert(s.product_head(left, right, cells) == head);
        assert(s.temp("neg"@).1 == with_temps.temp("neg"@).1);
        s.lemma_product_setup_listing(left, right, cells, label_start, label_real_end);
        let s1 = s.product_setup(left, right, cells, label_start, label_real_end);
        assert(s1.emission.code.len() == p + 17);
        s1.lemma_product_loop_listing(cells, label_main, label_step, label_end);
        let s2 = s1.product_loop(cells, label_main, label_step, label_end);
        assert(s2.emission.code.len() == p + 35);
        assert(s2.emission.pending[label_real_end] == Seq::<usize>::empty().push((p + 4) as usize));
        lemma_patch_one(s2.emission.code, (p + 4) as usize, (p + 35) as u64);
        let s3 = s2.mark(label_real_end);
        assert(self.times(left, right) == s3);
        assert(s3.emission.code =~= self.emission.code + (head + frame.listing().subrange(4, 35)));
    }

    /// The code for the product of two operands that are read from one
    /// cell each, neither of them one of the literals that have a
    /// shortcut, is the listing of [`ProductFrame::listing`].
    #[verifier::rlimit(100)]
    pub proof fn lemma_times_listing(self, left: Access, right: Access)
        requires
            is_direct(left),
            is_direct(right),
            self.times_literal(left, right) is None,
            self.emission.code.len() + 40 <= usize::MAX,
            self.emission.positions.len() == self.emission.pending.len(),
        ensures
            self.product_frame(left, right).base == self.emission.code.len(),
            self.times(left, right).emission.code == self.emission.code + self.product_frame(
                left,
                right,
            ).listing(),
    {
        let frame = self.product_frame(left, right);
        let head = self.product_loads(left, right);
        self.lemma_times_code(left, right);
        assert(head =~= frame.listing().subrange(0, 4));
        assert(head + frame.listing().subrange(4, 35) =~= frame.listing());
    }
}

impl State {
    /// The state with the cells of a product registered.
    pub open spec fn with_product_cells(self) -> State {
        self.temp("mul_left"@).0.temp("mul_right"@).0.temp("1"@).0.temp("mul_result"@).0
    }
}

/// The code for a product without a shortcut leaves the product in the
/// accumulator, whatever kind of operand the two are.
///
/// Where the code that loads and saves the operands stands in the program
/// at the machine's place and the rest of the code behind it, the operands
/// have the values `a` and `b`, the cells that the code works on are
/// apart, the cell that the left operand is saved in is none of those
/// that the right operand is read from, the literals 1 and -1 are in
/// their cells, and enough cost is left, then after the number of steps
/// that the lemma returns the machine stands behind the code with `a * b`
/// in the accumulator, and no cell but the scratch cells has changed.
#[verifier::rlimit(100)]
pub proof fn lemma_times(
    state: State,
    left: Access,
    right: Access,
    m: Machine,
    program: Seq<Instruction>,
    extended: bool,
    a: int,
    b: int,
) -> (n: nat)
    requires
        state.product_frame(left, right).seated(program, m),
        has_value(state, m, left, a),
        has_value(state, m, right, b),
        !cells_read(state, m, right).contains(
            state.product_frame(left, right).cells.left_tmp.0 as int,
        ),
        ({
            let head = state.product_loads(left, right);
            &&& m.ip + head.len() == state.product_frame(left, right).base + 4
            &&& program.subrange(m.ip as int, (m.ip + head.len()) as int) == head
        }),
        m.cost + 1100 + loop_budget(
            if b < 0 {
                -b
            } else {
                b
            },
        ) <= u64::MAX,
    ensures
        ({
            let (after, status) = m.steps(program, extended, n);
            &&& status is Running
            &&& after.wf()
            &&& after.ip == state.product_frame(left, right).base + 35
            &&& after.acc() == a * b
            &&& agrees(m, after, state.product_frame(left, right).scratch())
            &&& after.input == m.input
            &&& after.output == m.output
        }),
{
    let frame = state.product_frame(left, right);
    let head = state.product_loads(left, right);
    let with = state.with_product_cells();
    let c = frame.cells;
    let lt = c.left_tmp.0;
    let rt = c.right_tmp.0;
    let first = load_code(with, left);
    let second = load_code(with, right);
    let save_left = Instruction::Store(lt);
    let save_right = Instruction::Store(rt);
    lemma_budget_positive(if b < 0 {
        -b
    } else {
        b
    });
    lemma_preserves(state, with);
    assert(head == ((first + seq![save_left]) + second) + seq![save_right]);
    // the left operand, saved
    lemma_load_flow(with, left, m, a);
    lemma_flow_push(m, first, save_left);
    lemma_plain_concat(first, seq![save_left]);
    lemma_flow_shape(m, first + seq![save_left]);
    let m2 = flow(m, first + seq![save_left]).unwrap();
    assert(m2.memory =~= m.memory.insert(0, a).insert(lt as int, a));
    // the right operand, saved
    assert(has_value(with, m2, right, b));
    lemma_load_flow(with, right, m2, b);
    lemma_flow_concat(m, first + seq![save_left], second);
    lemma_plain_concat(first + seq![save_left], second);
    lemma_flow_push(m, (first + seq![save_left]) + second, save_right);
    lemma_plain_concat((first + seq![save_left]) + second, seq![save_right]);
    lemma_flow_shape(m, head);
    lemma_flow_steps(m, program, extended, head);
    let m4 = flow(m, head).unwrap();
    assert(m4.memory =~= m.memory.insert(lt as int, a).insert(rt as int, b).insert(0, b));
    assert(agrees(m, m4, frame.scratch()));
    assert(frame.seated(program, m4));
    // the rest of the code
    frame.lemma_tail(m4, program, extended, a, b);
    let rest = (product_steps(b) - 4) as nat;
    m.lemma_steps_add(program, extended, head.len(), rest);
    let after = m.steps(program, extended, head.len() + rest).0;
    assert(agrees(m, after, frame.scratch()));
    head.len() + rest
}

} // verus!
