//! What the code for a quotient or a remainder does when the machine runs
//! it.
//!
//! The code that the translator emits for `left / right` and for
//! `left mod right` is listed here with its jumps resolved, and proved to
//! leave the floored quotient, or the remainder that goes with it, in the
//! accumulator: for two operands that are read from one cell each (a
//! literal, a scalar, an element at a literal index) as a whole, and for
//! operands of every kind behind the code that loads them and saves the
//! dividend.

use crate::instruction::Instruction;
use crate::interpreter::{is_address, Machine};
use crate::intermediate::Access;
use crate::translator::instruction_manager::{patch, retarget, JumpKind, SENTINEL};
use crate::translator::memory::MemoryLocation;
use crate::translator::arithmetic::{magnitude, scaled, subtracted};
use crate::translator::arithmetic::{halving, lemma_divided, lemma_scaled, unsigned_divided};
use crate::translator::product::{agrees, lemma_run2, lemma_run3, lemma_run4, lemma_run5};
use crate::translator::materialize::{flow, lemma_flow_shape, lemma_flow_steps};
use crate::translator::operands::{cells_read, has_value, lemma_load_flow, load_code};
use crate::translator::state::lemma_preserves;
use crate::translator::product::{is_direct, lemma_patch_one};
use crate::value::{floor_div, floor_mod};
use vstd::arithmetic::power2::lemma2_to64;
use crate::translator::state::{DivisionCells, State};
use vstd::prelude::*;

verus! {

/// Patching for one more jump retargets it.
#[verifier::rlimit(100)]
pub proof fn lemma_patch_push(code: Seq<Instruction>, places: Seq<usize>, place: usize, target: u64)
    ensures
        patch(code, places.push(place), target) == ({
            let front = patch(code, places, target);
            if 0 <= place < front.len() {
                front.update(place as int, retarget(front[place as int], target))
            } else {
                front
            }
        }),
{
    assert(places.push(place).drop_last() =~= places);
}

/// The first part of the code for a division, from `p` on.
pub open spec fn setup_listing(p: int, x: u64, y: u64, c: DivisionCells) -> Seq<Instruction> {
    seq![
        Instruction::Load(x),
        Instruction::Store(c.original_dividend.0),
        Instruction::Jpos((p + 5) as u64),
        Instruction::Sub(c.original_dividend.0),
        Instruction::Sub(c.original_dividend.0),
        Instruction::Store(c.dividend_abs.0),
        Instruction::Store(c.remain.0),
        Instruction::Load(y),
        Instruction::Jzero(SENTINEL),
        Instruction::Store(c.original_divisor.0),
        Instruction::Jpos((p + 13) as u64),
        Instruction::Sub(c.original_divisor.0),
        Instruction::Sub(c.original_divisor.0),
        Instruction::Store(c.scaled_divisor.0),
        Instruction::Sub(0),
        Instruction::Store(c.result.0),
        Instruction::Inc,
        Instruction::Store(c.multiple.0),
        Instruction::Load(c.scaled_divisor.0),
        Instruction::Jump(SENTINEL),
    ]
}

/// The scaling loop of the code for a division, which starts at `q`.
pub open spec fn scaling_listing(q: int, c: DivisionCells) -> Seq<Instruction> {
    seq![
        Instruction::Load(c.multiple.0),
        Instruction::Shift(c.one.0),
        Instruction::Store(c.multiple.0),
        Instruction::Load(c.scaled_divisor.0),
        Instruction::Shift(c.one.0),
        Instruction::Store(c.scaled_divisor.0),
        Instruction::Sub(c.dividend_abs.0),
        Instruction::Jneg(q as u64),
    ]
}

/// The subtracting loop of the code for a division, which starts at `r`.
pub open spec fn subtracting_listing(r: int, c: DivisionCells) -> Seq<Instruction> {
    seq![
        Instruction::Load(c.remain.0),
        Instruction::Sub(c.scaled_divisor.0),
        Instruction::Jneg((r + 7) as u64),
        Instruction::Store(c.remain.0),
        Instruction::Load(c.result.0),
        Instruction::Add(c.multiple.0),
        Instruction::Store(c.result.0),
        Instruction::Load(c.multiple.0),
        Instruction::Shift(c.minus_one.0),
        Instruction::Jzero(SENTINEL),
        Instruction::Store(c.multiple.0),
        Instruction::Load(c.scaled_divisor.0),
        Instruction::Shift(c.minus_one.0),
        Instruction::Store(c.scaled_divisor.0),
        Instruction::Jump(r as u64),
    ]
}

/// The sign correction of a quotient, which starts at `u`, with the jumps
/// to the end still waiting.
pub open spec fn quotient_listing(u: int, c: DivisionCells) -> Seq<Instruction> {
    seq![
        Instruction::Load(c.original_dividend.0),
        Instruction::Jneg((u + 6) as u64),
        Instruction::Load(c.original_divisor.0),
        Instruction::Jneg((u + 8) as u64),
        Instruction::Load(c.result.0),
        Instruction::Jump(SENTINEL),
        Instruction::Load(c.original_divisor.0),
        Instruction::Jneg((u + 4) as u64),
        Instruction::Load(c.remain.0),
        Instruction::Jzero((u + 15) as u64),
        Instruction::Load(c.result.0),
        Instruction::Sub(c.result.0),
        Instruction::Sub(c.result.0),
        Instruction::Dec,
        Instruction::Jump(SENTINEL),
        Instruction::Load(c.result.0),
        Instruction::Sub(c.result.0),
        Instruction::Sub(c.result.0),
        Instruction::Jump(SENTINEL),
    ]
}

/// The sign correction of a remainder, which starts at `u`, with the
/// jumps to the end still waiting.
pub open spec fn remainder_listing(u: int, c: DivisionCells, neg: MemoryLocation) -> Seq<
    Instruction,
> {
    seq![
        Instruction::Load(c.remain.0),
        Instruction::Jzero(SENTINEL),
        Instruction::Load(c.original_dividend.0),
        Instruction::Jneg((u + 8) as u64),
        Instruction::Load(c.original_divisor.0),
        Instruction::Jneg((u + 16) as u64),
        Instruction::Load(c.remain.0),
        Instruction::Jump(SENTINEL),
        Instruction::Load(c.original_divisor.0),
        Instruction::Jneg((u + 19) as u64),
        Instruction::Load(c.remain.0),
        Instruction::Sub(c.original_divisor.0),
        Instruction::Store(neg.0),
        Instruction::Sub(neg.0),
        Instruction::Sub(neg.0),
        Instruction::Jump(SENTINEL),
        Instruction::Load(c.remain.0),
        Instruction::Add(c.original_divisor.0),
        Instruction::Jump(SENTINEL),
        Instruction::Load(c.remain.0),
        Instruction::Sub(c.remain.0),
        Instruction::Sub(c.remain.0),
        Instruction::Jump(SENTINEL),
    ]
}

impl State {
    /// The dividend in the accumulator saved and its absolute value kept.
    pub open spec fn division_saved(self, cells: DivisionCells) -> State {
        self.push(Instruction::Store(cells.original_dividend.0)).abs(cells.original_dividend).push(
            Instruction::Store(cells.dividend_abs.0),
        ).push(Instruction::Store(cells.remain.0))
    }

    /// What follows the load of the divisor in the first part of the code
    /// for a division.
    pub open spec fn division_started(self, cells: DivisionCells, end: int, while_condition: int) -> State {
        let s = self.jump(end, JumpKind::Jzero);
        let s = s.push(Instruction::Store(cells.original_divisor.0)).abs(
            cells.original_divisor,
        ).push(Instruction::Store(cells.scaled_divisor.0)).push(Instruction::Sub(0)).push(
            Instruction::Store(cells.result.0),
        ).push(Instruction::Inc).push(Instruction::Store(cells.multiple.0));
        s.push(Instruction::Load(cells.scaled_divisor.0)).jump(while_condition, JumpKind::Jump)
    }

    /// The code that saves the dividend: its instructions are appended,
    /// with the jump over the negation at its target.
    #[verifier::rlimit(100)]
    pub proof fn lemma_division_saved_listing(self, cells: DivisionCells)
        requires
            self.emission.code.len() >= 1,
            self.emission.code.len() + 10 <= usize::MAX,
            self.emission.positions.len() == self.emission.pending.len(),
        ensures
            ({
                let q = self.emission.code.len() - 1;
                let after = self.division_saved(cells);
                &&& after.names == self.names
                &&& after.slots == self.slots
                &&& after.next_cell == self.next_cell
                &&& after.constants == self.constants
                &&& after.emission.code == self.emission.code + setup_listing(
                    q,
                    0,
                    0,
                    cells,
                ).subrange(1, 7)
                &&& after.emission.positions == self.emission.positions.push(Some((q + 5) as u64))
                &&& after.emission.pending == self.emission.pending.push(Seq::empty())
            }),
    {
        let q = self.emission.code.len() - 1;
        let after = self.division_saved(cells);
        let s = self.push(Instruction::Store(cells.original_dividend.0));
        let (s, first) = s.fresh_label();
        let s = s.jump(first, JumpKind::Jpos).neg(cells.original_dividend);
        assert(s.emission.pending[first] =~= Seq::<usize>::empty().push((q + 2) as usize));
        lemma_patch_one(s.emission.code, (q + 2) as usize, (q + 5) as u64);
        assert(after.emission.code =~= self.emission.code + setup_listing(q, 0, 0, cells).subrange(
            1,
            7,
        ));
        assert(after.emission.positions =~= self.emission.positions.push(Some((q + 5) as u64)));
        assert(after.emission.pending =~= self.emission.pending.push(Seq::empty()));
    }

    /// What follows the load of the divisor: its instructions are
    /// appended, with the jumps to the end and into the scaling loop
    /// still waiting.
    #[verifier::rlimit(100)]
    pub proof fn lemma_division_started_listing(
        self,
        cells: DivisionCells,
        end: int,
        while_condition: int,
    )
        requires
            self.emission.code.len() >= 8,
            self.emission.code.len() + 20 <= usize::MAX,
            self.emission.positions.len() == self.emission.pending.len(),
            self.emission.fresh(end),
            self.emission.fresh(while_condition),
            self.emission.pending[end] == Seq::<usize>::empty(),
            self.emission.pending[while_condition] == Seq::<usize>::empty(),
            end != while_condition,
        ensures
            ({
                let q = self.emission.code.len() - 8;
                let after = self.division_started(cells, end, while_condition);
                &&& after.names == self.names
                &&& after.slots == self.slots
                &&& after.next_cell == self.next_cell
                &&& after.constants == self.constants
                &&& after.emission.code == self.emission.code + setup_listing(
                    q,
                    0,
                    0,
                    cells,
                ).subrange(8, 20)
                &&& after.emission.positions == self.emission.positions.push(Some((q + 13) as u64))
                &&& after.emission.pending == self.emission.pending.update(
                    end,
                    Seq::<usize>::empty().push((q + 8) as usize),
                ).update(while_condition, Seq::<usize>::empty().push((q + 19) as usize)).push(
                    Seq::empty(),
                )
            }),
    {
        let q = self.emission.code.len() - 8;
        let after = self.division_started(cells, end, while_condition);
        let s = self.jump(end, JumpKind::Jzero);
        let s = s.push(Instruction::Store(cells.original_divisor.0));
        let (s, second) = s.fresh_label();
        let s = s.jump(second, JumpKind::Jpos).neg(cells.original_divisor);
        assert(s.emission.pending[second] =~= Seq::<usize>::empty().push((q + 10) as usize));
        lemma_patch_one(s.emission.code, (q + 10) as usize, (q + 13) as u64);
        assert(after.emission.code =~= self.emission.code + setup_listing(q, 0, 0, cells).subrange(
            8,
            20,
        ));
        assert(after.emission.positions =~= self.emission.positions.push(Some((q + 13) as u64)));
        assert(after.emission.pending =~= self.emission.pending.update(
            end,
            Seq::<usize>::empty().push((q + 8) as usize),
        ).update(while_condition, Seq::<usize>::empty().push((q + 19) as usize)).push(
            Seq::empty(),
        ));
    }

    /// The code that loads the two operands of a division and saves the
    /// dividend between the two loads.
    pub open spec fn division_head(self, left: Access, right: Access, cells: DivisionCells) -> Seq<
        Instruction,
    > {
        let first = load_code(self, left);
        (first + setup_listing(
            self.emission.code.len() + first.len() - 1,
            0,
            0,
            cells,
        ).subrange(1, 7)) + load_code(self, right)
    }

    /// The first part of the code for a division, for operands of every
    /// kind: the loads with the saving of the dividend between them, and
    /// what follows the load of the divisor.
    #[verifier::rlimit(100)]
    pub proof fn lemma_division_setup_code(
        self,
        left: Access,
        right: Access,
        cells: DivisionCells,
        end: int,
        while_condition: int,
    )
        requires
            self.emission.code.len() + 70 <= usize::MAX,
            self.emission.positions.len() == self.emission.pending.len(),
            self.emission.fresh(end),
            self.emission.fresh(while_condition),
            self.emission.pending[end] == Seq::<usize>::empty(),
            self.emission.pending[while_condition] == Seq::<usize>::empty(),
            end != while_condition,
        ensures
            ({
                let head = self.division_head(left, right, cells);
                let early = self.emission.code.len() + load_code(self, left).len() - 1;
                let q = self.emission.code.len() + head.len() - 8;
                let after = self.division_setup(left, right, cells, end, while_condition);
                &&& 8 <= head.len() <= 12
                &&& after.names == self.names
                &&& after.slots == self.slots
                &&& after.next_cell == self.next_cell
                &&& after.constants == self.constants
                &&& after.emission.code == self.emission.code + (head + setup_listing(
                    q,
                    0,
                    0,
                    cells,
                ).subrange(8, 20))
                &&& after.emission.positions == self.emission.positions.push(
                    Some((early + 5) as u64),
                ).push(Some((q + 13) as u64))
                &&& after.emission.pending == self.emission.pending.update(
                    end,
                    Seq::<usize>::empty().push((q + 8) as usize),
                ).update(while_condition, Seq::<usize>::empty().push((q + 19) as usize)).push(
                    Seq::empty(),
                ).push(Seq::empty())
            }),
    {
        reveal(State::division_setup);
        let head = self.division_head(left, right, cells);
        let q = self.emission.code.len() + head.len() - 8;
        self.lemma_load_code(left);
        let s1 = self.load(left);
        s1.lemma_division_saved_listing(cells);
        let s2 = s1.division_saved(cells);
        s2.lemma_load_code(right);
        assert(load_code(s2, right) == load_code(self, right));
        let s3 = s2.load(right);
        assert(s3.emission.code =~= self.emission.code + head);
        assert(s3.emission.pending[end] == self.emission.pending[end]);
        assert(s3.emission.pending[while_condition] == self.emission.pending[while_condition]);
        s3.lemma_division_started_listing(cells, end, while_condition);
        let s4 = s3.division_started(cells, end, while_condition);
        assert(self.division_setup(left, right, cells, end, while_condition) == s4);
        assert(s4.emission.code =~= self.emission.code + (head + setup_listing(
            q,
            0,
            0,
            cells,
        ).subrange(8, 20)));
        assert(s4.emission.pending =~= self.emission.pending.update(
            end,
            Seq::<usize>::empty().push((q + 8) as usize),
        ).update(while_condition, Seq::<usize>::empty().push((q + 19) as usize)).push(
            Seq::empty(),
        ).push(Seq::empty()));
    }

    #[verifier::rlimit(100)]
    pub proof fn lemma_division_setup_listing(
        self,
        left: Access,
        right: Access,
        cells: DivisionCells,
        end: int,
        while_condition: int,
    )
        requires
            is_direct(left),
            is_direct(right),
            self.emission.code.len() + 70 <= usize::MAX,
            self.emission.positions.len() == self.emission.pending.len(),
            self.emission.fresh(end),
            self.emission.fresh(while_condition),
            self.emission.pending[end] == Seq::<usize>::empty(),
            self.emission.pending[while_condition] == Seq::<usize>::empty(),
            end != while_condition,
        ensures
            ({
                let p = self.emission.code.len() as int;
                let after = self.division_setup(left, right, cells, end, while_condition);
                &&& after.names == self.names
                &&& after.slots == self.slots
                &&& after.next_cell == self.next_cell
                &&& after.constants == self.constants
                &&& after.emission.code == self.emission.code + setup_listing(
                    p,
                    self.address(left).0.0,
                    self.address(right).0.0,
                    cells,
                )
                &&& after.emission.positions == self.emission.positions.push(
                    Some((p + 5) as u64),
                ).push(Some((p + 13) as u64))
                &&& after.emission.pending == self.emission.pending.update(
                    end,
                    Seq::<usize>::empty().push((p + 8) as usize),
                ).update(while_condition, Seq::<usize>::empty().push((p + 19) as usize)).push(
                    Seq::empty(),
                ).push(Seq::empty())
            }),
    {
        reveal(State::division_setup);
        let p = self.emission.code.len() as int;
        let n = self.emission.positions.len() as int;
        let after = self.division_setup(left, right, cells, end, while_condition);
        let s = self.load(left).push(Instruction::Store(cells.original_dividend.0));
        let (s, first) = s.fresh_label();
        let s = s.jump(first, JumpKind::Jpos).neg(cells.original_dividend);
        assert(s.emission.pending[first] =~= Seq::<usize>::empty().push((p + 2) as usize));
        lemma_patch_one(s.emission.code, (p + 2) as usize, (p + 5) as u64);
        let s = s.mark(first).push(Instruction::Store(cells.dividend_abs.0)).push(
            Instruction::Store(cells.remain.0),
        );
        let s = s.load(right).jump(end, JumpKind::Jzero);
        let s = s.push(Instruction::Store(cells.original_divisor.0));
        let (s, second) = s.fresh_label();
        let s = s.jump(second, JumpKind::Jpos).neg(cells.original_divisor);
        assert(s.emission.pending[second] =~= Seq::<usize>::empty().push((p + 10) as usize));
        lemma_patch_one(s.emission.code, (p + 10) as usize, (p + 13) as u64);
        assert(after.emission.code =~= self.emission.code + setup_listing(
            p,
            self.address(left).0.0,
            self.address(right).0.0,
            cells,
        ));
        assert(after.emission.positions =~= self.emission.positions.push(
            Some((p + 5) as u64),
        ).push(Some((p + 13) as u64)));
        assert(after.emission.pending =~= self.emission.pending.update(
            end,
            Seq::<usize>::empty().push((p + 8) as usize),
        ).update(while_condition, Seq::<usize>::empty().push((p + 19) as usize)).push(
            Seq::empty(),
        ).push(Seq::empty()));
    }

    #[verifier::rlimit(100)]
    pub proof fn lemma_division_scaling_listing(
        self,
        cells: DivisionCells,
        while_body: int,
        while_condition: int,
        waiting: usize,
    )
        requires
            self.emission.code.len() + 70 <= usize::MAX,
            self.emission.positions.len() == self.emission.pending.len(),
            self.emission.fresh(while_body),
            self.emission.fresh(while_condition),
            self.emission.pending[while_body] == Seq::<usize>::empty(),
            self.emission.pending[while_condition] == Seq::<usize>::empty().push(waiting),
            waiting < self.emission.code.len(),
            while_body != while_condition,
        ensures
            ({
                let q = self.emission.code.len() as int;
                let after = self.division_scaling(cells, while_body, while_condition);
                &&& after.names == self.names
                &&& after.slots == self.slots
                &&& after.next_cell == self.next_cell
                &&& after.constants == self.constants
                &&& after.emission.code == self.emission.code.update(
                    waiting as int,
                    retarget(self.emission.code[waiting as int], (q + 6) as u64),
                ) + scaling_listing(q, cells)
                &&& after.emission.positions == self.emission.positions.update(
                    while_body,
                    Some(q as u64),
                ).update(while_condition, Some((q + 6) as u64))
                &&& after.emission.pending == self.emission.pending.update(
                    while_condition,
                    Seq::empty(),
                )
            }),
    {
        reveal(State::division_scaling);
        let q = self.emission.code.len() as int;
        let after = self.division_scaling(cells, while_body, while_condition);
        lemma_patch_one(self.emission.code, 0, q as u64);
        let s = self.mark(while_body).push(Instruction::Load(cells.multiple.0)).push(
            Instruction::Shift(cells.one.0),
        ).push(Instruction::Store(cells.multiple.0)).push(
            Instruction::Load(cells.scaled_divisor.0),
        ).push(Instruction::Shift(cells.one.0)).push(Instruction::Store(cells.scaled_divisor.0));
        assert(s.emission.pending[while_condition] == Seq::<usize>::empty().push(waiting));
        lemma_patch_one(s.emission.code, waiting, (q + 6) as u64);
        assert(after.emission.code =~= self.emission.code.update(
            waiting as int,
            retarget(self.emission.code[waiting as int], (q + 6) as u64),
        ) + scaling_listing(q, cells));
        assert(after.emission.positions =~= self.emission.positions.update(
            while_body,
            Some(q as u64),
        ).update(while_condition, Some((q + 6) as u64)));
        assert(after.emission.pending =~= self.emission.pending.update(
            while_condition,
            Seq::empty(),
        ));
    }

    #[verifier::rlimit(100)]
    pub proof fn lemma_division_subtracting_listing(
        self,
        cells: DivisionCells,
        do_body: int,
        after_if: int,
        after_do: int,
    )
        requires
            self.emission.code.len() + 70 <= usize::MAX,
            self.emission.positions.len() == self.emission.pending.len(),
            self.emission.fresh(do_body),
            self.emission.fresh(after_if),
            self.emission.fresh(after_do),
            self.emission.pending[do_body] == Seq::<usize>::empty(),
            self.emission.pending[after_if] == Seq::<usize>::empty(),
            self.emission.pending[after_do] == Seq::<usize>::empty(),
            do_body != after_if,
            do_body != after_do,
            after_if != after_do,
        ensures
            ({
                let r = self.emission.code.len() as int;
                let after = self.division_subtracting(cells, do_body, after_if, after_do);
                &&& after.names == self.names
                &&& after.slots == self.slots
                &&& after.next_cell == self.next_cell
                &&& after.constants == self.constants
                &&& after.emission.code == self.emission.code + subtracting_listing(r, cells)
                &&& after.emission.positions == self.emission.positions.update(
                    do_body,
                    Some(r as u64),
                ).update(after_if, Some((r + 7) as u64))
                &&& after.emission.pending == self.emission.pending.update(
                    after_do,
                    Seq::<usize>::empty().push((r + 9) as usize),
                )
            }),
    {
        reveal(State::division_subtracting);
        let r = self.emission.code.len() as int;
        let after = self.division_subtracting(cells, do_body, after_if, after_do);
        lemma_patch_one(self.emission.code, 0, r as u64);
        let s = self.mark(do_body).push(Instruction::Load(cells.remain.0)).push(
            Instruction::Sub(cells.scaled_divisor.0),
        ).jump(after_if, JumpKind::Jneg);
        let s = s.push(Instruction::Store(cells.remain.0)).push(
            Instruction::Load(cells.result.0),
        ).push(Instruction::Add(cells.multiple.0)).push(Instruction::Store(cells.result.0));
        assert(s.emission.pending[after_if] =~= Seq::<usize>::empty().push((r + 2) as usize));
        lemma_patch_one(s.emission.code, (r + 2) as usize, (r + 7) as u64);
        assert(after.emission.code =~= self.emission.code + subtracting_listing(r, cells));
        assert(after.emission.positions =~= self.emission.positions.update(
            do_body,
            Some(r as u64),
        ).update(after_if, Some((r + 7) as u64)));
        assert(after.emission.pending =~= self.emission.pending.update(
            after_do,
            Seq::<usize>::empty().push((r + 9) as usize),
        ));
    }

    #[verifier::rlimit(100)]
    pub proof fn lemma_quotient_sign_listing(
        self,
        cells: DivisionCells,
        end: int,
        waiting: Seq<usize>,
    )
        requires
            self.emission.code.len() + 70 <= usize::MAX,
            self.emission.positions.len() == self.emission.pending.len(),
            self.emission.fresh(end),
            self.emission.pending[end] == waiting,
        ensures
            ({
                let u = self.emission.code.len() as int;
                let after = self.quotient_sign(
                    cells.original_dividend,
                    cells.original_divisor,
                    cells.remain,
                    cells.result,
                    end,
                );
                &&& after.emission.code == self.emission.code + quotient_listing(u, cells)
                &&& after.emission.positions.len() == self.emission.positions.len() + 4
                &&& after.emission.positions[end] is None
                &&& after.emission.pending[end] == waiting.push((u + 5) as usize).push(
                    (u + 14) as usize,
                ).push((u + 18) as usize)
            }),
    {
        reveal(State::quotient_sign);
        let u = self.emission.code.len() as int;
        let c = cells;
        let after = self.quotient_sign(
            c.original_dividend,
            c.original_divisor,
            c.remain,
            c.result,
            end,
        );
        let (s, remain_zero) = self.fresh_label();
        let (s, dividend_neg) = s.fresh_label();
        let (s, only_divisor_neg) = s.fresh_label();
        let (s, both_neg) = s.fresh_label();
        let s = s.push(Instruction::Load(c.original_dividend.0)).jump(dividend_neg, JumpKind::Jneg);
        let s = s.push(Instruction::Load(c.original_divisor.0)).jump(
            only_divisor_neg,
            JumpKind::Jneg,
        );
        lemma_patch_one(s.emission.code, 0, (u + 4) as u64);
        let s = s.mark(both_neg).push(Instruction::Load(c.result.0)).jump(end, JumpKind::Jump);
        assert(s.emission.pending[dividend_neg] =~= Seq::<usize>::empty().push((u + 1) as usize));
        lemma_patch_one(s.emission.code, (u + 1) as usize, (u + 6) as u64);
        let s = s.mark(dividend_neg).push(Instruction::Load(c.original_divisor.0)).jump(
            both_neg,
            JumpKind::Jneg,
        );
        assert(s.emission.pending[only_divisor_neg] =~= Seq::<usize>::empty().push(
            (u + 3) as usize,
        ));
        lemma_patch_one(s.emission.code, (u + 3) as usize, (u + 8) as u64);
        let s = s.mark(only_divisor_neg).push(Instruction::Load(c.remain.0)).jump(
            remain_zero,
            JumpKind::Jzero,
        );
        let s = s.push(Instruction::Load(c.result.0)).neg(c.result).push(Instruction::Dec).jump(
            end,
            JumpKind::Jump,
        );
        assert(s.emission.pending[remain_zero] =~= Seq::<usize>::empty().push((u + 9) as usize));
        lemma_patch_one(s.emission.code, (u + 9) as usize, (u + 15) as u64);
        assert(after.emission.code =~= self.emission.code + quotient_listing(u, cells));
        assert(after.emission.pending[end] =~= waiting.push((u + 5) as usize).push(
            (u + 14) as usize,
        ).push((u + 18) as usize));
    }

    #[verifier::rlimit(100)]
    pub proof fn lemma_remainder_sign_listing(
        self,
        cells: DivisionCells,
        end: int,
        waiting: Seq<usize>,
    )
        requires
            self.emission.code.len() + 70 <= usize::MAX,
            self.emission.positions.len() == self.emission.pending.len(),
            self.emission.fresh(end),
            self.emission.pending[end] == waiting,
        ensures
            ({
                let u = self.emission.code.len() as int;
                let after = self.remainder_sign(
                    cells.original_dividend,
                    cells.original_divisor,
                    cells.remain,
                    end,
                );
                &&& after.emission.code == self.emission.code + remainder_listing(
                    u,
                    cells,
                    self.temp("neg"@).1,
                )
                &&& after.emission.positions.len() == self.emission.positions.len() + 3
                &&& after.emission.positions[end] is None
                &&& after.emission.pending[end] == waiting.push((u + 1) as usize).push(
                    (u + 7) as usize,
                ).push((u + 15) as usize).push((u + 18) as usize).push((u + 22) as usize)
            }),
    {
        reveal(State::remainder_sign);
        let u = self.emission.code.len() as int;
        let c = cells;
        let after = self.remainder_sign(c.original_dividend, c.original_divisor, c.remain, end);
        let (s, dividend_neg) = self.fresh_label();
        let (s, only_divisor_neg) = s.fresh_label();
        let (s, both_neg) = s.fresh_label();
        let s = s.push(Instruction::Load(c.remain.0)).jump(end, JumpKind::Jzero);
        let s = s.push(Instruction::Load(c.original_dividend.0)).jump(dividend_neg, JumpKind::Jneg);
        let s = s.push(Instruction::Load(c.original_divisor.0)).jump(
            only_divisor_neg,
            JumpKind::Jneg,
        );
        let s = s.push(Instruction::Load(c.remain.0)).jump(end, JumpKind::Jump);
        assert(s.emission.pending[dividend_neg] =~= Seq::<usize>::empty().push((u + 3) as usize));
        lemma_patch_one(s.emission.code, (u + 3) as usize, (u + 8) as u64);
        let s = s.mark(dividend_neg).push(Instruction::Load(c.original_divisor.0)).jump(
            both_neg,
            JumpKind::Jneg,
        );
        let s = s.push(Instruction::Load(c.remain.0)).push(
            Instruction::Sub(c.original_divisor.0),
        ).neg_tmp().jump(end, JumpKind::Jump);
        assert(s.emission.pending[only_divisor_neg] =~= Seq::<usize>::empty().push(
            (u + 5) as usize,
        ));
        lemma_patch_one(s.emission.code, (u + 5) as usize, (u + 16) as u64);
        let s = s.mark(only_divisor_neg).push(Instruction::Load(c.remain.0)).push(
            Instruction::Add(c.original_divisor.0),
        ).jump(end, JumpKind::Jump);
        assert(s.emission.pending[both_neg] =~= Seq::<usize>::empty().push((u + 9) as usize));
        lemma_patch_one(s.emission.code, (u + 9) as usize, (u + 19) as u64);
        assert(after.emission.code =~= self.emission.code + remainder_listing(
            u,
            cells,
            self.temp("neg"@).1,
        ));
        assert(after.emission.pending[end] =~= waiting.push((u + 1) as usize).push(
            (u + 7) as usize,
        ).push((u + 15) as usize).push((u + 18) as usize).push((u + 22) as usize));
    }
}

/// The places of a division's code and of the cells it works on.
pub struct DivisionFrame {
    /// Where the code starts.
    pub base: int,
    /// Whether the code is for a quotient; else it is for a remainder.
    pub div: bool,
    /// The cell of the dividend.
    pub x: u64,
    /// The cell of the divisor.
    pub y: u64,
    pub cells: DivisionCells,
    /// The scratch cell of the negation.
    pub neg: MemoryLocation,
}

impl DivisionFrame {
    /// The number of instructions of the code.
    pub open spec fn length(self) -> int {
        if self.div {
            62
        } else {
            66
        }
    }

    /// The code for the quotient or the remainder of two operands read from one cell each, as it
    /// stands in the target program from `base` on.
    pub open spec fn listing(self) -> Seq<Instruction> {
        let p = self.base;
        let c = self.cells;
        let end = (p + self.length()) as u64;
        setup_listing(p, self.x, self.y, c).update(8, Instruction::Jzero(end)).update(
            19,
            Instruction::Jump((p + 26) as u64),
        ) + scaling_listing(p + 20, c) + subtracting_listing(p + 28, c).update(
            9,
            Instruction::Jzero((p + 43) as u64),
        ) + if self.div {
            quotient_listing(p + 43, c).update(5, Instruction::Jump(end)).update(
                14,
                Instruction::Jump(end),
            ).update(18, Instruction::Jump(end))
        } else {
            remainder_listing(p + 43, c, self.neg).update(1, Instruction::Jzero(end)).update(
                7,
                Instruction::Jump(end),
            ).update(15, Instruction::Jump(end)).update(18, Instruction::Jump(end)).update(
                22,
                Instruction::Jump(end),
            )
        }
    }
}

impl State {
    /// The places of the code for the quotient or the remainder of two
    /// operands read from one cell each, and of the cells it works on.
    pub open spec fn division_frame(self, left: Access, right: Access, div: bool) -> DivisionFrame {
        let (s, original_dividend) = self.temp("original_dividend"@);
        let (s, original_divisor) = s.temp("original_divisor"@);
        let (s, dividend_abs) = s.temp("dividend_abs"@);
        let (s, scaled_divisor) = s.temp("scaled_divisor"@);
        let (s, remain) = s.temp("remain"@);
        let (s, result) = s.temp("div_result"@);
        let (s, multiple) = s.temp("div_multiple"@);
        let cells = DivisionCells {
            original_dividend,
            original_divisor,
            dividend_abs,
            scaled_divisor,
            remain,
            result,
            multiple,
            one: self.constant_location(1),
            minus_one: self.constant_location(-1i64),
        };
        DivisionFrame {
            base: self.emission.code.len() + s.division_head(left, right, cells).len() - 8,
            div,
            x: s.address(left).0.0,
            y: s.address(right).0.0,
            cells,
            neg: s.temp("neg"@).1,
        }
    }

    /// The code that loads the operands of a division and saves the
    /// dividend, as it stands in front of the frame's ninth place.
    pub open spec fn division_loads(self, left: Access, right: Access, div: bool) -> Seq<
        Instruction,
    > {
        let (s, _) = self.temp("original_dividend"@);
        let (s, _) = s.temp("original_divisor"@);
        let (s, _) = s.temp("dividend_abs"@);
        let (s, _) = s.temp("scaled_divisor"@);
        let (s, _) = s.temp("remain"@);
        let (s, _) = s.temp("div_result"@);
        let (s, _) = s.temp("div_multiple"@);
        s.division_head(left, right, self.division_frame(left, right, div).cells)
    }

    /// The code for a quotient or a remainder without a shortcut is the
    /// code that loads the operands and saves the dividend and, behind
    /// it, the listing of [`DivisionFrame::listing`] from its ninth
    /// instruction on.
    #[verifier::rlimit(100)]
    pub proof fn lemma_div_mod_code(self, left: Access, right: Access, div: bool)
        requires
            self.div_mod_literal(left, right, div) is None,
            self.emission.code.len() + 140 <= usize::MAX,
            self.emission.positions.len() == self.emission.pending.len(),
        ensures
            self.div_mod(left, right, div).emission.code == self.emission.code + (
            self.division_loads(left, right, div) + self.division_frame(
                left,
                right,
                div,
            ).listing().subrange(8, self.division_frame(left, right, div).length())),
            8 <= self.division_loads(left, right, div).len() <= 12,
    {
        let frame = self.division_frame(left, right, div);
        let head = self.division_loads(left, right, div);
        let p = frame.base;
        let front = self.emission.code + head;
        let tail = frame.listing().subrange(8, frame.length());
        let (s, while_condition) = self.fresh_label();
        let (s, while_body) = s.fresh_label();
        let (s, after_if) = s.fresh_label();
        let (s, do_body) = s.fresh_label();
        let (s, after_do) = s.fresh_label();
        let (s, end) = s.fresh_label();
        let one = s.constant_location(1);
        let minus_one = s.constant_location(-1i64);
        let labelled = s;
        let (s, original_dividend) = s.temp("original_dividend"@);
        let (s, original_divisor) = s.temp("original_divisor"@);
        let (s, dividend_abs) = s.temp("dividend_abs"@);
        let (s, scaled_divisor) = s.temp("scaled_divisor"@);
        let (s, remain) = s.temp("remain"@);
        let (s, result) = s.temp("div_result"@);
        let (s, multiple) = s.temp("div_multiple"@);
        let cells = DivisionCells {
            original_dividend,
            original_divisor,
            dividend_abs,
            scaled_divisor,
            remain,
            result,
            multiple,
            one,
            minus_one,
        };
        assert(cells == frame.cells);
        assert(s.address(left).0.0 == frame.x);
        assert(s.address(right).0.0 == frame.y);
        assert(s.emission == labelled.emission);
        assert(s.division_head(left, right, cells) == head);
        s.lemma_division_setup_code(left, right, cells, end, while_condition);
        let s1 = s.division_setup(left, right, cells, end, while_condition);
        let c1 = s1.emission.code;
        assert(c1 =~= front + setup_listing(p, 0, 0, cells).subrange(8, 20));
        assert(c1.len() == p + 20);
        s1.lemma_division_scaling_listing(cells, while_body, while_condition, (p + 19) as usize);
        let s2 = s1.division_scaling(cells, while_body, while_condition);
        let c2 = s2.emission.code;
        assert(c2.len() == p + 28);
        s2.lemma_division_subtracting_listing(cells, do_body, after_if, after_do);
        let s3 = s2.division_subtracting(cells, do_body, after_if, after_do);
        let c3 = s3.emission.code;
        assert(c3.len() == p + 43);
        lemma_patch_one(c3, (p + 37) as usize, (p + 43) as u64);
        let s4 = s3.mark(after_do);
        let c4 = s4.emission.code;
        assert(c4 == c3.update(p + 37, Instruction::Jzero((p + 43) as u64)));
        let waiting = Seq::<usize>::empty().push((p + 8) as usize);
        assert(s4.emission.pending[end] == waiting);
        assert(s4.temp("neg"@).1 == frame.neg);
        let target = (p + frame.length()) as u64;
        if div {
            s4.lemma_quotient_sign_listing(cells, end, waiting);
            let s5 = s4.quotient_sign(original_dividend, original_divisor, remain, result, end);
            let c5 = s5.emission.code;
            assert(c5.len() == p + 62);
            let w1 = waiting.push((p + 48) as usize);
            let w2 = w1.push((p + 57) as usize);
            lemma_patch_one(c5, (p + 8) as usize, target);
            lemma_patch_push(c5, waiting, (p + 48) as usize, target);
            lemma_patch_push(c5, w1, (p + 57) as usize, target);
            lemma_patch_push(c5, w2, (p + 61) as usize, target);
            let s6 = s5.mark(end);
            assert(self.div_mod(left, right, div) == s6);
            assert(s6.emission.code =~= front + tail);
            assert(front + tail =~= self.emission.code + (head + tail));
        } else {
            s4.lemma_remainder_sign_listing(cells, end, waiting);
            let s5 = s4.remainder_sign(original_dividend, original_divisor, remain, end);
            let c5 = s5.emission.code;
            assert(c5.len() == p + 66);
            let w1 = waiting.push((p + 44) as usize);
            let w2 = w1.push((p + 50) as usize);
            let w3 = w2.push((p + 58) as usize);
            let w4 = w3.push((p + 61) as usize);
            lemma_patch_one(c5, (p + 8) as usize, target);
            lemma_patch_push(c5, waiting, (p + 44) as usize, target);
            lemma_patch_push(c5, w1, (p + 50) as usize, target);
            lemma_patch_push(c5, w2, (p + 58) as usize, target);
            lemma_patch_push(c5, w3, (p + 61) as usize, target);
            lemma_patch_push(c5, w4, (p + 65) as usize, target);
            let s6 = s5.mark(end);
            assert(self.div_mod(left, right, div) == s6);
            assert(s6.emission.code =~= front + tail);
            assert(front + tail =~= self.emission.code + (head + tail));
        }
    }

    /// The code for the quotient or the remainder of two operands read
    /// from one cell each, neither of them a literal with a shortcut, is
    /// the listing of [`DivisionFrame::listing`].
    #[verifier::rlimit(100)]
    pub proof fn lemma_div_mod_listing(self, left: Access, right: Access, div: bool)
        requires
            is_direct(left),
            is_direct(right),
            self.div_mod_literal(left, right, div) is None,
            self.emission.code.len() + 140 <= usize::MAX,
            self.emission.positions.len() == self.emission.pending.len(),
        ensures
            self.division_frame(left, right, div).base == self.emission.code.len(),
            self.div_mod(left, right, div).emission.code == self.emission.code
                + self.division_frame(left, right, div).listing(),
    {
        let frame = self.division_frame(left, right, div);
        let head = self.division_loads(left, right, div);
        self.lemma_div_mod_code(left, right, div);
        assert(head =~= frame.listing().subrange(0, 8));
        assert(head + frame.listing().subrange(8, frame.length()) =~= frame.listing());
    }
}

impl DivisionFrame {
    /// The cells that the code writes to.
    pub open spec fn scratch(self) -> Set<int> {
        let c = self.cells;
        set![
            0int,
            c.original_dividend.0 as int,
            c.original_divisor.0 as int,
            c.dividend_abs.0 as int,
            c.scaled_divisor.0 as int,
            c.remain.0 as int,
            c.result.0 as int,
            c.multiple.0 as int,
            self.neg.0 as int,
        ]
    }

    /// The cells are addresses, the scratch cells are apart from each
    /// other, and the operands and the two literals are no scratch cells.
    #[verifier::opaque]
    pub open spec fn apart(self) -> bool {
        let c = self.cells;
        let cells = seq![
            0u64,
            c.original_dividend.0,
            c.original_divisor.0,
            c.dividend_abs.0,
            c.scaled_divisor.0,
            c.remain.0,
            c.result.0,
            c.multiple.0,
            self.neg.0,
        ];
        &&& 0 <= self.base
        &&& self.base + 70 <= u64::MAX
        &&& is_address(self.x as int) && is_address(self.y as int)
        &&& is_address(c.one.0 as int) && is_address(c.minus_one.0 as int)
        &&& forall|i: int| 0 <= i < 9 ==> is_address(#[trigger] cells[i] as int)
        &&& forall|i: int, j: int| 0 <= i < j < 9 ==> #[trigger] cells[i] != #[trigger] cells[j]
        &&& !self.scratch().contains(self.x as int)
        &&& !self.scratch().contains(self.y as int)
        &&& !self.scratch().contains(c.one.0 as int)
        &&& !self.scratch().contains(c.minus_one.0 as int)
    }

    /// The scratch cells are addresses and differ from each other.
    #[verifier::rlimit(100)]
    pub proof fn lemma_apart(self)
        requires
            self.apart(),
        ensures
            ({
                let c = self.cells;
                let od = c.original_dividend.0;
                let ov = c.original_divisor.0;
                let da = c.dividend_abs.0;
                let sd = c.scaled_divisor.0;
                let rm = c.remain.0;
                let rs = c.result.0;
                let mu = c.multiple.0;
                let ng = self.neg.0;
                &&& 0 <= self.base
                &&& self.base + 70 <= u64::MAX
                &&& is_address(self.x as int) && is_address(self.y as int)
                &&& is_address(c.one.0 as int) && is_address(c.minus_one.0 as int)
                &&& !self.scratch().contains(self.x as int)
                &&& !self.scratch().contains(self.y as int)
                &&& !self.scratch().contains(c.one.0 as int)
                &&& !self.scratch().contains(c.minus_one.0 as int)
                &&& is_address(od as int) && is_address(ov as int) && is_address(da as int)
                &&& is_address(sd as int) && is_address(rm as int) && is_address(rs as int)
                &&& is_address(mu as int) && is_address(ng as int)
                &&& od != 0 && ov != 0 && da != 0 && sd != 0 && rm != 0 && rs != 0 && mu != 0 && ng
                    != 0
                &&& od != ov && od != da && od != sd && od != rm && od != rs && od != mu && od != ng
                &&& ov != da && ov != sd && ov != rm && ov != rs && ov != mu && ov != ng
                &&& da != sd && da != rm && da != rs && da != mu && da != ng
                &&& sd != rm && sd != rs && sd != mu && sd != ng
                &&& rm != rs && rm != mu && rm != ng
                &&& rs != mu && rs != ng
                &&& mu != ng
            }),
    {
        reveal(DivisionFrame::apart);
        let c = self.cells;
        let cells = seq![
            0u64,
            c.original_dividend.0,
            c.original_divisor.0,
            c.dividend_abs.0,
            c.scaled_divisor.0,
            c.remain.0,
            c.result.0,
            c.multiple.0,
            self.neg.0,
        ];
        assert(cells[0] == 0 && cells[1] == c.original_dividend.0 && cells[2]
            == c.original_divisor.0 && cells[3] == c.dividend_abs.0 && cells[4]
            == c.scaled_divisor.0 && cells[5] == c.remain.0 && cells[6] == c.result.0 && cells[7]
            == c.multiple.0 && cells[8] == self.neg.0);
    }

    /// The code stands in the program, and the two literals are in their
    /// cells.
    pub open spec fn placed(self, program: Seq<Instruction>, m: Machine) -> bool {
        &&& self.apart()
        &&& m.wf()
        &&& self.base + self.length() <= program.len()
        &&& program.subrange(self.base, self.base + self.length()) == self.listing()
        &&& m.memory.contains_key(self.cells.one.0 as int)
        &&& m.memory[self.cells.one.0 as int] == 1
        &&& m.memory.contains_key(self.cells.minus_one.0 as int)
        &&& m.memory[self.cells.minus_one.0 as int] == -1
    }

    /// The code from its ninth instruction on stands in the program.
    pub open spec fn tail_stands(self, program: Seq<Instruction>) -> bool {
        &&& self.base + self.length() <= program.len()
        &&& program.subrange(self.base + 8, self.base + self.length()) == self.listing().subrange(
            8,
            self.length(),
        )
    }

    /// The code from its ninth instruction on stands in the program, and
    /// the two literals are in their cells. The first eight instructions
    /// load the operands and save the dividend.
    pub open spec fn seated(self, program: Seq<Instruction>, m: Machine) -> bool {
        &&& self.apart()
        &&& m.wf()
        &&& self.tail_stands(program)
        &&& m.memory.contains_key(self.cells.one.0 as int)
        &&& m.memory[self.cells.one.0 as int] == 1
        &&& m.memory.contains_key(self.cells.minus_one.0 as int)
        &&& m.memory[self.cells.minus_one.0 as int] == -1
    }

    /// The instruction at place `k` of code that stands in the program as
    /// a whole.
    #[verifier::rlimit(100)]
    pub proof fn lemma_whole_at(self, program: Seq<Instruction>, k: int)
        requires
            0 <= self.base,
            self.base + self.length() <= program.len(),
            program.subrange(self.base, self.base + self.length()) == self.listing(),
            0 <= k < self.length(),
        ensures
            program[self.base + k] == self.listing()[k],
    {
        assert(program.subrange(self.base, self.base + self.length())[k] == program[self.base
            + k]);
    }

    /// Code that stands in the program as a whole stands there from its
    /// ninth instruction on.
    #[verifier::rlimit(100)]
    pub proof fn lemma_tail_stands(self, program: Seq<Instruction>)
        requires
            0 <= self.base,
            self.base + self.length() <= program.len(),
            program.subrange(self.base, self.base + self.length()) == self.listing(),
        ensures
            self.tail_stands(program),
    {
        assert(program.subrange(self.base + 8, self.base + self.length())
            =~= self.listing().subrange(8, self.length())) by {
            assert forall|k: int| 8 <= k < self.length() implies program[self.base + k]
                == self.listing()[k] by {
                self.lemma_whole_at(program, k);
            }
        }
    }

    /// The instruction at place `k` of the code, from the ninth on.
    #[verifier::rlimit(100)]
    pub proof fn lemma_at(self, program: Seq<Instruction>, k: int)
        requires
            0 <= self.base,
            self.tail_stands(program),
            8 <= k < self.length(),
        ensures
            program[self.base + k] == self.listing()[k],
    {
        assert(program.subrange(self.base + 8, self.base + self.length())[k - 8] == program[self.base
            + k]);
        assert(self.listing().subrange(8, self.length())[k - 8] == self.listing()[k]);
    }

    /// What the code has in common with the machine while it runs behind
    /// its first eight instructions.
    pub open spec fn running(
        self,
        program: Seq<Instruction>,
        m: Machine,
        place: int,
    ) -> bool {
        &&& self.seated(program, m)
        &&& m.ip == self.base + place
        &&& m.cost + 200 <= u64::MAX
    }

    /// What holds behind the first eight instructions: the dividend is
    /// saved, its absolute value kept twice, and the divisor is in the
    /// accumulator.
    pub open spec fn at_divisor(self, program: Seq<Instruction>, m: Machine, a: int, b: int) -> bool {
        let c = self.cells;
        &&& self.seated(program, m)
        &&& m.ip == self.base + 8
        &&& m.acc() == b
        &&& m.memory.contains_key(c.original_dividend.0 as int)
        &&& m.memory[c.original_dividend.0 as int] == a
        &&& m.memory.contains_key(c.dividend_abs.0 as int)
        &&& m.memory[c.dividend_abs.0 as int] == magnitude(a)
        &&& m.memory.contains_key(c.remain.0 as int)
        &&& m.memory[c.remain.0 as int] == magnitude(a)
    }

    /// A divisor of 0 leaves for the end with 0 in the accumulator.
    #[verifier::rlimit(100)]
    pub proof fn lemma_zero_divisor(self, m: Machine, program: Seq<Instruction>, extended: bool)
        requires
            self.running(program, m, 8),
        ensures
            m.steps(program, extended, 1) == (
                Machine {
                    ip: if m.acc() == 0 {
                        (self.base + self.length()) as nat
                    } else {
                        (self.base + 9) as nat
                    },
                    cost: m.cost + 1,
                    ..m
                },
                crate::interpreter::Status::Running,
            ),
    {
        self.lemma_apart();
        self.lemma_at(program, 8);
        m.lemma_doing(program, extended, Instruction::Jzero((self.base + self.length()) as u64));
    }

    /// The first eight instructions of code that stands in the program as
    /// a whole: the operands are loaded and the dividend is saved.
    #[verifier::rlimit(100)]
    pub proof fn lemma_head(
        self,
        m: Machine,
        program: Seq<Instruction>,
        extended: bool,
        a: int,
        b: int,
    ) -> (n: nat)
        requires
            self.placed(program, m),
            m.ip == self.base,
            m.memory.contains_key(self.x as int),
            m.memory[self.x as int] == a,
            m.memory.contains_key(self.y as int),
            m.memory[self.y as int] == b,
            m.cost + 300 <= u64::MAX,
        ensures
            ({
                let (after, status) = m.steps(program, extended, n);
                &&& status is Running
                &&& self.at_divisor(program, after, a, b)
                &&& agrees(m, after, self.scratch())
                &&& after.cost <= m.cost + 200
                &&& after.input == m.input
                &&& after.output == m.output
            }),
    {
        let c = self.cells;
        self.lemma_apart();
        self.lemma_tail_stands(program);
        self.lemma_whole_at(program, 0);
        self.lemma_whole_at(program, 7);
        m.lemma_doing(program, extended, Instruction::Load(self.x));
        let m1 = m.steps(program, extended, 1).0;
        assert(program.subrange(self.base + 1, self.base + 7) =~= setup_listing(
            self.base,
            0,
            0,
            c,
        ).subrange(1, 7)) by {
            assert forall|k: int| 1 <= k < 7 implies program[self.base + k] == setup_listing(
                self.base,
                0,
                0,
                c,
            )[k] by {
                self.lemma_whole_at(program, k);
            }
        }
        let n2 = lemma_saved(m1, program, extended, self.base, c);
        m.lemma_steps_add(program, extended, 1, n2);
        let m2 = m.steps(program, extended, 1 + n2).0;
        m2.lemma_doing(program, extended, Instruction::Load(self.y));
        m.lemma_steps_add(program, extended, 1 + n2, 1);
        let m3 = m.steps(program, extended, 2 + n2).0;
        assert(agrees(m, m3, self.scratch()));
        2 + n2
    }

    /// The divisor is saved and its absolute value taken.
    #[verifier::rlimit(100)]
    pub proof fn lemma_divisor_abs(self, m: Machine, program: Seq<Instruction>, extended: bool) -> (n:
        nat)
        requires
            self.running(program, m, 9),
        ensures
            ({
                let (after, status) = m.steps(program, extended, n);
                &&& status is Running
                &&& after == Machine {
                    ip: (self.base + 13) as nat,
                    cost: after.cost,
                    memory: m.memory.insert(0, magnitude(m.acc())).insert(
                        self.cells.original_divisor.0 as int,
                        m.acc(),
                    ),
                    ..m
                }
                &&& after.cost <= m.cost + 100
            }),
    {
        let c = self.cells;
        let b = m.acc();
        self.lemma_apart();
        self.lemma_at(program, 9);
        self.lemma_at(program, 10);
        self.lemma_at(program, 11);
        self.lemma_at(program, 12);
        lemma_run2(
            m,
            program,
            extended,
            Instruction::Store(c.original_divisor.0),
            Instruction::Jpos((self.base + 13) as u64),
        );
        let m2 = m.steps(program, extended, 2).0;
        if b > 0 {
            assert(m2.memory =~= m.memory.insert(0, magnitude(b)).insert(
                c.original_divisor.0 as int,
                b,
            ));
            2
        } else {
            lemma_run2(
                m2,
                program,
                extended,
                Instruction::Sub(c.original_divisor.0),
                Instruction::Sub(c.original_divisor.0),
            );
            m.lemma_steps_add(program, extended, 2, 2);
            let m4 = m.steps(program, extended, 4).0;
            assert(m4.memory =~= m.memory.insert(0, magnitude(b)).insert(
                c.original_divisor.0 as int,
                b,
            ));
            4
        }
    }

    /// The scaled divisor, the quotient and the multiple are set.
    #[verifier::rlimit(100)]
    pub proof fn lemma_start(self, m: Machine, program: Seq<Instruction>, extended: bool)
        requires
            self.running(program, m, 13),
        ensures
            ({
                let (after, status) = m.steps(program, extended, 7);
                &&& status is Running
                &&& after == Machine {
                    ip: (self.base + 26) as nat,
                    cost: m.cost + 52,
                    memory: m.memory.insert(self.cells.scaled_divisor.0 as int, m.acc()).insert(
                        self.cells.result.0 as int,
                        0,
                    ).insert(self.cells.multiple.0 as int, 1).insert(0, m.acc()),
                    ..m
                }
            }),
    {
        let c = self.cells;
        self.lemma_apart();
        self.lemma_at(program, 13);
        self.lemma_at(program, 14);
        self.lemma_at(program, 15);
        self.lemma_at(program, 16);
        self.lemma_at(program, 17);
        self.lemma_at(program, 18);
        self.lemma_at(program, 19);
        lemma_run5(
            m,
            program,
            extended,
            Instruction::Store(c.scaled_divisor.0),
            Instruction::Sub(0),
            Instruction::Store(c.result.0),
            Instruction::Inc,
            Instruction::Store(c.multiple.0),
        );
        let m5 = m.steps(program, extended, 5).0;
        lemma_run2(
            m5,
            program,
            extended,
            Instruction::Load(c.scaled_divisor.0),
            Instruction::Jump((self.base + 26) as u64),
        );
        m.lemma_steps_add(program, extended, 5, 2);
        let after = m.steps(program, extended, 7).0;
        assert(after.memory =~= m.memory.insert(c.scaled_divisor.0 as int, m.acc()).insert(
            c.result.0 as int,
            0,
        ).insert(c.multiple.0 as int, 1).insert(0, m.acc()));
    }

    /// The cells of the two loops.
    pub open spec fn working(self) -> Set<int> {
        let c = self.cells;
        set![
            0int,
            c.scaled_divisor.0 as int,
            c.remain.0 as int,
            c.result.0 as int,
            c.multiple.0 as int,
        ]
    }

    /// The test of the scaling loop: the scaled divisor against the
    /// dividend.
    #[verifier::rlimit(100)]
    pub proof fn lemma_scale_test(self, m: Machine, program: Seq<Instruction>, extended: bool)
        requires
            self.running(program, m, 26),
            m.memory.contains_key(self.cells.dividend_abs.0 as int),
        ensures
            ({
                let (after, status) = m.steps(program, extended, 2);
                let rest = m.acc() - m.memory[self.cells.dividend_abs.0 as int];
                &&& status is Running
                &&& after == Machine {
                    ip: if rest < 0 {
                        (self.base + 20) as nat
                    } else {
                        (self.base + 28) as nat
                    },
                    cost: m.cost + 11,
                    memory: m.memory.insert(0, rest),
                    ..m
                }
            }),
    {
        let c = self.cells;
        self.lemma_apart();
        self.lemma_at(program, 26);
        self.lemma_at(program, 27);
        lemma_run2(
            m,
            program,
            extended,
            Instruction::Sub(c.dividend_abs.0),
            Instruction::Jneg((self.base + 20) as u64),
        );
    }

    /// One turn of the scaling loop: the multiple and the scaled divisor
    /// are doubled.
    #[verifier::rlimit(100)]
    pub proof fn lemma_scale_double(self, m: Machine, program: Seq<Instruction>, extended: bool)
        requires
            self.running(program, m, 20),
            m.memory.contains_key(self.cells.multiple.0 as int),
            m.memory.contains_key(self.cells.scaled_divisor.0 as int),
        ensures
            ({
                let (after, status) = m.steps(program, extended, 6);
                let multiple = m.memory[self.cells.multiple.0 as int] * 2;
                let divisor = m.memory[self.cells.scaled_divisor.0 as int] * 2;
                &&& status is Running
                &&& after == Machine {
                    ip: (self.base + 26) as nat,
                    cost: m.cost + 50,
                    memory: m.memory.insert(self.cells.multiple.0 as int, multiple).insert(
                        self.cells.scaled_divisor.0 as int,
                        divisor,
                    ).insert(0, divisor),
                    ..m
                }
            }),
    {
        let c = self.cells;
        lemma2_to64();
        self.lemma_apart();
        self.lemma_at(program, 20);
        self.lemma_at(program, 21);
        self.lemma_at(program, 22);
        self.lemma_at(program, 23);
        self.lemma_at(program, 24);
        self.lemma_at(program, 25);
        lemma_run3(
            m,
            program,
            extended,
            Instruction::Load(c.multiple.0),
            Instruction::Shift(c.one.0),
            Instruction::Store(c.multiple.0),
        );
        let m3 = m.steps(program, extended, 3).0;
        lemma_run3(
            m3,
            program,
            extended,
            Instruction::Load(c.scaled_divisor.0),
            Instruction::Shift(c.one.0),
            Instruction::Store(c.scaled_divisor.0),
        );
        m.lemma_steps_add(program, extended, 3, 3);
        let after = m.steps(program, extended, 6).0;
        let multiple = m.memory[c.multiple.0 as int] * 2;
        let divisor = m.memory[c.scaled_divisor.0 as int] * 2;
        assert(after.memory =~= m.memory.insert(c.multiple.0 as int, multiple).insert(
            c.scaled_divisor.0 as int,
            divisor,
        ).insert(0, divisor));
    }

    /// The scaling loop: it leaves the scaled divisor and the multiple as
    /// [`scaled`] gives them.
    #[verifier::rlimit(100)]
    pub proof fn lemma_scaling(
        self,
        m: Machine,
        program: Seq<Instruction>,
        extended: bool,
        divisor: int,
        multiple: int,
        dividend: int,
    ) -> (n: nat)
        requires
            self.seated(program, m),
            m.ip == self.base + 26,
            divisor > 0,
            m.acc() == divisor,
            m.memory.contains_key(self.cells.scaled_divisor.0 as int),
            m.memory[self.cells.scaled_divisor.0 as int] == divisor,
            m.memory.contains_key(self.cells.multiple.0 as int),
            m.memory[self.cells.multiple.0 as int] == multiple,
            m.memory.contains_key(self.cells.dividend_abs.0 as int),
            m.memory[self.cells.dividend_abs.0 as int] == dividend,
            m.cost + scaling_budget(divisor, dividend) + 200 <= u64::MAX,
        ensures
            ({
                let (after, status) = m.steps(program, extended, n);
                let (top, last) = scaled(divisor, multiple, dividend);
                &&& status is Running
                &&& after == Machine {
                    ip: (self.base + 28) as nat,
                    cost: after.cost,
                    memory: m.memory.insert(self.cells.multiple.0 as int, last).insert(
                        self.cells.scaled_divisor.0 as int,
                        top,
                    ).insert(0, top - dividend),
                    ..m
                }
                &&& after.cost <= m.cost + scaling_budget(divisor, dividend)
            }),
        decreases
            if dividend > divisor {
                dividend - divisor
            } else {
                0
            },
    {
        let c = self.cells;
        self.lemma_apart();
        lemma_scaling_budget(divisor * 2, dividend);
        self.lemma_scale_test(m, program, extended);
        let t = m.steps(program, extended, 2).0;
        if divisor < dividend {
            self.lemma_scale_double(t, program, extended);
            m.lemma_steps_add(program, extended, 2, 6);
            let d = m.steps(program, extended, 8).0;
            let rest = self.lemma_scaling(d, program, extended, divisor * 2, multiple * 2, dividend);
            m.lemma_steps_add(program, extended, 8, rest);
            let (top, last) = scaled(divisor, multiple, dividend);
            let after = m.steps(program, extended, 8 + rest).0;
            assert(after.memory =~= m.memory.insert(c.multiple.0 as int, last).insert(
                c.scaled_divisor.0 as int,
                top,
            ).insert(0, top - dividend));
            8 + rest
        } else {
            assert(t.memory =~= m.memory.insert(c.multiple.0 as int, multiple).insert(
                c.scaled_divisor.0 as int,
                divisor,
            ).insert(0, divisor - dividend));
            2
        }
    }

    /// The test of the subtracting loop: whether the scaled divisor fits
    /// what remains.
    #[verifier::rlimit(100)]
    pub proof fn lemma_fit_test(self, m: Machine, program: Seq<Instruction>, extended: bool)
        requires
            self.running(program, m, 28),
            m.memory.contains_key(self.cells.remain.0 as int),
            m.memory.contains_key(self.cells.scaled_divisor.0 as int),
        ensures
            ({
                let (after, status) = m.steps(program, extended, 3);
                let rest = m.memory[self.cells.remain.0 as int]
                    - m.memory[self.cells.scaled_divisor.0 as int];
                &&& status is Running
                &&& after == Machine {
                    ip: if rest < 0 {
                        (self.base + 35) as nat
                    } else {
                        (self.base + 31) as nat
                    },
                    cost: m.cost + 21,
                    memory: m.memory.insert(0, rest),
                    ..m
                }
            }),
    {
        let c = self.cells;
        self.lemma_apart();
        self.lemma_at(program, 28);
        self.lemma_at(program, 29);
        self.lemma_at(program, 30);
        lemma_run3(
            m,
            program,
            extended,
            Instruction::Load(c.remain.0),
            Instruction::Sub(c.scaled_divisor.0),
            Instruction::Jneg((self.base + 35) as u64),
        );
        let after = m.steps(program, extended, 3).0;
        let rest = m.memory[c.remain.0 as int] - m.memory[c.scaled_divisor.0 as int];
        assert(after.memory =~= m.memory.insert(0, rest));
    }

    /// The scaled divisor fits: what is left of the dividend is stored, and
    /// the multiple is added to the quotient.
    #[verifier::rlimit(100)]
    pub proof fn lemma_fit_take(self, m: Machine, program: Seq<Instruction>, extended: bool)
        requires
            self.running(program, m, 31),
            m.memory.contains_key(self.cells.result.0 as int),
            m.memory.contains_key(self.cells.multiple.0 as int),
        ensures
            ({
                let (after, status) = m.steps(program, extended, 4);
                let sum = m.memory[self.cells.result.0 as int]
                    + m.memory[self.cells.multiple.0 as int];
                &&& status is Running
                &&& after == Machine {
                    ip: (self.base + 35) as nat,
                    cost: m.cost + 40,
                    memory: m.memory.insert(self.cells.remain.0 as int, m.acc()).insert(
                        self.cells.result.0 as int,
                        sum,
                    ).insert(0, sum),
                    ..m
                }
            }),
    {
        let c = self.cells;
        self.lemma_apart();
        self.lemma_at(program, 31);
        self.lemma_at(program, 32);
        self.lemma_at(program, 33);
        self.lemma_at(program, 34);
        lemma_run4(
            m,
            program,
            extended,
            Instruction::Store(c.remain.0),
            Instruction::Load(c.result.0),
            Instruction::Add(c.multiple.0),
            Instruction::Store(c.result.0),
        );
        let after = m.steps(program, extended, 4).0;
        let sum = m.memory[c.result.0 as int] + m.memory[c.multiple.0 as int];
        assert(after.memory =~= m.memory.insert(c.remain.0 as int, m.acc()).insert(
            c.result.0 as int,
            sum,
        ).insert(0, sum));
    }

    /// The multiple is halved and tested.
    #[verifier::rlimit(100)]
    pub proof fn lemma_halve_test(self, m: Machine, program: Seq<Instruction>, extended: bool)
        requires
            self.running(program, m, 35),
            m.memory.contains_key(self.cells.multiple.0 as int),
        ensures
            ({
                let (after, status) = m.steps(program, extended, 3);
                let half = m.memory[self.cells.multiple.0 as int] / 2;
                &&& status is Running
                &&& after == Machine {
                    ip: if half == 0 {
                        (self.base + 43) as nat
                    } else {
                        (self.base + 38) as nat
                    },
                    cost: m.cost + 16,
                    memory: m.memory.insert(0, half),
                    ..m
                }
            }),
    {
        let c = self.cells;
        lemma2_to64();
        self.lemma_apart();
        self.lemma_at(program, 35);
        self.lemma_at(program, 36);
        self.lemma_at(program, 37);
        lemma_run3(
            m,
            program,
            extended,
            Instruction::Load(c.multiple.0),
            Instruction::Shift(c.minus_one.0),
            Instruction::Jzero((self.base + 43) as u64),
        );
        let after = m.steps(program, extended, 3).0;
        let half = m.memory[c.multiple.0 as int] / 2;
        assert(after.memory =~= m.memory.insert(0, half));
    }

    /// The halved multiple is stored, the scaled divisor halved, and the
    /// loop starts again.
    #[verifier::rlimit(100)]
    pub proof fn lemma_halve_store(self, m: Machine, program: Seq<Instruction>, extended: bool)
        requires
            self.running(program, m, 38),
            m.memory.contains_key(self.cells.scaled_divisor.0 as int),
        ensures
            ({
                let (after, status) = m.steps(program, extended, 5);
                let half = m.memory[self.cells.scaled_divisor.0 as int] / 2;
                &&& status is Running
                &&& after == Machine {
                    ip: (self.base + 28) as nat,
                    cost: m.cost + 36,
                    memory: m.memory.insert(self.cells.multiple.0 as int, m.acc()).insert(
                        self.cells.scaled_divisor.0 as int,
                        half,
                    ).insert(0, half),
                    ..m
                }
            }),
    {
        let c = self.cells;
        lemma2_to64();
        self.lemma_apart();
        self.lemma_at(program, 38);
        self.lemma_at(program, 39);
        self.lemma_at(program, 40);
        self.lemma_at(program, 41);
        self.lemma_at(program, 42);
        lemma_run5(
            m,
            program,
            extended,
            Instruction::Store(c.multiple.0),
            Instruction::Load(c.scaled_divisor.0),
            Instruction::Shift(c.minus_one.0),
            Instruction::Store(c.scaled_divisor.0),
            Instruction::Jump((self.base + 28) as u64),
        );
        let after = m.steps(program, extended, 5).0;
        let half = m.memory[c.scaled_divisor.0 as int] / 2;
        assert(after.memory =~= m.memory.insert(c.multiple.0 as int, m.acc()).insert(
            c.scaled_divisor.0 as int,
            half,
        ).insert(0, half));
    }

    /// One turn of the subtracting loop up to the test of the halved
    /// multiple: where the scaled divisor fits what remains it is taken
    /// off and the multiple added to the quotient.
    #[verifier::rlimit(100)]
    pub proof fn lemma_turn(
        self,
        m: Machine,
        program: Seq<Instruction>,
        extended: bool,
        remain: int,
        divisor: int,
        multiple: int,
        result: int,
    ) -> (n: nat)
        requires
            self.running(program, m, 28),
            m.memory.contains_key(self.cells.remain.0 as int),
            m.memory[self.cells.remain.0 as int] == remain,
            m.memory.contains_key(self.cells.scaled_divisor.0 as int),
            m.memory[self.cells.scaled_divisor.0 as int] == divisor,
            m.memory.contains_key(self.cells.multiple.0 as int),
            m.memory[self.cells.multiple.0 as int] == multiple,
            m.memory.contains_key(self.cells.result.0 as int),
            m.memory[self.cells.result.0 as int] == result,
            m.cost + 300 <= u64::MAX,
        ensures
            ({
                let (after, status) = m.steps(program, extended, n);
                let fits = remain >= divisor;
                &&& status is Running
                &&& n <= 10
                &&& after == Machine {
                    ip: if multiple / 2 == 0 {
                        (self.base + 43) as nat
                    } else {
                        (self.base + 38) as nat
                    },
                    cost: after.cost,
                    memory: m.memory.insert(
                        self.cells.remain.0 as int,
                        if fits {
                            remain - divisor
                        } else {
                            remain
                        },
                    ).insert(
                        self.cells.result.0 as int,
                        if fits {
                            result + multiple
                        } else {
                            result
                        },
                    ).insert(0, multiple / 2),
                    ..m
                }
                &&& after.cost <= m.cost + 100
            }),
    {
        let c = self.cells;
        self.lemma_apart();
        let fits = remain >= divisor;
        self.lemma_fit_test(m, program, extended);
        let t1 = m.steps(program, extended, 3).0;
        let n2: nat = if fits {
            4
        } else {
            0
        };
        if fits {
            self.lemma_fit_take(t1, program, extended);
            m.lemma_steps_add(program, extended, 3, 4);
        }
        let t2 = m.steps(program, extended, 3 + n2).0;
        self.lemma_halve_test(t2, program, extended);
        m.lemma_steps_add(program, extended, 3 + n2, 3);
        let t3 = m.steps(program, extended, 6 + n2).0;
        assert(t3.memory =~= m.memory.insert(
            c.remain.0 as int,
            if fits {
                remain - divisor
            } else {
                remain
            },
        ).insert(
            c.result.0 as int,
            if fits {
                result + multiple
            } else {
                result
            },
        ).insert(0, multiple / 2));
        6 + n2
    }

    /// The subtracting loop: it leaves quotient and remainder as
    /// [`subtracted`] gives them, and changes no cell but its own.
    #[verifier::rlimit(100)]
    pub proof fn lemma_subtracting(
        self,
        m: Machine,
        program: Seq<Instruction>,
        extended: bool,
        remain: int,
        divisor: int,
        multiple: int,
        result: int,
    ) -> (n: nat)
        requires
            self.seated(program, m),
            m.ip == self.base + 28,
            multiple >= 1,
            m.memory.contains_key(self.cells.remain.0 as int),
            m.memory[self.cells.remain.0 as int] == remain,
            m.memory.contains_key(self.cells.scaled_divisor.0 as int),
            m.memory[self.cells.scaled_divisor.0 as int] == divisor,
            m.memory.contains_key(self.cells.multiple.0 as int),
            m.memory[self.cells.multiple.0 as int] == multiple,
            m.memory.contains_key(self.cells.result.0 as int),
            m.memory[self.cells.result.0 as int] == result,
            m.cost + subtracting_budget(multiple) + 200 <= u64::MAX,
        ensures
            ({
                let (after, status) = m.steps(program, extended, n);
                let (quotient, rest) = subtracted(remain, divisor, multiple, result);
                &&& status is Running
                &&& after.wf()
                &&& after.ip == self.base + 43
                &&& after.memory.contains_key(self.cells.result.0 as int)
                &&& after.memory[self.cells.result.0 as int] == quotient
                &&& after.memory.contains_key(self.cells.remain.0 as int)
                &&& after.memory[self.cells.remain.0 as int] == rest
                &&& agrees(m, after, self.working())
                &&& after.cost <= m.cost + subtracting_budget(multiple)
                &&& after.input == m.input
                &&& after.output == m.output
            }),
        decreases multiple,
    {
        let c = self.cells;
        self.lemma_apart();
        lemma_subtracting_budget(multiple / 2);
        let fits = remain >= divisor;
        let left = if fits {
            remain - divisor
        } else {
            remain
        };
        let sum = if fits {
            result + multiple
        } else {
            result
        };
        let n3 = self.lemma_turn(m, program, extended, remain, divisor, multiple, result);
        let t3 = m.steps(program, extended, n3).0;
        assert(agrees(m, t3, self.working()));
        if multiple / 2 == 0 {
            assert(subtracted(left, divisor / 2, multiple / 2, sum) == (sum, left));
            n3
        } else {
            self.lemma_halve_store(t3, program, extended);
            m.lemma_steps_add(program, extended, n3, 5);
            let t4 = m.steps(program, extended, n3 + 5).0;
            assert(agrees(m, t4, self.working()));
            let rest = self.lemma_subtracting(
                t4,
                program,
                extended,
                left,
                divisor / 2,
                multiple / 2,
                sum,
            );
            m.lemma_steps_add(program, extended, n3 + 5, rest);
            n3 + 5 + rest
        }
    }

    /// The signs of the two operands are compared.
    #[verifier::rlimit(100)]
    pub proof fn lemma_quotient_signs(
        self,
        m: Machine,
        program: Seq<Instruction>,
        extended: bool,
        a: int,
        b: int,
    )
        requires
            self.div,
            self.running(program, m, 43),
            m.memory.contains_key(self.cells.original_dividend.0 as int),
            m.memory[self.cells.original_dividend.0 as int] == a,
            m.memory.contains_key(self.cells.original_divisor.0 as int),
            m.memory[self.cells.original_divisor.0 as int] == b,
        ensures
            ({
                let (after, status) = m.steps(program, extended, 4);
                &&& status is Running
                &&& after == Machine {
                    ip: if (a < 0) == (b < 0) {
                        (self.base + 47) as nat
                    } else {
                        (self.base + 51) as nat
                    },
                    cost: m.cost + 22,
                    memory: m.memory.insert(0, b),
                    ..m
                }
            }),
    {
        let c = self.cells;
        self.lemma_apart();
        self.lemma_at(program, 43);
        self.lemma_at(program, 44);
        self.lemma_at(program, 45);
        self.lemma_at(program, 46);
        self.lemma_at(program, 49);
        self.lemma_at(program, 50);
        lemma_run2(
            m,
            program,
            extended,
            Instruction::Load(c.original_dividend.0),
            Instruction::Jneg((self.base + 49) as u64),
        );
        let m2 = m.steps(program, extended, 2).0;
        if a < 0 {
            lemma_run2(
                m2,
                program,
                extended,
                Instruction::Load(c.original_divisor.0),
                Instruction::Jneg((self.base + 47) as u64),
            );
        } else {
            lemma_run2(
                m2,
                program,
                extended,
                Instruction::Load(c.original_divisor.0),
                Instruction::Jneg((self.base + 51) as u64),
            );
        }
        m.lemma_steps_add(program, extended, 2, 2);
        let after = m.steps(program, extended, 4).0;
        assert(after.memory =~= m.memory.insert(0, b));
    }

    /// The signs are the same: the quotient of the absolute values is the
    /// result.
    #[verifier::rlimit(100)]
    pub proof fn lemma_quotient_same(self, m: Machine, program: Seq<Instruction>, extended: bool)
        requires
            self.div,
            self.running(program, m, 47),
            m.memory.contains_key(self.cells.result.0 as int),
        ensures
            ({
                let (after, status) = m.steps(program, extended, 2);
                &&& status is Running
                &&& after == Machine {
                    ip: (self.base + 62) as nat,
                    cost: m.cost + 11,
                    memory: m.memory.insert(0, m.memory[self.cells.result.0 as int]),
                    ..m
                }
            }),
    {
        let c = self.cells;
        self.lemma_apart();
        self.lemma_at(program, 47);
        self.lemma_at(program, 48);
        lemma_run2(
            m,
            program,
            extended,
            Instruction::Load(c.result.0),
            Instruction::Jump((self.base + 62) as u64),
        );
    }

    /// The signs differ: the quotient is negated, and one is taken off
    /// where there is a remainder.
    #[verifier::rlimit(100)]
    pub proof fn lemma_quotient_differ(self, m: Machine, program: Seq<Instruction>, extended: bool) -> (n:
        nat)
        requires
            self.div,
            self.running(program, m, 51),
            m.memory.contains_key(self.cells.result.0 as int),
            m.memory.contains_key(self.cells.remain.0 as int),
        ensures
            ({
                let (after, status) = m.steps(program, extended, n);
                let quotient = m.memory[self.cells.result.0 as int];
                &&& status is Running
                &&& after == Machine {
                    ip: (self.base + 62) as nat,
                    cost: after.cost,
                    memory: m.memory.insert(
                        0,
                        if m.memory[self.cells.remain.0 as int] == 0 {
                            -quotient
                        } else {
                            -quotient - 1
                        },
                    ),
                    ..m
                }
                &&& after.cost <= m.cost + 100
            }),
    {
        let c = self.cells;
        let quotient = m.memory[c.result.0 as int];
        self.lemma_apart();
        self.lemma_at(program, 51);
        self.lemma_at(program, 52);
        self.lemma_at(program, 53);
        self.lemma_at(program, 54);
        self.lemma_at(program, 55);
        self.lemma_at(program, 56);
        self.lemma_at(program, 57);
        self.lemma_at(program, 58);
        self.lemma_at(program, 59);
        self.lemma_at(program, 60);
        self.lemma_at(program, 61);
        lemma_run2(
            m,
            program,
            extended,
            Instruction::Load(c.remain.0),
            Instruction::Jzero((self.base + 58) as u64),
        );
        let m2 = m.steps(program, extended, 2).0;
        if m.memory[c.remain.0 as int] == 0 {
            lemma_run4(
                m2,
                program,
                extended,
                Instruction::Load(c.result.0),
                Instruction::Sub(c.result.0),
                Instruction::Sub(c.result.0),
                Instruction::Jump((self.base + 62) as u64),
            );
            m.lemma_steps_add(program, extended, 2, 4);
            let after = m.steps(program, extended, 6).0;
            assert(after.memory =~= m.memory.insert(0, -quotient));
            6
        } else {
            lemma_run5(
                m2,
                program,
                extended,
                Instruction::Load(c.result.0),
                Instruction::Sub(c.result.0),
                Instruction::Sub(c.result.0),
                Instruction::Dec,
                Instruction::Jump((self.base + 62) as u64),
            );
            m.lemma_steps_add(program, extended, 2, 5);
            let after = m.steps(program, extended, 7).0;
            assert(after.memory =~= m.memory.insert(0, -quotient - 1));
            7
        }
    }

    /// A remainder of 0 leaves for the end.
    #[verifier::rlimit(100)]
    pub proof fn lemma_remainder_exact(self, m: Machine, program: Seq<Instruction>, extended: bool)
        requires
            !self.div,
            self.running(program, m, 43),
            m.memory.contains_key(self.cells.remain.0 as int),
        ensures
            ({
                let (after, status) = m.steps(program, extended, 2);
                let rest = m.memory[self.cells.remain.0 as int];
                &&& status is Running
                &&& after == Machine {
                    ip: if rest == 0 {
                        (self.base + 66) as nat
                    } else {
                        (self.base + 45) as nat
                    },
                    cost: m.cost + 11,
                    memory: m.memory.insert(0, rest),
                    ..m
                }
            }),
    {
        let c = self.cells;
        self.lemma_apart();
        self.lemma_at(program, 43);
        self.lemma_at(program, 44);
        lemma_run2(
            m,
            program,
            extended,
            Instruction::Load(c.remain.0),
            Instruction::Jzero((self.base + 66) as u64),
        );
    }

    /// The signs of the two operands pick one of the four corrections.
    #[verifier::rlimit(100)]
    pub proof fn lemma_remainder_signs(
        self,
        m: Machine,
        program: Seq<Instruction>,
        extended: bool,
        a: int,
        b: int,
    )
        requires
            !self.div,
            self.running(program, m, 45),
            m.memory.contains_key(self.cells.original_dividend.0 as int),
            m.memory[self.cells.original_dividend.0 as int] == a,
            m.memory.contains_key(self.cells.original_divisor.0 as int),
            m.memory[self.cells.original_divisor.0 as int] == b,
        ensures
            ({
                let (after, status) = m.steps(program, extended, 4);
                &&& status is Running
                &&& after == Machine {
                    ip: if a < 0 {
                        if b < 0 {
                            (self.base + 62) as nat
                        } else {
                            (self.base + 53) as nat
                        }
                    } else {
                        if b < 0 {
                            (self.base + 59) as nat
                        } else {
                            (self.base + 49) as nat
                        }
                    },
                    cost: m.cost + 22,
                    memory: m.memory.insert(0, b),
                    ..m
                }
            }),
    {
        let c = self.cells;
        self.lemma_apart();
        self.lemma_at(program, 45);
        self.lemma_at(program, 46);
        self.lemma_at(program, 47);
        self.lemma_at(program, 48);
        self.lemma_at(program, 51);
        self.lemma_at(program, 52);
        lemma_run2(
            m,
            program,
            extended,
            Instruction::Load(c.original_dividend.0),
            Instruction::Jneg((self.base + 51) as u64),
        );
        let m2 = m.steps(program, extended, 2).0;
        if a < 0 {
            lemma_run2(
                m2,
                program,
                extended,
                Instruction::Load(c.original_divisor.0),
                Instruction::Jneg((self.base + 62) as u64),
            );
        } else {
            lemma_run2(
                m2,
                program,
                extended,
                Instruction::Load(c.original_divisor.0),
                Instruction::Jneg((self.base + 59) as u64),
            );
        }
        m.lemma_steps_add(program, extended, 2, 2);
        let after = m.steps(program, extended, 4).0;
        assert(after.memory =~= m.memory.insert(0, b));
    }

    /// The correction of a remainder that is not 0, for each pair of signs.
    #[verifier::rlimit(100)]
    pub proof fn lemma_remainder_corrected(
        self,
        m: Machine,
        program: Seq<Instruction>,
        extended: bool,
        a: int,
        b: int,
    ) -> (n: nat)
        requires
            !self.div,
            self.seated(program, m),
            m.cost + 200 <= u64::MAX,
            m.ip == if a < 0 {
                if b < 0 {
                    self.base + 62
                } else {
                    self.base + 53
                }
            } else {
                if b < 0 {
                    self.base + 59
                } else {
                    self.base + 49
                }
            },
            m.memory.contains_key(self.cells.original_divisor.0 as int),
            m.memory[self.cells.original_divisor.0 as int] == b,
            m.memory.contains_key(self.cells.remain.0 as int),
        ensures
            ({
                let (after, status) = m.steps(program, extended, n);
                let rest = m.memory[self.cells.remain.0 as int];
                &&& status is Running
                &&& after.wf()
                &&& after.ip == self.base + 66
                &&& after.acc() == if a < 0 {
                    if b < 0 {
                        -rest
                    } else {
                        -(rest - b)
                    }
                } else {
                    if b < 0 {
                        rest + b
                    } else {
                        rest
                    }
                }
                &&& agrees(m, after, self.scratch())
                &&& after.cost <= m.cost + 100
                &&& after.input == m.input
                &&& after.output == m.output
            }),
    {
        let c = self.cells;
        self.lemma_apart();
        if a < 0 {
            if b < 0 {
                self.lemma_at(program, 62);
                self.lemma_at(program, 63);
                self.lemma_at(program, 64);
                self.lemma_at(program, 65);
                lemma_run4(
                    m,
                    program,
                    extended,
                    Instruction::Load(c.remain.0),
                    Instruction::Sub(c.remain.0),
                    Instruction::Sub(c.remain.0),
                    Instruction::Jump((self.base + 66) as u64),
                );
                4
            } else {
                self.lemma_at(program, 53);
                self.lemma_at(program, 54);
                self.lemma_at(program, 55);
                self.lemma_at(program, 56);
                self.lemma_at(program, 57);
                self.lemma_at(program, 58);
                lemma_run5(
                    m,
                    program,
                    extended,
                    Instruction::Load(c.remain.0),
                    Instruction::Sub(c.original_divisor.0),
                    Instruction::Store(self.neg.0),
                    Instruction::Sub(self.neg.0),
                    Instruction::Sub(self.neg.0),
                );
                let m5 = m.steps(program, extended, 5).0;
                m5.lemma_doing(program, extended, Instruction::Jump((self.base + 66) as u64));
                m.lemma_steps_add(program, extended, 5, 1);
                6
            }
        } else {
            if b < 0 {
                self.lemma_at(program, 59);
                self.lemma_at(program, 60);
                self.lemma_at(program, 61);
                lemma_run3(
                    m,
                    program,
                    extended,
                    Instruction::Load(c.remain.0),
                    Instruction::Add(c.original_divisor.0),
                    Instruction::Jump((self.base + 66) as u64),
                );
                3
            } else {
                self.lemma_at(program, 49);
                self.lemma_at(program, 50);
                lemma_run2(
                    m,
                    program,
                    extended,
                    Instruction::Load(c.remain.0),
                    Instruction::Jump((self.base + 66) as u64),
                );
                2
            }
        }
    }

    /// What holds when the scaling loop is entered.
    pub open spec fn at_scaling(self, program: Seq<Instruction>, m: Machine, a: int, b: int) -> bool {
        let c = self.cells;
        &&& self.seated(program, m)
        &&& m.ip == self.base + 26
        &&& m.acc() == magnitude(b)
        &&& m.memory.contains_key(c.original_dividend.0 as int)
        &&& m.memory[c.original_dividend.0 as int] == a
        &&& m.memory.contains_key(c.original_divisor.0 as int)
        &&& m.memory[c.original_divisor.0 as int] == b
        &&& m.memory.contains_key(c.dividend_abs.0 as int)
        &&& m.memory[c.dividend_abs.0 as int] == magnitude(a)
        &&& m.memory.contains_key(c.remain.0 as int)
        &&& m.memory[c.remain.0 as int] == magnitude(a)
        &&& m.memory.contains_key(c.scaled_divisor.0 as int)
        &&& m.memory[c.scaled_divisor.0 as int] == magnitude(b)
        &&& m.memory.contains_key(c.result.0 as int)
        &&& m.memory[c.result.0 as int] == 0
        &&& m.memory.contains_key(c.multiple.0 as int)
        &&& m.memory[c.multiple.0 as int] == 1
    }

    /// What holds when the loops are done: the operands are saved, and
    /// quotient and remainder of their absolute values are found.
    pub open spec fn at_signs(
        self,
        program: Seq<Instruction>,
        m: Machine,
        a: int,
        b: int,
        quotient: int,
        rest: int,
    ) -> bool {
        let c = self.cells;
        &&& self.seated(program, m)
        &&& m.ip == self.base + 43
        &&& m.memory.contains_key(c.original_dividend.0 as int)
        &&& m.memory[c.original_dividend.0 as int] == a
        &&& m.memory.contains_key(c.original_divisor.0 as int)
        &&& m.memory[c.original_divisor.0 as int] == b
        &&& m.memory.contains_key(c.result.0 as int)
        &&& m.memory[c.result.0 as int] == quotient
        &&& m.memory.contains_key(c.remain.0 as int)
        &&& m.memory[c.remain.0 as int] == rest
    }

    /// The code between the first eight instructions and the loops: a
    /// divisor of 0 leaves for the end with 0 in the accumulator; else
    /// the divisor is saved, its absolute value taken, and the quotient
    /// and the multiple are set.
    #[verifier::rlimit(100)]
    pub proof fn lemma_prepare(
        self,
        m: Machine,
        program: Seq<Instruction>,
        extended: bool,
        a: int,
        b: int,
    ) -> (n: nat)
        requires
            self.at_divisor(program, m, a, b),
            m.cost + 600 <= u64::MAX,
        ensures
            ({
                let (after, status) = m.steps(program, extended, n);
                &&& status is Running
                &&& if b == 0 {
                    after.wf() && after.ip == self.base + self.length() && after.acc() == 0
                } else {
                    self.at_scaling(program, after, a, b)
                }
                &&& agrees(m, after, self.scratch())
                &&& after.cost <= m.cost + 300
                &&& after.input == m.input
                &&& after.output == m.output
            }),
    {
        let c = self.cells;
        self.lemma_apart();
        self.lemma_zero_divisor(m, program, extended);
        let m2 = m.steps(program, extended, 1).0;
        assert(agrees(m, m2, self.scratch()));
        if b == 0 {
            1
        } else {
            let n3 = self.lemma_divisor_abs(m2, program, extended);
            m.lemma_steps_add(program, extended, 1, n3);
            let m3 = m.steps(program, extended, 1 + n3).0;
            assert(agrees(m, m3, self.scratch()));
            self.lemma_start(m3, program, extended);
            m.lemma_steps_add(program, extended, 1 + n3, 7);
            let m4 = m.steps(program, extended, 8 + n3).0;
            assert(agrees(m, m4, self.scratch()));
            8 + n3
        }
    }

    /// The two loops find quotient and remainder of the absolute values.
    #[verifier::rlimit(100)]
    pub proof fn lemma_loops(
        self,
        m: Machine,
        program: Seq<Instruction>,
        extended: bool,
        a: int,
        b: int,
    ) -> (n: nat)
        requires
            self.at_scaling(program, m, a, b),
            b != 0,
            m.cost + division_budget(a, b) <= u64::MAX + 400,
        ensures
            ({
                let (after, status) = m.steps(program, extended, n);
                let (quotient, rest) = unsigned_divided(magnitude(a), magnitude(b));
                &&& status is Running
                &&& self.at_signs(program, after, a, b, quotient, rest)
                &&& agrees(m, after, self.scratch())
                &&& after.cost + 600 <= m.cost + division_budget(a, b)
                &&& after.input == m.input
                &&& after.output == m.output
            }),
    {
        let c = self.cells;
        let dividend = magnitude(a);
        let divisor = magnitude(b);
        let (top, last) = scaled(divisor, 1, dividend);
        self.lemma_apart();
        lemma_scaling_budget(divisor, dividend);
        lemma_subtracting_budget(last);
        let n5 = self.lemma_scaling(m, program, extended, divisor, 1, dividend);
        let m5 = m.steps(program, extended, n5).0;
        assert(agrees(m, m5, self.scratch()));
        assert(divisor == divisor * 1) by (nonlinear_arith);
        lemma_scaled(divisor, divisor, 1, dividend);
        assert(last >= 1) by {
            reveal_with_fuel(halving, 1);
        }
        let n6 = self.lemma_subtracting(m5, program, extended, dividend, top, last, 0);
        m.lemma_steps_add(program, extended, n5, n6);
        let m6 = m.steps(program, extended, n5 + n6).0;
        assert(m6.memory.contains_key(c.original_dividend.0 as int));
        assert(m6.memory.contains_key(c.original_divisor.0 as int));
        assert(m6.memory.contains_key(c.one.0 as int));
        assert(m6.memory.contains_key(c.minus_one.0 as int));
        assert(agrees(m, m6, self.scratch()));
        n5 + n6
    }

    /// The code behind the loops corrects quotient or remainder for the
    /// signs of the operands.
    #[verifier::rlimit(100)]
    pub proof fn lemma_finish(
        self,
        m: Machine,
        program: Seq<Instruction>,
        extended: bool,
        a: int,
        b: int,
        quotient: int,
        rest: int,
    ) -> (n: nat)
        requires
            self.at_signs(program, m, a, b, quotient, rest),
            m.cost + 300 <= u64::MAX,
        ensures
            ({
                let (after, status) = m.steps(program, extended, n);
                &&& status is Running
                &&& after.wf()
                &&& after.ip == self.base + self.length()
                &&& after.acc() == if self.div {
                    if (a < 0) == (b < 0) {
                        quotient
                    } else if rest == 0 {
                        -quotient
                    } else {
                        -quotient - 1
                    }
                } else {
                    if rest == 0 {
                        0
                    } else if a >= 0 && b >= 0 {
                        rest
                    } else if a < 0 && b < 0 {
                        -rest
                    } else if a >= 0 {
                        rest + b
                    } else {
                        -(rest - b)
                    }
                }
                &&& agrees(m, after, self.scratch())
                &&& after.input == m.input
                &&& after.output == m.output
            }),
    {
        let c = self.cells;
        self.lemma_apart();
        if self.div {
            self.lemma_quotient_signs(m, program, extended, a, b);
            let m7 = m.steps(program, extended, 4).0;
            if (a < 0) == (b < 0) {
                self.lemma_quotient_same(m7, program, extended);
                m.lemma_steps_add(program, extended, 4, 2);
                6
            } else {
                let n8 = self.lemma_quotient_differ(m7, program, extended);
                m.lemma_steps_add(program, extended, 4, n8);
                4 + n8
            }
        } else {
            self.lemma_remainder_exact(m, program, extended);
            let m7 = m.steps(program, extended, 2).0;
            if rest == 0 {
                2
            } else {
                self.lemma_remainder_signs(m7, program, extended, a, b);
                m.lemma_steps_add(program, extended, 2, 4);
                let m8 = m.steps(program, extended, 6).0;
                assert(agrees(m, m8, self.scratch()));
                let n9 = self.lemma_remainder_corrected(m8, program, extended, a, b);
                m.lemma_steps_add(program, extended, 6, n9);
                6 + n9
            }
        }
    }

    /// The code behind the first eight instructions: where the dividend
    /// is saved and the divisor is in the accumulator, the floored
    /// quotient, or the remainder that goes with it, is left in the
    /// accumulator.
    #[verifier::rlimit(100)]
    pub proof fn lemma_tail(
        self,
        m: Machine,
        program: Seq<Instruction>,
        extended: bool,
        a: int,
        b: int,
    ) -> (n: nat)
        requires
            self.at_divisor(program, m, a, b),
            m.cost + division_budget(a, b) <= u64::MAX,
        ensures
            ({
                let (after, status) = m.steps(program, extended, n);
                &&& status is Running
                &&& after.wf()
                &&& after.ip == self.base + self.length()
                &&& after.acc() == if self.div {
                    floor_div(a, b)
                } else {
                    floor_mod(a, b)
                }
                &&& agrees(m, after, self.scratch())
                &&& after.input == m.input
                &&& after.output == m.output
            }),
    {
        lemma_divided(a, b);
        lemma_scaling_budget(magnitude(b), magnitude(a));
        lemma_subtracting_budget(scaled(magnitude(b), 1, magnitude(a)).1);
        let n1 = self.lemma_prepare(m, program, extended, a, b);
        let m1 = m.steps(program, extended, n1).0;
        if b == 0 {
            n1
        } else {
            let n2 = self.lemma_loops(m1, program, extended, a, b);
            m.lemma_steps_add(program, extended, n1, n2);
            let m2 = m.steps(program, extended, n1 + n2).0;
            let (quotient, rest) = unsigned_divided(magnitude(a), magnitude(b));
            let n3 = self.lemma_finish(m2, program, extended, a, b, quotient, rest);
            m.lemma_steps_add(program, extended, n1 + n2, n3);
            let m3 = m.steps(program, extended, n1 + n2 + n3).0;
            assert(agrees(m, m3, self.scratch()));
            n1 + n2 + n3
        }
    }

    /// The code for a quotient or a remainder of two operands read from one cell each leaves the
    /// floored quotient, or the remainder that goes with it, in the
    /// accumulator.
    ///
    /// Where the code stands in a program from `base` on, the cells it
    /// works on are apart, the literals 1 and -1 are in their cells, and
    /// the machine stands at `base` with `a` and `b` in the cells of the
    /// operands and enough cost left, then after the number of steps that
    /// the lemma returns the machine stands behind the code with the
    /// result in the accumulator, and no cell but the scratch cells has
    /// changed. A divisor of 0 gives 0.
    #[verifier::rlimit(100)]
    pub proof fn lemma_division(
        self,
        m: Machine,
        program: Seq<Instruction>,
        extended: bool,
        a: int,
        b: int,
    ) -> (n: nat)
        requires
            self.placed(program, m),
            m.ip == self.base,
            m.memory.contains_key(self.x as int),
            m.memory[self.x as int] == a,
            m.memory.contains_key(self.y as int),
            m.memory[self.y as int] == b,
            m.cost + division_budget(a, b) + 300 <= u64::MAX,
        ensures
            ({
                let (after, status) = m.steps(program, extended, n);
                &&& status is Running
                &&& after.wf()
                &&& after.ip == self.base + self.length()
                &&& after.acc() == if self.div {
                    floor_div(a, b)
                } else {
                    floor_mod(a, b)
                }
                &&& agrees(m, after, self.scratch())
                &&& after.input == m.input
                &&& after.output == m.output
            }),
    {
        lemma_scaling_budget(magnitude(b), magnitude(a));
        lemma_subtracting_budget(scaled(magnitude(b), 1, magnitude(a)).1);
        let n1 = self.lemma_head(m, program, extended, a, b);
        let m1 = m.steps(program, extended, n1).0;
        let n2 = self.lemma_tail(m1, program, extended, a, b);
        m.lemma_steps_add(program, extended, n1, n2);
        let m2 = m.steps(program, extended, n1 + n2).0;
        assert(agrees(m, m2, self.scratch()));
        n1 + n2
    }
}

/// A budget of cost for the scaling loop: enough for every turn.
pub open spec fn scaling_budget(divisor: int, dividend: int) -> int
    decreases
        if dividend > divisor {
            dividend - divisor
        } else {
            0
        },
{
    if divisor < dividend && divisor > 0 {
        100 + scaling_budget(divisor * 2, dividend)
    } else {
        100
    }
}

#[verifier::rlimit(100)]
pub proof fn lemma_scaling_budget(divisor: int, dividend: int)
    ensures
        scaling_budget(divisor, dividend) >= 100,
    decreases
        if dividend > divisor {
            dividend - divisor
        } else {
            0
        },
{
    if divisor < dividend && divisor > 0 {
        lemma_scaling_budget(divisor * 2, dividend);
    }
}

/// A budget of cost for the subtracting loop: enough for every turn.
pub open spec fn subtracting_budget(multiple: int) -> int
    decreases multiple,
{
    if multiple <= 1 {
        200
    } else {
        200 + subtracting_budget(multiple / 2)
    }
}

/// A budget of cost for the code of a quotient or a remainder.
pub open spec fn division_budget(a: int, b: int) -> int {
    1000 + scaling_budget(magnitude(b), magnitude(a)) + subtracting_budget(
        scaled(magnitude(b), 1, magnitude(a)).1,
    )
}

#[verifier::rlimit(100)]
pub proof fn lemma_subtracting_budget(multiple: int)
    ensures
        subtracting_budget(multiple) >= 200,
    decreases multiple,
{
    if multiple > 1 {
        lemma_subtracting_budget(multiple / 2);
    }
}

/// The six instructions that save the dividend, as they stand in a
/// program behind the place `q`: the accumulator is saved as the dividend,
/// and its absolute value is kept twice and left in the accumulator.
#[verifier::rlimit(100)]
pub proof fn lemma_saved(
    m: Machine,
    program: Seq<Instruction>,
    extended: bool,
    q: int,
    c: DivisionCells,
) -> (n: nat)
    requires
        m.wf(),
        0 <= q,
        q + 7 <= program.len(),
        q + 7 <= u64::MAX,
        program.subrange(q + 1, q + 7) == setup_listing(q, 0, 0, c).subrange(1, 7),
        m.ip == q + 1,
        m.cost + 200 <= u64::MAX,
        is_address(c.original_dividend.0 as int),
        is_address(c.dividend_abs.0 as int),
        is_address(c.remain.0 as int),
        c.original_dividend.0 != 0,
        c.dividend_abs.0 != 0,
        c.remain.0 != 0,
        c.original_dividend.0 != c.dividend_abs.0,
        c.original_dividend.0 != c.remain.0,
        c.dividend_abs.0 != c.remain.0,
    ensures
        ({
            let (after, status) = m.steps(program, extended, n);
            let a = m.acc();
            &&& status is Running
            &&& n <= 6
            &&& after == Machine {
                ip: (q + 7) as nat,
                cost: after.cost,
                memory: m.memory.insert(c.original_dividend.0 as int, a).insert(
                    c.dividend_abs.0 as int,
                    magnitude(a),
                ).insert(c.remain.0 as int, magnitude(a)).insert(0, magnitude(a)),
                ..m
            }
            &&& after.cost <= m.cost + 100
        }),
{
    let a = m.acc();
    let six = setup_listing(q, 0, 0, c).subrange(1, 7);
    assert forall|k: int| 1 <= k < 7 implies program[q + k] == setup_listing(q, 0, 0, c)[k] by {
        assert(program.subrange(q + 1, q + 7)[k - 1] == program[q + k]);
        assert(six[k - 1] == setup_listing(q, 0, 0, c)[k]);
    }
    assert(program[q + 1] == Instruction::Store(c.original_dividend.0));
    assert(program[q + 2] == Instruction::Jpos((q + 5) as u64));
    assert(program[q + 3] == Instruction::Sub(c.original_dividend.0));
    assert(program[q + 4] == Instruction::Sub(c.original_dividend.0));
    assert(program[q + 5] == Instruction::Store(c.dividend_abs.0));
    assert(program[q + 6] == Instruction::Store(c.remain.0));
    lemma_run2(
        m,
        program,
        extended,
        Instruction::Store(c.original_dividend.0),
        Instruction::Jpos((q + 5) as u64),
    );
    let m2 = m.steps(program, extended, 2).0;
    let n1: nat = if a > 0 {
        2
    } else {
        4
    };
    if a <= 0 {
        lemma_run2(
            m2,
            program,
            extended,
            Instruction::Sub(c.original_dividend.0),
            Instruction::Sub(c.original_dividend.0),
        );
        m.lemma_steps_add(program, extended, 2, 2);
    }
    let m4 = m.steps(program, extended, n1).0;
    assert(m4.memory =~= m.memory.insert(c.original_dividend.0 as int, a).insert(0, magnitude(a)));
    lemma_run2(
        m4,
        program,
        extended,
        Instruction::Store(c.dividend_abs.0),
        Instruction::Store(c.remain.0),
    );
    m.lemma_steps_add(program, extended, n1, 2);
    let after = m.steps(program, extended, n1 + 2).0;
    assert(after.memory =~= m.memory.insert(c.original_dividend.0 as int, a).insert(
        c.dividend_abs.0 as int,
        magnitude(a),
    ).insert(c.remain.0 as int, magnitude(a)).insert(0, magnitude(a)));
    n1 + 2
}

impl State {
    /// The state with the cells of a division registered.
    pub open spec fn with_division_cells(self) -> State {
        self.temp("original_dividend"@).0.temp("original_divisor"@).0.temp("dividend_abs"@).0.temp(
            "scaled_divisor"@,
        ).0.temp("remain"@).0.temp("div_result"@).0.temp("div_multiple"@).0
    }
}

/// The code for a quotient or a remainder without a shortcut leaves the
/// floored quotient, or the remainder that goes with it, in the
/// accumulator, whatever kind of operand the two are.
///
/// Where the code that loads the operands and saves the dividend stands in
/// the program at the machine's place and the rest of the code behind it,
/// the operands have the values `a` and `b`, the cells that the code works
/// on are apart, the three cells that the dividend is saved in are none of
/// those that the divisor is read from, the literals 1 and -1 are in their
/// cells, and enough cost is left, then after the number of steps that the
/// lemma returns the machine stands behind the code with the result in the
/// accumulator, and no cell but the scratch cells has changed. A divisor
/// of 0 gives 0.
#[verifier::rlimit(100)]
pub proof fn lemma_div_mod(
    state: State,
    left: Access,
    right: Access,
    div: bool,
    m: Machine,
    program: Seq<Instruction>,
    extended: bool,
    a: int,
    b: int,
) -> (n: nat)
    requires
        state.division_frame(left, right, div).seated(program, m),
        has_value(state, m, left, a),
        has_value(state, m, right, b),
        ({
            let c = state.division_frame(left, right, div).cells;
            let read = cells_read(state, m, right);
            &&& !read.contains(c.original_dividend.0 as int)
            &&& !read.contains(c.dividend_abs.0 as int)
            &&& !read.contains(c.remain.0 as int)
        }),
        ({
            let head = state.division_loads(left, right, div);
            &&& m.ip == state.emission.code.len()
            &&& m.ip + head.len() == state.division_frame(left, right, div).base + 8
            &&& program.subrange(m.ip as int, (m.ip + head.len()) as int) == head
        }),
        m.cost + division_budget(a, b) + 600 <= u64::MAX,
    ensures
        ({
            let frame = state.division_frame(left, right, div);
            let (after, status) = m.steps(program, extended, n);
            &&& status is Running
            &&& after.wf()
            &&& after.ip == frame.base + frame.length()
            &&& after.acc() == if div {
                floor_div(a, b)
            } else {
                floor_mod(a, b)
            }
            &&& agrees(m, after, frame.scratch())
            &&& after.input == m.input
            &&& after.output == m.output
        }),
{
    let frame = state.division_frame(left, right, div);
    let head = state.division_loads(left, right, div);
    let with = state.with_division_cells();
    let c = frame.cells;
    let first = load_code(with, left);
    let second = load_code(with, right);
    let q = m.ip + first.len() - 1;
    let six = setup_listing(q, 0, 0, c).subrange(1, 7);
    frame.lemma_apart();
    lemma_scaling_budget(magnitude(b), magnitude(a));
    lemma_subtracting_budget(scaled(magnitude(b), 1, magnitude(a)).1);
    lemma_preserves(state, with);
    assert(head == (first + six) + second);
    assert forall|k: int| 0 <= k < head.len() implies program[m.ip + k] == head[k] by {
        assert(program.subrange(m.ip as int, (m.ip + head.len()) as int)[k] == program[m.ip + k]);
    }
    // the dividend
    assert(program.subrange(m.ip as int, (m.ip + first.len()) as int) =~= first) by {
        assert forall|k: int| 0 <= k < first.len() implies program[m.ip + k] == first[k] by {
            assert(head[k] == first[k]);
        }
    }
    lemma_load_flow(with, left, m, a);
    lemma_flow_shape(m, first);
    lemma_flow_steps(m, program, extended, first);
    let m1 = flow(m, first).unwrap();
    // saved
    assert(program.subrange(q + 1, q + 7) =~= six) by {
        assert forall|k: int| 0 <= k < 6 implies program[q + 1 + k] == six[k] by {
            assert(head[first.len() + k] == six[k]);
        }
    }
    let n2 = lemma_saved(m1, program, extended, q, c);
    m.lemma_steps_add(program, extended, first.len(), n2);
    let m2 = m.steps(program, extended, first.len() + n2).0;
    // the divisor
    assert(has_value(with, m2, right, b));
    assert(program.subrange(m2.ip as int, (m2.ip + second.len()) as int) =~= second) by {
        assert forall|k: int| 0 <= k < second.len() implies program[m2.ip + k] == second[k] by {
            assert(head[first.len() + 6 + k] == second[k]);
        }
    }
    lemma_load_flow(with, right, m2, b);
    lemma_flow_shape(m2, second);
    lemma_flow_steps(m2, program, extended, second);
    m.lemma_steps_add(program, extended, first.len() + n2, second.len());
    let m3 = m.steps(program, extended, first.len() + n2 + second.len()).0;
    assert(agrees(m, m3, frame.scratch()));
    assert(frame.at_divisor(program, m3, a, b));
    // the rest of the code
    let n4 = frame.lemma_tail(m3, program, extended, a, b);
    m.lemma_steps_add(program, extended, first.len() + n2 + second.len(), n4);
    let after = m.steps(program, extended, first.len() + n2 + second.len() + n4).0;
    assert(agrees(m, after, frame.scratch()));
    first.len() + n2 + second.len() + n4
}

} // verus!
