//! Why no jump of a target program is left with the sentinel as its
//! target.
//!
//! Every step of the translator keeps the emission resolved: a jump either
//! goes to the place of a marked label or waits for a label that is not
//! marked yet. The labels that the translator makes for its own code are
//! all marked when that code ends, and the labels of the program are
//! marked where the program marks them. So at the end of a program whose
//! jumps all name marked labels no jump waits any more.

use crate::instruction::Instruction as VmInstruction;
use crate::intermediate::{Access, Instruction, Label, OperationType};
use crate::translator::instruction_manager::{Emission, JumpKind};
use crate::translator::memory::MemoryLocation;
use crate::intermediate::context::Model;
use crate::translator::instruction_manager::SENTINEL;
use crate::translator::materialize::{all_plain, constants_code, constants_prelude};
use crate::translator::materialize::lemma_constants_shape;
use crate::translator::state::{prepared, sorted, state_of, translation, valued};
use crate::translator::state::{BinaryInstruction, State};
use vstd::prelude::*;

verus! {

/// The steps of the emission keep it resolved: an instruction that is no
/// jump, a jump to a known label, the mark of a label that is not marked,
/// and a new label.
pub proof fn lemma_emission_laws()
    ensures
        forall|e: Emission, i: VmInstruction|
            #![trigger e.push(i)]
            e.resolved() && !i.is_jump() ==> e.push(i).resolved(),
        forall|e: Emission, l: int, k: JumpKind|
            #![trigger e.jump(l, k)]
            e.resolved() && 0 <= l < e.positions.len() ==> e.jump(l, k).resolved(),
        forall|e: Emission, l: int|
            #![trigger e.mark(l)]
            e.resolved() && e.fresh(l) ==> e.mark(l).resolved(),
        forall|e: Emission| #![trigger e.add_label()] e.resolved() ==> e.add_label().resolved(),
        forall|e: Emission, i: VmInstruction| e.keeps_plain(#[trigger] e.push(i)),
        forall|e: Emission, l: int, k: JumpKind| e.keeps_plain(#[trigger] e.jump(l, k)),
        forall|e: Emission, l: int| e.keeps_plain(#[trigger] e.mark(l)),
        forall|e: Emission| e.keeps_plain(#[trigger] e.add_label()),
        forall|e: Emission, i: VmInstruction| e.keeps_quiet(#[trigger] e.push(i)),
        forall|e: Emission, l: int, k: JumpKind|
            0 <= l < e.pending.len() ==> e.keeps_quiet(#[trigger] e.jump(l, k)),
        forall|e: Emission, l: int| 0 <= l < e.pending.len() ==> e.keeps_quiet(#[trigger] e.mark(l)),
        forall|e: Emission| e.keeps_quiet(#[trigger] e.add_label()),
{
    assert forall|e: Emission, i: VmInstruction| e.keeps_quiet(#[trigger] e.push(i)) by {
        e.lemma_keeps_quiet();
    }
    assert forall|e: Emission, l: int, k: JumpKind| 0 <= l < e.pending.len() implies e.keeps_quiet(
        #[trigger] e.jump(l, k),
    ) by {
        e.lemma_keeps_quiet();
    }
    assert forall|e: Emission, l: int| 0 <= l < e.pending.len() implies e.keeps_quiet(
        #[trigger] e.mark(l),
    ) by {
        e.lemma_keeps_quiet();
    }
    assert forall|e: Emission| e.keeps_quiet(#[trigger] e.add_label()) by {
        e.lemma_keeps_quiet();
    }
    assert forall|e: Emission, i: VmInstruction| e.keeps_plain(#[trigger] e.push(i)) by {
        e.lemma_keeps_plain();
    }
    assert forall|e: Emission, l: int, k: JumpKind| e.keeps_plain(#[trigger] e.jump(l, k)) by {
        e.lemma_keeps_plain();
    }
    assert forall|e: Emission, l: int| e.keeps_plain(#[trigger] e.mark(l)) by {
        e.lemma_keeps_plain();
    }
    assert forall|e: Emission| e.keeps_plain(#[trigger] e.add_label()) by {
        e.lemma_keeps_plain();
    }
    assert forall|e: Emission, i: VmInstruction|
        #![trigger e.push(i)]
        e.resolved() && !i.is_jump() implies e.push(i).resolved() by {
        e.lemma_resolved_push(i);
    }
    assert forall|e: Emission, l: int, k: JumpKind|
        #![trigger e.jump(l, k)]
        e.resolved() && 0 <= l < e.positions.len() implies e.jump(l, k).resolved() by {
        e.lemma_resolved_jump(l, k);
    }
    assert forall|e: Emission, l: int|
        #![trigger e.mark(l)]
        e.resolved() && e.fresh(l) implies e.mark(l).resolved() by {
        e.lemma_resolved_mark(l);
    }
    assert forall|e: Emission| #![trigger e.add_label()] e.resolved() implies e.add_label().resolved() by {
        e.lemma_resolved_add_label();
    }
}

impl Emission {
    /// The emission is resolved and has both tables of the same length.
    pub open spec fn tidy(self) -> bool {
        self.resolved() && self.positions.len() == self.pending.len()
    }

    /// `after` has the labels of `self` as they were, and beyond them only
    /// closed labels.
    pub open spec fn adds_closed(self, after: Emission) -> bool {
        &&& self.keeps_plain(after)
        &&& self.keeps_quiet(after)
        &&& self.positions.len() <= after.positions.len()
        &&& forall|l: int|
            0 <= l < self.positions.len() ==> #[trigger] after.positions[l] == self.positions[l]
        &&& forall|l: int|
            0 <= l < self.positions.len() ==> #[trigger] after.pending[l] == self.pending[l]
        &&& forall|l: int|
            self.positions.len() <= l < after.positions.len() ==> (
            #[trigger] after.positions[l]) is Some && after.pending[l].len() == 0
    }

    /// The emission after a piece of the translator's own code.
    pub open spec fn continued(self, after: Emission) -> bool {
        after.tidy() && self.adds_closed(after)
    }

    /// The emission after a piece of code that marks the labels in `marks`
    /// and jumps to the labels in `jumps`: it is tidy; the labels in
    /// `marks` and the labels that the piece made itself are closed; every
    /// other label is marked or not as it was; and for every label that is
    /// in neither set the same jumps wait.
    pub open spec fn moves(self, after: Emission, marks: Set<int>, jumps: Set<int>) -> bool {
        &&& after.tidy()
        &&& self.keeps_plain(after)
        &&& self.keeps_quiet(after)
        &&& self.positions.len() <= after.positions.len()
        &&& forall|l: int|
            0 <= l < self.positions.len() && !marks.contains(l) ==> #[trigger] after.positions[l]
                == self.positions[l]
        &&& forall|l: int|
            0 <= l < self.positions.len() && !marks.contains(l) && !jumps.contains(l)
                ==> #[trigger] after.pending[l] == self.pending[l]
        &&& forall|l: int|
            0 <= l < self.positions.len() && !marks.contains(l) && self.positions[l] is Some
                ==> #[trigger] after.pending[l] == self.pending[l]
        &&& forall|l: int|
            0 <= l < self.positions.len() && marks.contains(l) ==> (
            #[trigger] after.positions[l]) is Some && after.pending[l].len() == 0
        &&& forall|l: int|
            self.positions.len() <= l < after.positions.len() ==> (
            #[trigger] after.positions[l]) is Some && after.pending[l].len() == 0
    }

    /// Two pieces of code, one after the other, that mark different
    /// labels.
    pub proof fn lemma_moves_then(
        self,
        middle: Emission,
        after: Emission,
        first_marks: Set<int>,
        first_jumps: Set<int>,
        second_marks: Set<int>,
        second_jumps: Set<int>,
    )
        requires
            self.moves(middle, first_marks, first_jumps),
            middle.moves(after, second_marks, second_jumps),
            forall|l: int| second_marks.contains(l) ==> 0 <= l < self.positions.len()
                && !first_marks.contains(l),
        ensures
            self.moves(
                after,
                first_marks.union(second_marks),
                first_jumps.union(second_jumps),
            ),
    {
        let marks = first_marks.union(second_marks);
        let jumps = first_jumps.union(second_jumps);
        assert forall|place: int| 0 <= place < self.code.len() implies (
        #[trigger] after.code[place]).is_jump() == self.code[place].is_jump() by {
            assert(middle.code[place].is_jump() == self.code[place].is_jump());
        }
        assert forall|place: int|
            0 <= place < self.code.len() && !self.code[place].is_jump() implies #[trigger] after.code[place]
            == self.code[place] by {
            assert(middle.code[place] == self.code[place]);
        }
        assert forall|l: int|
            0 <= l < self.positions.len() && !marks.contains(l) implies #[trigger] after.positions[l]
            == self.positions[l] by {
            assert(middle.positions[l] == self.positions[l]);
        }
        assert forall|l: int|
            0 <= l < self.positions.len() && !marks.contains(l) && !jumps.contains(
                l,
            ) implies #[trigger] after.pending[l] == self.pending[l] by {
            assert(middle.pending[l] == self.pending[l]);
        }
        assert forall|l: int|
            0 <= l < self.positions.len() && !marks.contains(l)
                && self.positions[l] is Some implies #[trigger] after.pending[l]
            == self.pending[l] by {
            assert(middle.pending[l] == self.pending[l]);
            assert(middle.positions[l] == self.positions[l]);
        }
        assert forall|l: int| 0 <= l < self.positions.len() && marks.contains(l) implies (
        #[trigger] after.positions[l]) is Some && after.pending[l].len() == 0 by {
            if !second_marks.contains(l) {
                assert(middle.positions[l] is Some);
                assert(after.positions[l] == middle.positions[l]);
                assert(after.pending[l] == middle.pending[l]);
            }
        }
        assert forall|l: int| self.positions.len() <= l < after.positions.len() implies (
        #[trigger] after.positions[l]) is Some && after.pending[l].len() == 0 by {
            if l < middle.positions.len() {
                assert(middle.positions[l] is Some);
                assert(after.positions[l] == middle.positions[l]);
                assert(after.pending[l] == middle.pending[l]);
            }
        }
    }
}

impl State {
    pub proof fn lemma_push_times_continued(self, instruction: VmInstruction, count: nat)
        requires
            self.emission.tidy(),
            !instruction.is_jump(),
        ensures
            self.emission.continued(self.push_times(instruction, count).emission),
            self.push_times(instruction, count).emission.positions == self.emission.positions,
            self.push_times(instruction, count).emission.pending == self.emission.pending,
        decreases count,
    {
        lemma_emission_laws();
        if count > 0 {
            self.lemma_push_times_continued(instruction, (count - 1) as nat);
        }
    }

    pub proof fn lemma_load_continued(self, access: Access)
        requires
            self.emission.tidy(),
        ensures
            self.emission.continued(self.load(access).emission),
    {
        lemma_emission_laws();
    }

    pub proof fn lemma_store_continued(self, access: Access)
        requires
            self.emission.tidy(),
        ensures
            self.emission.continued(self.store(access).emission),
    {
        lemma_emission_laws();
    }

    pub proof fn lemma_simple_bin_op_continued(self, left: Access, right: Access, op: BinaryInstruction)
        requires
            self.emission.tidy(),
        ensures
            self.emission.continued(self.simple_bin_op(left, right, op).emission),
    {
        lemma_emission_laws();
    }

    pub proof fn lemma_plus_continued(self, left: Access, right: Access)
        requires
            self.emission.tidy(),
        ensures
            self.emission.continued(self.plus(left, right).emission),
    {
        lemma_emission_laws();
        self.load(left).lemma_step_by_continued();
        self.load(right).lemma_step_by_continued();
    }

    /// Increments and decrements keep the emission resolved, whatever their
    /// number.
    pub proof fn lemma_step_by_continued(self)
        requires
            self.emission.tidy(),
        ensures
            forall|amount: int|
                self.emission.continued((#[trigger] self.step_by(amount)).emission),
    {
        assert forall|amount: int|
            self.emission.continued((#[trigger] self.step_by(amount)).emission) by {
            if amount >= 0 {
                self.lemma_push_times_continued(VmInstruction::Inc, amount as nat);
            } else {
                self.lemma_push_times_continued(VmInstruction::Dec, (-amount) as nat);
            }
        }
    }

    pub proof fn lemma_minus_continued(self, left: Access, right: Access)
        requires
            self.emission.tidy(),
        ensures
            self.emission.continued(self.minus(left, right).emission),
    {
        lemma_emission_laws();
        self.load(left).lemma_step_by_continued();
    }


    pub proof fn lemma_product_setup(
        self,
        left: Access,
        right: Access,
        cells: crate::translator::state::ProductCells,
        start: int,
        real_end: int,
    )
        requires
            self.emission.tidy(),
            self.emission.fresh(start),
            0 <= real_end < self.emission.positions.len(),
            start != real_end,
        ensures
            self.emission.moves(
                self.product_setup(left, right, cells, start, real_end).emission,
                set![start],
                set![real_end],
            ),
    {
        reveal(State::product_setup);
        lemma_emission_laws();
    }

    pub proof fn lemma_product_loop(
        self,
        cells: crate::translator::state::ProductCells,
        main: int,
        step: int,
        end: int,
    )
        requires
            self.emission.tidy(),
            self.emission.fresh(main),
            self.emission.fresh(step),
            self.emission.fresh(end),
            main != step,
            main != end,
            step != end,
        ensures
            self.emission.moves(
                self.product_loop(cells, main, step, end).emission,
                set![main, step, end],
                Set::empty(),
            ),
    {
        reveal(State::product_loop);
        lemma_emission_laws();
    }

    /// A new label: nothing else changes.
    pub proof fn lemma_fresh_label(self)
        requires
            self.emission.tidy(),
        ensures
            ({
                let (after, label) = self.fresh_label();
                &&& after.emission.tidy()
                &&& label == self.emission.positions.len()
                &&& after.emission.code == self.emission.code
                &&& after.emission.positions == self.emission.positions.push(None)
                &&& after.emission.pending == self.emission.pending.push(Seq::empty())
                &&& self.emission.keeps_plain(after.emission)
                &&& self.emission.keeps_quiet(after.emission)
            }),
    {
        self.emission.lemma_resolved_add_label();
        self.emission.lemma_keeps_quiet();
    }

    /// A mark of a label that is not marked closes it and changes no other
    /// label.
    pub proof fn lemma_mark(self, label: int)
        requires
            self.emission.tidy(),
            self.emission.fresh(label),
        ensures
            self.emission.moves(self.mark(label).emission, set![label], Set::empty()),
    {
        self.emission.lemma_resolved_mark(label);
        self.emission.lemma_keeps_plain();
        self.emission.lemma_keeps_quiet();
    }

    pub proof fn lemma_times_literal_continued(self, left: Access, right: Access)
        requires
            self.emission.tidy(),
            self.times_literal(left, right) is Some,
        ensures
            self.emission.continued(self.times_literal(left, right).unwrap().emission),
    {
        lemma_emission_laws();
    }

    pub proof fn lemma_times_continued(self, left: Access, right: Access)
        requires
            self.emission.tidy(),
        ensures
            self.emission.continued(self.times(left, right).emission),
    {
        match self.times_literal(left, right) {
            Some(s) => {
                self.lemma_times_literal_continued(left, right);
            },
            None => {
                let (s, left_tmp) = self.temp("mul_left"@);
                let (s, right_tmp) = s.temp("mul_right"@);
                let (s, tmp) = s.temp("1"@);
                let (s, result) = s.temp("mul_result"@);
                let one = s.constant_location(1);
                let minus_one = s.constant_location(-1i64);
                assert(s.emission == self.emission);
                s.lemma_fresh_label();
                let (s, label_start) = s.fresh_label();
                s.lemma_fresh_label();
                let (s, label_main) = s.fresh_label();
                s.lemma_fresh_label();
                let (s, label_step) = s.fresh_label();
                s.lemma_fresh_label();
                let (s, label_end) = s.fresh_label();
                s.lemma_fresh_label();
                let (s, label_real_end) = s.fresh_label();
                let cells = crate::translator::state::ProductCells {
                    left_tmp,
                    right_tmp,
                    tmp,
                    result,
                    one,
                    minus_one,
                };
                s.lemma_product_setup(left, right, cells, label_start, label_real_end);
                let s1 = s.product_setup(left, right, cells, label_start, label_real_end);
                s1.lemma_product_loop(cells, label_main, label_step, label_end);
                let s2 = s1.product_loop(cells, label_main, label_step, label_end);
                assert(s2.emission.fresh(label_real_end));
                s2.lemma_mark(label_real_end);
                let s3 = s2.mark(label_real_end);
                assert(self.times(left, right) == s3);
                let before = self.emission;
                let after = s3.emission;
                assert forall|l: int| 0 <= l < before.positions.len() implies #[trigger] after.positions[l]
                    == before.positions[l] by {
                    assert(s.emission.positions[l] == before.positions[l]);
                    assert(s1.emission.positions[l] == s.emission.positions[l]);
                    assert(s2.emission.positions[l] == s1.emission.positions[l]);
                }
                assert forall|l: int| 0 <= l < before.positions.len() implies #[trigger] after.pending[l]
                    == before.pending[l] by {
                    assert(s.emission.pending[l] == before.pending[l]);
                    assert(s1.emission.pending[l] == s.emission.pending[l]);
                    assert(s2.emission.pending[l] == s1.emission.pending[l]);
                }
                assert forall|l: int|
                    before.positions.len() <= l < after.positions.len() implies (
                #[trigger] after.positions[l]) is Some && after.pending[l].len() == 0 by {
                    if l < s.emission.positions.len() {
                        if l == label_start {
                            assert(s1.emission.positions[l] is Some);
                            assert(s2.emission.positions[l] == s1.emission.positions[l]);
                            assert(s2.emission.pending[l] == s1.emission.pending[l]);
                        } else if l == label_real_end {
                        } else {
                            assert(s1.emission.positions[l] == s.emission.positions[l]);
                            assert(s2.emission.positions[l] is Some);
                        }
                    } else if l < s1.emission.positions.len() {
                        assert(s1.emission.positions[l] is Some);
                        assert(s2.emission.positions[l] == s1.emission.positions[l]);
                        assert(s2.emission.pending[l] == s1.emission.pending[l]);
                    } else if l < s2.emission.positions.len() {
                        assert(s2.emission.positions[l] is Some);
                    }
                }
            },
        }
    }

    pub proof fn lemma_division_setup(
        self,
        left: Access,
        right: Access,
        cells: crate::translator::state::DivisionCells,
        end: int,
        while_condition: int,
    )
        requires
            self.emission.tidy(),
            0 <= end < self.emission.positions.len(),
            0 <= while_condition < self.emission.positions.len(),
        ensures
            self.emission.moves(
                self.division_setup(left, right, cells, end, while_condition).emission,
                Set::empty(),
                set![end, while_condition],
            ),
    {
        reveal(State::division_setup);
        lemma_emission_laws();
    }

    pub proof fn lemma_division_scaling(
        self,
        cells: crate::translator::state::DivisionCells,
        while_body: int,
        while_condition: int,
    )
        requires
            self.emission.tidy(),
            self.emission.fresh(while_body),
            self.emission.fresh(while_condition),
            while_body != while_condition,
        ensures
            self.emission.moves(
                self.division_scaling(cells, while_body, while_condition).emission,
                set![while_body, while_condition],
                Set::empty(),
            ),
    {
        reveal(State::division_scaling);
        lemma_emission_laws();
    }

    pub proof fn lemma_division_subtracting(
        self,
        cells: crate::translator::state::DivisionCells,
        do_body: int,
        after_if: int,
        after_do: int,
    )
        requires
            self.emission.tidy(),
            self.emission.fresh(do_body),
            self.emission.fresh(after_if),
            0 <= after_do < self.emission.positions.len(),
            do_body != after_if,
            do_body != after_do,
            after_if != after_do,
        ensures
            self.emission.moves(
                self.division_subtracting(cells, do_body, after_if, after_do).emission,
                set![do_body, after_if],
                set![after_do],
            ),
    {
        reveal(State::division_subtracting);
        lemma_emission_laws();
    }

    pub proof fn lemma_quotient_sign(
        self,
        original_dividend: MemoryLocation,
        original_divisor: MemoryLocation,
        remain: MemoryLocation,
        result: MemoryLocation,
        end: int,
    )
        requires
            self.emission.tidy(),
            0 <= end < self.emission.positions.len(),
        ensures
            self.emission.moves(
                self.quotient_sign(
                    original_dividend,
                    original_divisor,
                    remain,
                    result,
                    end,
                ).emission,
                Set::empty(),
                set![end],
            ),
    {
        reveal(State::quotient_sign);
        lemma_emission_laws();
    }

    pub proof fn lemma_remainder_sign(
        self,
        original_dividend: MemoryLocation,
        original_divisor: MemoryLocation,
        remain: MemoryLocation,
        end: int,
    )
        requires
            self.emission.tidy(),
            0 <= end < self.emission.positions.len(),
        ensures
            self.emission.moves(
                self.remainder_sign(original_dividend, original_divisor, remain, end).emission,
                Set::empty(),
                set![end],
            ),
    {
        reveal(State::remainder_sign);
        lemma_emission_laws();
    }

    pub proof fn lemma_div_mod_literal_continued(self, left: Access, right: Access, div: bool)
        requires
            self.emission.tidy(),
            self.div_mod_literal(left, right, div) is Some,
        ensures
            self.emission.continued(self.div_mod_literal(left, right, div).unwrap().emission),
    {
        lemma_emission_laws();
    }

    pub proof fn lemma_div_mod_continued(self, left: Access, right: Access, div: bool)
        requires
            self.emission.tidy(),
        ensures
            self.emission.continued(self.div_mod(left, right, div).emission),
    {
        match self.div_mod_literal(left, right, div) {
            Some(s) => {
                self.lemma_div_mod_literal_continued(left, right, div);
            },
            None => {
                self.lemma_fresh_label();
                let (s, while_condition) = self.fresh_label();
                s.lemma_fresh_label();
                let (s, while_body) = s.fresh_label();
                s.lemma_fresh_label();
                let (s, after_if) = s.fresh_label();
                s.lemma_fresh_label();
                let (s, do_body) = s.fresh_label();
                s.lemma_fresh_label();
                let (s, after_do) = s.fresh_label();
                s.lemma_fresh_label();
                let (s, end) = s.fresh_label();
                let labelled = s.emission;
                let one = s.constant_location(1);
                let minus_one = s.constant_location(-1i64);
                let (s, original_dividend) = s.temp("original_dividend"@);
                let (s, original_divisor) = s.temp("original_divisor"@);
                let (s, dividend_abs) = s.temp("dividend_abs"@);
                let (s, scaled_divisor) = s.temp("scaled_divisor"@);
                let (s, remain) = s.temp("remain"@);
                let (s, result) = s.temp("div_result"@);
                let (s, multiple) = s.temp("div_multiple"@);
                assert(s.emission == labelled);
                let cells = crate::translator::state::DivisionCells {
                    original_dividend,
                    original_divisor,
                    dividend_abs,
                    scaled_divisor,
                    remain,
                    result,
                    multiple,
                    one,
                    minus_one,
                };
                let none = Set::<int>::empty();
                s.lemma_division_setup(left, right, cells, end, while_condition);
                let s1 = s.division_setup(left, right, cells, end, while_condition);
                assert(s1.emission.positions[while_body] == labelled.positions[while_body]);
                assert(s1.emission.positions[while_condition] == labelled.positions[while_condition]);
                s1.lemma_division_scaling(cells, while_body, while_condition);
                let s2 = s1.division_scaling(cells, while_body, while_condition);
                labelled.lemma_moves_then(
                    s1.emission,
                    s2.emission,
                    none,
                    set![end, while_condition],
                    set![while_body, while_condition],
                    none,
                );
                let m2 = none.union(set![while_body, while_condition]);
                let j2 = set![end, while_condition].union(none);
                assert(s2.emission.positions[do_body] == labelled.positions[do_body]);
                assert(s2.emission.positions[after_if] == labelled.positions[after_if]);
                s2.lemma_division_subtracting(cells, do_body, after_if, after_do);
                let s3 = s2.division_subtracting(cells, do_body, after_if, after_do);
                labelled.lemma_moves_then(
                    s2.emission,
                    s3.emission,
                    m2,
                    j2,
                    set![do_body, after_if],
                    set![after_do],
                );
                let m3 = m2.union(set![do_body, after_if]);
                let j3 = j2.union(set![after_do]);
                assert(s3.emission.positions[after_do] == labelled.positions[after_do]);
                s3.lemma_mark(after_do);
                let s4 = s3.mark(after_do);
                labelled.lemma_moves_then(s3.emission, s4.emission, m3, j3, set![after_do], none);
                let m4 = m3.union(set![after_do]);
                let j4 = j3.union(none);
                if div {
                    s4.lemma_quotient_sign(original_dividend, original_divisor, remain, result, end);
                } else {
                    s4.lemma_remainder_sign(original_dividend, original_divisor, remain, end);
                }
                let s5 = if div {
                    s4.quotient_sign(original_dividend, original_divisor, remain, result, end)
                } else {
                    s4.remainder_sign(original_dividend, original_divisor, remain, end)
                };
                labelled.lemma_moves_then(s4.emission, s5.emission, m4, j4, none, set![end]);
                let m5 = m4.union(none);
                let j5 = j4.union(set![end]);
                assert(s5.emission.positions[end] == labelled.positions[end]);
                s5.lemma_mark(end);
                let s6 = s5.mark(end);
                labelled.lemma_moves_then(s5.emission, s6.emission, m5, j5, set![end], none);
                let marks = m5.union(set![end]);
                let jumps = j5.union(none);
                assert(self.div_mod(left, right, div) == s6);
                let before = self.emission;
                let after = s6.emission;
                assert forall|l: int| 0 <= l < before.positions.len() implies #[trigger] after.positions[l]
                    == before.positions[l] by {
                    assert(!marks.contains(l));
                    assert(labelled.positions[l] == before.positions[l]);
                }
                assert forall|l: int| 0 <= l < before.positions.len() implies #[trigger] after.pending[l]
                    == before.pending[l] by {
                    assert(!marks.contains(l));
                    assert(!jumps.contains(l));
                    assert(labelled.pending[l] == before.pending[l]);
                }
                assert forall|l: int|
                    before.positions.len() <= l < after.positions.len() implies (
                #[trigger] after.positions[l]) is Some && after.pending[l].len() == 0 by {
                    if l < labelled.positions.len() {
                        assert(marks.contains(l));
                    }
                }
                assert forall|place: int| 0 <= place < before.code.len() implies (
                #[trigger] after.code[place]).is_jump() == before.code[place].is_jump() by {}
                assert forall|place: int|
                    0 <= place < before.code.len() && !before.code[place].is_jump() implies #[trigger] after.code[place]
                    == before.code[place] by {}
            },
        }
    }

    /// An instruction of the program that is neither a mark nor a jump is
    /// translated to a piece of code with labels of its own.
    pub proof fn lemma_instruction_continued(self, instruction: Instruction)
        requires
            self.emission.tidy(),
            !(instruction is Label),
            instruction.jump_label() is None,
        ensures
            self.emission.continued(self.instruction(instruction).emission),
    {
        match instruction {
            Instruction::Load { access } => self.lemma_load_continued(access),
            Instruction::PreStore { access } => {
                self.emission.lemma_keeps_plain_reflexive();
            },
            Instruction::Store { access } => self.lemma_store_continued(access),
            Instruction::Operation { left, op, right } => match op {
                OperationType::Plus => self.lemma_plus_continued(left, right),
                OperationType::Minus => self.lemma_minus_continued(left, right),
                OperationType::Shift => self.lemma_simple_bin_op_continued(
                    left,
                    right,
                    BinaryInstruction::Shift,
                ),
                OperationType::Times => self.lemma_times_continued(left, right),
                OperationType::Div => self.lemma_div_mod_continued(left, right, true),
                OperationType::Mod => self.lemma_div_mod_continued(left, right, false),
            },
            Instruction::Get => {
                lemma_emission_laws();
            },
            Instruction::Put => {
                lemma_emission_laws();
            },
            _ => {},
        }
    }
}

/// One of the first `n` instructions marks `label`.
pub open spec fn marked_before(code: Seq<Instruction>, n: int, label: Label) -> bool {
    exists|j: int| 0 <= j < n && #[trigger] code[j] == (Instruction::Label { label })
}

/// One of the first `n` instructions jumps to `label`.
pub open spec fn jumped_before(code: Seq<Instruction>, n: int, label: Label) -> bool {
    exists|j: int| 0 <= j < n && (#[trigger] code[j]).jump_label() == Some(label)
}

/// The emission after the first `n` instructions of a program with `own`
/// labels: it is tidy; the labels that the translator made are closed; a
/// label of the program is marked if one of the instructions marked it;
/// and a jump waits only for a label that one of the instructions jumped
/// to.
pub open spec fn on_track(e: Emission, code: Seq<Instruction>, n: int, own: int) -> bool {
    &&& e.tidy()
    &&& own <= e.positions.len()
    &&& forall|l: int|
        own <= l < e.positions.len() ==> (#[trigger] e.positions[l]) is Some && e.pending[l].len()
            == 0
    &&& forall|label: Label|
        label.id < own ==> ((#[trigger] e.positions[label.id as int]) is Some <==> marked_before(
            code,
            n,
            label,
        ))
    &&& forall|label: Label|
        label.id < own && (#[trigger] e.pending[label.id as int]).len() > 0 ==> jumped_before(
            code,
            n,
            label,
        )
}

impl State {
    /// A jump to a known label: nothing is marked, and only for that label
    /// may one more jump wait.
    pub proof fn lemma_jump(self, label: int, kind: JumpKind)
        requires
            self.emission.tidy(),
            0 <= label < self.emission.positions.len(),
        ensures
            self.emission.moves(self.jump(label, kind).emission, Set::empty(), set![label]),
    {
        lemma_emission_laws();
    }

    /// More code without jumps at the end keeps the emission tidy and the
    /// labels as they are.
    pub proof fn lemma_with_more(self, code: Seq<VmInstruction>)
        requires
            self.emission.tidy(),
            all_plain(code),
        ensures
            self.with_more(code).emission.tidy(),
            self.emission.keeps_plain(self.with_more(code).emission),
            self.with_more(code).emission.positions == self.emission.positions,
            self.with_more(code).emission.pending == self.emission.pending,
        decreases code.len(),
    {
        if code.len() == 0 {
            assert(self.emission.code + code =~= self.emission.code);
        } else {
            let front = code.drop_last();
            assert forall|k: int| 0 <= k < front.len() implies crate::translator::materialize::is_plain(
                #[trigger] front[k],
            ) by {
                assert(front[k] == code[k]);
            }
            self.lemma_with_more(front);
            let before = self.with_more(front);
            assert(crate::translator::materialize::is_plain(code[code.len() - 1]));
            before.emission.lemma_resolved_push(code.last());
            before.emission.lemma_keeps_plain();
            assert(self.emission.code + code =~= (self.emission.code + front).push(code.last()));
            assert(before.push(code.last()) == self.with_more(code));
        }
    }

    /// One more instruction of the program keeps the emission on track.
    pub proof fn lemma_on_track(self, model: Model, n: int)
        requires
            model.wf(),
            model.labels <= usize::MAX,
            0 <= n < model.code.len(),
            on_track(self.emission, model.code, n, model.labels as int),
        ensures
            on_track(
                self.instruction(model.code[n]).emission,
                model.code,
                n + 1,
                model.labels as int,
            ),
            self.emission.keeps_plain(self.instruction(model.code[n]).emission),
            self.emission.keeps_quiet(self.instruction(model.code[n]).emission),
    {
        let code = model.code;
        let own = model.labels as int;
        let instruction = code[n];
        let e = self.emission;
        let after = self.instruction(instruction).emission;
        assert(model.valid_instruction(instruction));
        match instruction {
            Instruction::Label { label } => {
                if marked_before(code, n, label) {
                    let j = choose|j: int|
                        0 <= j < n && #[trigger] code[j] == (Instruction::Label { label });
                    assert(code[j] != code[n]);
                }
                assert(e.positions[label.id as int] is None);
                self.lemma_mark(label.id as int);
                assert forall|other: Label| other.id < own implies ((
                #[trigger] after.positions[other.id as int]) is Some <==> marked_before(
                    code,
                    n + 1,
                    other,
                )) by {
                    if other == label {
                        assert(code[n] == Instruction::Label { label: other });
                    } else {
                        assert(other.id != label.id);
                        if marked_before(code, n + 1, other) {
                            let j = choose|j: int|
                                0 <= j < n + 1 && #[trigger] code[j] == (Instruction::Label {
                                    label: other,
                                });
                            assert(j < n);
                        }
                        if marked_before(code, n, other) {
                            let j = choose|j: int|
                                0 <= j < n && #[trigger] code[j] == (Instruction::Label {
                                    label: other,
                                });
                            assert(code[j] == Instruction::Label { label: other });
                        }
                        assert(after.positions[other.id as int] == e.positions[other.id as int]);
                    }
                }
                assert forall|other: Label|
                    other.id < own && (#[trigger] after.pending[other.id as int]).len()
                        > 0 implies jumped_before(code, n + 1, other) by {
                    if other.id != label.id {
                        assert(after.pending[other.id as int] == e.pending[other.id as int]);
                        let j = choose|j: int|
                            0 <= j < n && (#[trigger] code[j]).jump_label() == Some(other);
                        assert(code[j].jump_label() == Some(other));
                    }
                }
                assert forall|l: int| own <= l < after.positions.len() implies (
                #[trigger] after.positions[l]) is Some && after.pending[l].len() == 0 by {
                    if l < e.positions.len() {
                        assert(after.positions[l] == e.positions[l]);
                        assert(after.pending[l] == e.pending[l]);
                    }
                }
            },
            _ => {
                match instruction.jump_label() {
                    Some(label) => {
                        let kind = match instruction {
                            Instruction::Jump { .. } => JumpKind::Jump,
                            Instruction::JNegative { .. } => JumpKind::Jneg,
                            Instruction::JPositive { .. } => JumpKind::Jpos,
                            _ => JumpKind::Jzero,
                        };
                        self.lemma_jump(label.id as int, kind);
                        assert(after == self.jump(label.id as int, kind).emission);
                        assert forall|other: Label| other.id < own implies ((
                        #[trigger] after.positions[other.id as int]) is Some <==> marked_before(
                            code,
                            n + 1,
                            other,
                        )) by {
                            assert(after.positions[other.id as int] == e.positions[other.id as int]);
                            if marked_before(code, n + 1, other) {
                                let j = choose|j: int|
                                    0 <= j < n + 1 && #[trigger] code[j] == (Instruction::Label {
                                        label: other,
                                    });
                                assert(j < n);
                            }
                            if marked_before(code, n, other) {
                                let j = choose|j: int|
                                    0 <= j < n && #[trigger] code[j] == (Instruction::Label {
                                        label: other,
                                    });
                                assert(code[j] == Instruction::Label { label: other });
                            }
                        }
                        assert forall|other: Label|
                            other.id < own && (#[trigger] after.pending[other.id as int]).len()
                                > 0 implies jumped_before(code, n + 1, other) by {
                            if other.id == label.id {
                                assert(code[n].jump_label() == Some(other));
                            } else {
                                assert(after.pending[other.id as int] == e.pending[other.id as int]);
                                let j = choose|j: int|
                                    0 <= j < n && (#[trigger] code[j]).jump_label() == Some(other);
                                assert(code[j].jump_label() == Some(other));
                            }
                        }
                        assert forall|l: int| own <= l < after.positions.len() implies (
                        #[trigger] after.positions[l]) is Some && after.pending[l].len() == 0 by {
                            assert(after.positions[l] == e.positions[l]);
                            assert(after.pending[l] == e.pending[l]);
                        }
                    },
                    None => {
                        self.lemma_instruction_continued(instruction);
                        assert forall|other: Label| other.id < own implies ((
                        #[trigger] after.positions[other.id as int]) is Some <==> marked_before(
                            code,
                            n + 1,
                            other,
                        )) by {
                            assert(after.positions[other.id as int] == e.positions[other.id as int]);
                            if marked_before(code, n + 1, other) {
                                let j = choose|j: int|
                                    0 <= j < n + 1 && #[trigger] code[j] == (Instruction::Label {
                                        label: other,
                                    });
                                assert(j < n);
                            }
                            if marked_before(code, n, other) {
                                let j = choose|j: int|
                                    0 <= j < n && #[trigger] code[j] == (Instruction::Label {
                                        label: other,
                                    });
                                assert(code[j] == Instruction::Label { label: other });
                            }
                        }
                        assert forall|other: Label|
                            other.id < own && (#[trigger] after.pending[other.id as int]).len()
                                > 0 implies jumped_before(code, n + 1, other) by {
                            assert(after.pending[other.id as int] == e.pending[other.id as int]);
                            let j = choose|j: int|
                                0 <= j < n && (#[trigger] code[j]).jump_label() == Some(other);
                            assert(code[j].jump_label() == Some(other));
                        }
                        assert forall|l: int| own <= l < after.positions.len() implies (
                        #[trigger] after.positions[l]) is Some && after.pending[l].len() == 0 by {
                            if l < e.positions.len() {
                                assert(after.positions[l] == e.positions[l]);
                                assert(after.pending[l] == e.pending[l]);
                            }
                        }
                    },
                }
            },
        }
    }

    /// The instructions of a program, one after the other, keep the
    /// emission on track.
    pub proof fn lemma_instructions_on_track(self, model: Model, n: int)
        requires
            model.wf(),
            model.labels <= usize::MAX,
            0 <= n <= model.code.len(),
            on_track(self.emission, model.code, 0, model.labels as int),
        ensures
            on_track(
                self.instructions(model.code.take(n)).emission,
                model.code,
                n,
                model.labels as int,
            ),
            self.emission.keeps_plain(self.instructions(model.code.take(n)).emission),
        decreases n,
    {
        if n > 0 {
            self.lemma_instructions_on_track(model, n - 1);
            assert(model.code.take(n).drop_last() =~= model.code.take(n - 1));
            assert(model.code.take(n).last() == model.code[n - 1]);
            let before = self.instructions(model.code.take(n - 1));
            before.lemma_on_track(model, n - 1);
        }
    }
}

/// The emission after the code that sets the literals: that code is all
/// there is, it has no jump, and no label is marked yet.
pub proof fn lemma_start_on_track(model: Model)
    requires
        model.wf(),
        model.labels <= usize::MAX,
    ensures
        ({
            let set = state_of(prepared(model)).generate_constants();
            &&& on_track(set.emission, model.code, 0, model.labels as int)
            &&& set.emission.code == constants_prelude(model)
            &&& all_plain(set.emission.code)
        }),
{
    let ready = prepared(model);
    let code = model.code;
    let own = model.labels as int;
    assert(ready.labels == model.labels);
    let start = state_of(ready);
    let cells = sorted(valued(start.slots));
    let zeroed = start.push(VmInstruction::Sub(0));
    zeroed.lemma_constant_list_code(cells);
    let one = zeroed.constant_location(1);
    let set = start.generate_constants();
    assert(start.emission.resolved());
    start.emission.lemma_resolved_push(VmInstruction::Sub(0));
    start.emission.lemma_keeps_plain();
    lemma_constants_shape(cells, one);
    zeroed.lemma_with_more(constants_code(cells, one));
    assert(set.emission.code =~= constants_prelude(model));
    assert(all_plain(set.emission.code)) by {
        assert(set.emission.code =~= seq![VmInstruction::Sub(0)] + constants_code(cells, one));
    }
    assert(on_track(set.emission, code, 0, own));
}

/// The places of the labels when the last instruction is translated.
pub open spec fn final_positions(model: Model) -> Seq<Option<u64>> {
    state_of(prepared(model)).generate_constants().instructions(model.code).emission.positions
}

/// In a target program no jump is left with the sentinel as its target:
/// every jump goes to a place of the program, and that place is the place
/// of a label. And the program starts with the code that sets the
/// literals.
///
/// This holds of the translation of every well-formed program whose jumps
/// all name labels that the program marks, as long as program and
/// translation are no longer than an executable program can be.
#[verifier::rlimit(100)]
pub proof fn lemma_jumps_resolved(model: Model)
    requires
        model.wf(),
        model.closed_jumps(),
        model.labels <= usize::MAX,
        translation(model).len() <= usize::MAX,
    ensures
        forall|place: int|
            0 <= place < translation(model).len() && (#[trigger] translation(model)[place]).is_jump()
                ==> translation(model)[place].operand().unwrap() < translation(model).len()
                && translation(model)[place].operand().unwrap() != SENTINEL,
        forall|place: int|
            0 <= place < translation(model).len() && (#[trigger] translation(model)[place]).is_jump()
                ==> exists|label: int|
                0 <= label < final_positions(model).len() && #[trigger] final_positions(
                    model,
                )[label] == translation(model)[place].operand(),
        constants_prelude(model).len() <= translation(model).len(),
        translation(model).subrange(0, constants_prelude(model).len() as int) == constants_prelude(
            model,
        ),
{
    let code = model.code;
    let own = model.labels as int;
    let set = state_of(prepared(model)).generate_constants();
    lemma_start_on_track(model);
    // the instructions of the program
    set.lemma_instructions_on_track(model, code.len() as int);
    assert(code.take(code.len() as int) =~= code);
    let done = set.instructions(code);
    let last = done.push(VmInstruction::Halt);
    assert(last.emission.code == translation(model));
    let e = done.emission;
    let f = last.emission;
    e.lemma_resolved_push(VmInstruction::Halt);
    e.lemma_keeps_plain();
    assert(f.bounded());
    assert(e.bounded());
    assert forall|place: int|
        0 <= place < f.code.len() && (#[trigger] f.code[place]).is_jump() implies f.code[place].operand().unwrap()
        < f.code.len() && f.code[place].operand().unwrap() != SENTINEL by {
        assert(place < e.code.len());
        assert(f.code[place] == e.code[place]);
        assert(e.settled(place) || e.awaited(place));
        if e.awaited(place) {
            let (l, k) = choose|l: int, k: int|
                0 <= l < e.pending.len() && 0 <= k < e.pending[l].len()
                    && #[trigger] e.pending[l][k] == place && e.fresh(l);
            if l < own {
                let label = Label { id: l as usize };
                assert(e.pending[label.id as int].len() > 0);
                assert(jumped_before(code, code.len() as int, label));
                assert(!model.dangling(label));
                let j = choose|j: int|
                    0 <= j < code.len() && (#[trigger] code[j]).jump_label() == Some(label);
                assert(!model.unmarked(label));
                let m = choose|m: int|
                    0 <= m < code.len() && (#[trigger] code[m]) == (Instruction::Label { label });
                assert(marked_before(code, code.len() as int, label));
                assert(e.positions[label.id as int] is Some);
            } else {
                assert(e.positions[l] is Some);
            }
        }
        let l = choose|l: int|
            0 <= l < e.positions.len() && #[trigger] e.positions[l] == e.code[place].operand();
        assert(e.positions[l] is Some);
        assert(e.positions[l].unwrap() <= e.code.len());
    }
    assert(e.positions == final_positions(model));
    assert forall|place: int|
        0 <= place < f.code.len() && (#[trigger] f.code[place]).is_jump() implies exists|label: int|
        0 <= label < final_positions(model).len() && #[trigger] final_positions(model)[label]
            == f.code[place].operand() by {
        assert(place < e.code.len());
        assert(f.code[place] == e.code[place]);
        assert(f.code[place].operand().unwrap() != SENTINEL);
        assert(e.settled(place) || e.awaited(place));
        if e.awaited(place) && !e.settled(place) {
            let (l, k) = choose|l: int, k: int|
                0 <= l < e.pending.len() && 0 <= k < e.pending[l].len()
                    && #[trigger] e.pending[l][k] == place && e.fresh(l);
            if l < own {
                let label = Label { id: l as usize };
                assert(e.pending[label.id as int].len() > 0);
                assert(jumped_before(code, code.len() as int, label));
                assert(!model.dangling(label));
                let j = choose|j: int|
                    0 <= j < code.len() && (#[trigger] code[j]).jump_label() == Some(label);
                assert(!model.unmarked(label));
                let m = choose|m: int|
                    0 <= m < code.len() && (#[trigger] code[m]) == (Instruction::Label { label });
                assert(marked_before(code, code.len() as int, label));
                assert(e.positions[label.id as int] is Some);
            } else {
                assert(e.positions[l] is Some);
            }
        }
        let l = choose|l: int|
            0 <= l < e.positions.len() && #[trigger] e.positions[l] == e.code[place].operand();
        assert(final_positions(model)[l] == f.code[place].operand());
    }
    // the start of the program
    let prelude = constants_prelude(model);
    assert forall|k: int| 0 <= k < prelude.len() implies translation(model)[k] == prelude[k] by {
        assert(crate::translator::materialize::is_plain(set.emission.code[k]));
        assert(e.code[k] == set.emission.code[k]);
        assert(f.code[k] == e.code[k]);
    }
    assert(translation(model).subrange(0, prelude.len() as int) =~= prelude);
}

/// Running a target program sets the literals first: after as many steps
/// as the code for the literals has instructions, every literal of the
/// prepared program is in its cell, the cell of every array holds the
/// array's base, and the accumulator holds 0, whatever the accumulator
/// held at the start.
pub proof fn lemma_translation_sets_literals(
    model: Model,
    machine: crate::interpreter::Machine,
    extended: bool,
)
    requires
        model.wf(),
        model.closed_jumps(),
        model.labels <= usize::MAX,
        translation(model).len() <= usize::MAX,
        prepared(model).wf(),
        crate::translator::memory::layout_fits(prepared(model).shapes, 0),
        prepared(model).constant_index(crate::intermediate::Constant(1)) is Some,
        machine.wf(),
        machine.ip == 0,
        machine.cost + 20 * constants_prelude(model).len() <= u64::MAX,
    ensures
        ({
            let (after, status) = machine.steps(
                translation(model),
                extended,
                constants_prelude(model).len(),
            );
            &&& status is Running
            &&& after.ip == constants_prelude(model).len()
            &&& after.acc() == 0
            &&& forall|k: int|
                0 <= k < prepared(model).constants.len() ==> after.memory.contains_key(
                    #[trigger] crate::translator::materialize::literal_cell(model, k),
                ) && after.memory[crate::translator::materialize::literal_cell(model, k)]
                    == prepared(model).constants[k].0.0
            &&& forall|i: int|
                0 <= i < prepared(model).shapes.len() && (#[trigger] prepared(model).shapes[i])
                    is Array ==> after.memory.contains_key(
                    crate::translator::memory::cell_of(prepared(model).shapes, i),
                ) && after.memory[crate::translator::memory::cell_of(prepared(model).shapes, i)]
                    == crate::translator::memory::base_of(prepared(model).shapes, i)
        }),
{
    lemma_jumps_resolved(model);
    crate::translator::materialize::lemma_constants_materialized(
        model,
        machine,
        translation(model),
        extended,
    );
}

impl Emission {
    pub proof fn lemma_keeps_plain_reflexive(self)
        ensures
            self.keeps_plain(self),
    {
    }
}

} // verus!
