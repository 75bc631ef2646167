//! Where the code of an instruction stands in the target program.
//!
//! The translator appends the code of one instruction after the other, and
//! later changes only the jumps that wait for a label. So the code that
//! an instruction other than a jump appends stands in the target program
//! at the place where it was appended, unchanged. For the sum, the
//! difference, the product, the quotient and the remainder that code is
//! written out in the modules of this directory.

use crate::instruction::Instruction as VmInstruction;
use crate::intermediate::context::Model;
use crate::intermediate::{Access, Instruction, OperationType};
use crate::translator::instruction_manager::Emission;
use crate::translator::product::is_direct;
use crate::translator::resolution::{lemma_start_on_track, on_track};
use crate::translator::state::{prepared, state_of, translation, State};
use vstd::prelude::*;

verus! {

/// The translator's state after the code that sets the literals and the
/// code of the first `n` instructions of the program.
pub open spec fn reached(model: Model, n: int) -> State {
    state_of(prepared(model)).generate_constants().instructions(model.code.take(n))
}

/// The state after `n` instructions is on track, the next instruction
/// leads to the state after `n + 1`, and the target program is the code
/// after the last instruction with `Halt` at its end.
pub proof fn lemma_reached(model: Model, n: int)
    requires
        model.wf(),
        model.labels <= usize::MAX,
        0 <= n <= model.code.len(),
    ensures
        on_track(reached(model, n).emission, model.code, n, model.labels as int),
        n < model.code.len() ==> reached(model, n + 1) == reached(model, n).instruction(
            model.code[n],
        ),
        translation(model) == reached(model, model.code.len() as int).emission.code.push(
            VmInstruction::Halt,
        ),
{
    let set = state_of(prepared(model)).generate_constants();
    lemma_start_on_track(model);
    set.lemma_instructions_on_track(model, n);
    if n < model.code.len() {
        assert(model.code.take(n + 1).drop_last() =~= model.code.take(n));
        assert(model.code.take(n + 1).last() == model.code[n]);
    }
    assert(model.code.take(model.code.len() as int) =~= model.code);
}

/// Between two states of the translation, nothing changes at a place
/// where no jump waits.
pub proof fn lemma_stays(model: Model, n: int, m: int)
    requires
        model.wf(),
        model.labels <= usize::MAX,
        0 <= n <= m <= model.code.len(),
    ensures
        reached(model, n).emission.keeps_quiet(reached(model, m).emission),
    decreases m - n,
{
    if n == m {
        reached(model, n).emission.lemma_keeps_quiet();
    } else {
        lemma_stays(model, n, m - 1);
        lemma_reached(model, m - 1);
        reached(model, m - 1).lemma_on_track(model, m - 1);
    }
}

/// The code that an instruction other than a jump appends stands in the
/// target program where it was appended, as it was appended.
///
/// This holds of every instruction of a well-formed program, as long as
/// the program's labels and the target program are no more than an
/// executable program can hold.
pub proof fn lemma_code_stands(model: Model, n: int)
    requires
        model.wf(),
        model.labels <= usize::MAX,
        translation(model).len() <= usize::MAX,
        0 <= n < model.code.len(),
        model.code[n].jump_label() is None,
    ensures
        ({
            let from = reached(model, n).emission.code.len() as int;
            let after = reached(model, n + 1).emission.code;
            &&& from <= after.len() <= translation(model).len()
            &&& translation(model).subrange(from, after.len() as int) == after.subrange(
                from,
                after.len() as int,
            )
        }),
{
    let before = reached(model, n);
    let next = reached(model, n + 1);
    let last = reached(model, model.code.len() as int);
    let from = before.emission.code.len() as int;
    lemma_reached(model, n);
    lemma_reached(model, n + 1);
    lemma_stays(model, n + 1, model.code.len() as int);
    before.lemma_on_track(model, n);
    assert(last.emission.bounded());
    assert(next.emission.bounded());
    assert(before.emission.bounded());
    assert forall|place: int| from <= place < next.emission.code.len() implies next.emission.quiet(
        place,
    ) by {
        reveal(Emission::quiet);
        lemma_waiting_before(model, n);
    }
    assert forall|place: int| from <= place < next.emission.code.len() implies translation(
        model,
    )[place] == next.emission.code[place] by {
        assert(next.emission.quiet(place));
        assert(last.emission.quiet(place));
        assert(last.emission.code[place] == next.emission.code[place]);
    }
    assert(translation(model).subrange(from, next.emission.code.len() as int)
        =~= next.emission.code.subrange(from, next.emission.code.len() as int));
}

/// After an instruction other than a jump, every jump that waits for a
/// label stands before the code of that instruction.
proof fn lemma_waiting_before(model: Model, n: int)
    requires
        model.wf(),
        model.labels <= usize::MAX,
        0 <= n < model.code.len(),
        model.code[n].jump_label() is None,
        reached(model, n + 1).emission.bounded(),
    ensures
        ({
            let from = reached(model, n).emission.code.len();
            let e = reached(model, n + 1).emission;
            forall|l: int, k: int|
                0 <= l < e.pending.len() && 0 <= k < e.pending[l].len() ==> (
                #[trigger] e.pending[l][k]) < from
        }),
{
    let before = reached(model, n);
    let e = reached(model, n + 1).emission;
    let b = before.emission;
    lemma_reached(model, n);
    lemma_reached(model, n + 1);
    before.lemma_on_track(model, n);
    assert(b.bounded());
    assert(b.wf());
    assert(model.valid_instruction(model.code[n]));
    match model.code[n] {
        Instruction::Label { label } => {
            assert(e == b.mark(label.id as int));
            assert forall|l: int, k: int|
                0 <= l < e.pending.len() && 0 <= k < e.pending[l].len() implies (
            #[trigger] e.pending[l][k]) < b.code.len() by {
                if l != label.id {
                    assert(e.pending[l] == b.pending[l]);
                    assert(b.pending[l][k] < b.code.len());
                }
            }
        },
        _ => {
            before.lemma_instruction_continued(model.code[n]);
            assert(b.adds_closed(e));
            assert forall|l: int, k: int|
                0 <= l < e.pending.len() && 0 <= k < e.pending[l].len() implies (
            #[trigger] e.pending[l][k]) < b.code.len() by {
                if l < b.positions.len() {
                    assert(e.pending[l] == b.pending[l]);
                    assert(b.pending[l][k] < b.code.len());
                } else {
                    assert(e.positions[l] is Some);
                }
            }
        },
    }
}

/// The code for a sum stands in the target program as
/// [`State::sum_code`] writes it.
pub proof fn lemma_sum_stands(model: Model, n: int, left: Access, right: Access)
    requires
        model.wf(),
        model.labels <= usize::MAX,
        translation(model).len() <= usize::MAX,
        0 <= n < model.code.len(),
        model.code[n] == (Instruction::Operation { left, op: OperationType::Plus, right }),
    ensures
        ({
            let state = reached(model, n);
            let from = state.emission.code.len() as int;
            let code = state.sum_code(left, right);
            &&& from + code.len() <= translation(model).len()
            &&& translation(model).subrange(from, from + code.len()) == code
        }),
{
    let state = reached(model, n);
    let from = state.emission.code.len() as int;
    let code = state.sum_code(left, right);
    lemma_reached(model, n);
    lemma_code_stands(model, n);
    state.lemma_plus_code(left, right);
    let after = reached(model, n + 1).emission.code;
    assert(after.subrange(from, after.len() as int) =~= code);
}

/// The code for a difference stands in the target
/// program as [`State::difference_code`] writes it.
pub proof fn lemma_difference_stands(model: Model, n: int, left: Access, right: Access)
    requires
        model.wf(),
        model.labels <= usize::MAX,
        translation(model).len() <= usize::MAX,
        0 <= n < model.code.len(),
        model.code[n] == (Instruction::Operation { left, op: OperationType::Minus, right }),
    ensures
        ({
            let state = reached(model, n);
            let from = state.emission.code.len() as int;
            let code = state.difference_code(left, right);
            &&& from + code.len() <= translation(model).len()
            &&& translation(model).subrange(from, from + code.len()) == code
        }),
{
    let state = reached(model, n);
    let from = state.emission.code.len() as int;
    let code = state.difference_code(left, right);
    lemma_reached(model, n);
    lemma_code_stands(model, n);
    state.lemma_minus_code(left, right);
    let after = reached(model, n + 1).emission.code;
    assert(after.subrange(from, after.len() as int) =~= code);
}

/// The code for the product of two operands read from one cell each, neither of them a literal
/// with a shortcut, stands in the target program as
/// [`crate::translator::product::ProductFrame::listing`] writes it.
pub proof fn lemma_product_stands(model: Model, n: int, left: Access, right: Access)
    requires
        model.wf(),
        model.labels <= usize::MAX,
        translation(model).len() <= usize::MAX,
        0 <= n < model.code.len(),
        model.code[n] == (Instruction::Operation { left, op: OperationType::Times, right }),
        is_direct(left),
        is_direct(right),
        reached(model, n).times_literal(left, right) is None,
        reached(model, n).emission.code.len() + 40 <= usize::MAX,
    ensures
        ({
            let frame = reached(model, n).product_frame(left, right);
            &&& frame.base == reached(model, n).emission.code.len()
            &&& frame.base + 35 <= translation(model).len()
            &&& translation(model).subrange(frame.base, frame.base + 35) == frame.listing()
        }),
{
    let state = reached(model, n);
    let frame = state.product_frame(left, right);
    lemma_reached(model, n);
    lemma_code_stands(model, n);
    state.lemma_times_listing(left, right);
    let after = reached(model, n + 1).emission.code;
    assert(frame.listing().len() == 35);
    assert(after.subrange(frame.base, after.len() as int) =~= frame.listing());
}

/// The code for the quotient or the remainder of two operands read from one cell each, neither of
/// them a literal with a shortcut, stands in the target program as
/// [`crate::translator::division::DivisionFrame::listing`] writes it.
pub proof fn lemma_division_stands(model: Model, n: int, left: Access, right: Access, div: bool)
    requires
        model.wf(),
        model.labels <= usize::MAX,
        translation(model).len() <= usize::MAX,
        0 <= n < model.code.len(),
        model.code[n] == (Instruction::Operation {
            left,
            op: if div {
                OperationType::Div
            } else {
                OperationType::Mod
            },
            right,
        }),
        is_direct(left),
        is_direct(right),
        reached(model, n).div_mod_literal(left, right, div) is None,
        reached(model, n).emission.code.len() + 140 <= usize::MAX,
    ensures
        ({
            let frame = reached(model, n).division_frame(left, right, div);
            &&& frame.base == reached(model, n).emission.code.len()
            &&& frame.base + frame.length() <= translation(model).len()
            &&& translation(model).subrange(frame.base, frame.base + frame.length())
                == frame.listing()
        }),
{
    let state = reached(model, n);
    let frame = state.division_frame(left, right, div);
    lemma_reached(model, n);
    lemma_code_stands(model, n);
    state.lemma_div_mod_listing(left, right, div);
    let after = reached(model, n + 1).emission.code;
    assert(frame.listing().len() == frame.length());
    assert(after.subrange(frame.base, after.len() as int) =~= frame.listing());
}

/// The short code for a product with a literal operand stands in the
/// target program as [`State::product_short_code`] writes it.
pub proof fn lemma_product_short_stands(model: Model, n: int, left: Access, right: Access)
    requires
        model.wf(),
        model.labels <= usize::MAX,
        translation(model).len() <= usize::MAX,
        0 <= n < model.code.len(),
        model.code[n] == (Instruction::Operation { left, op: OperationType::Times, right }),
        reached(model, n).times_literal(left, right) is Some,
    ensures
        ({
            let state = reached(model, n);
            let from = state.emission.code.len() as int;
            let code = state.product_short_code(left, right);
            &&& from + code.len() <= translation(model).len()
            &&& translation(model).subrange(from, from + code.len()) == code
        }),
{
    let state = reached(model, n);
    let from = state.emission.code.len() as int;
    let code = state.product_short_code(left, right);
    lemma_reached(model, n);
    lemma_code_stands(model, n);
    state.lemma_times_literal_code(left, right);
    let after = reached(model, n + 1).emission.code;
    assert(after.subrange(from, after.len() as int) =~= code);
}

/// The short code for a quotient or a remainder with a literal operand
/// stands in the target program as [`State::division_short_code`] writes
/// it.
pub proof fn lemma_division_short_stands(
    model: Model,
    n: int,
    left: Access,
    right: Access,
    div: bool,
)
    requires
        model.wf(),
        model.labels <= usize::MAX,
        translation(model).len() <= usize::MAX,
        0 <= n < model.code.len(),
        model.code[n] == (Instruction::Operation {
            left,
            op: if div {
                OperationType::Div
            } else {
                OperationType::Mod
            },
            right,
        }),
        reached(model, n).div_mod_literal(left, right, div) is Some,
    ensures
        ({
            let state = reached(model, n);
            let from = state.emission.code.len() as int;
            let code = state.division_short_code(left, right, div);
            &&& from + code.len() <= translation(model).len()
            &&& translation(model).subrange(from, from + code.len()) == code
        }),
{
    let state = reached(model, n);
    let from = state.emission.code.len() as int;
    let code = state.division_short_code(left, right, div);
    lemma_reached(model, n);
    lemma_code_stands(model, n);
    state.lemma_div_mod_literal_code(left, right, div);
    let after = reached(model, n + 1).emission.code;
    assert(after.subrange(from, after.len() as int) =~= code);
}

/// The code for a product without a shortcut stands in the target
/// program: the code that loads and saves the operands and, behind it,
/// [`crate::translator::product::ProductFrame::listing`] from its fifth
/// instruction on.
pub proof fn lemma_product_code_stands(model: Model, n: int, left: Access, right: Access)
    requires
        model.wf(),
        model.labels <= usize::MAX,
        translation(model).len() <= usize::MAX,
        0 <= n < model.code.len(),
        model.code[n] == (Instruction::Operation { left, op: OperationType::Times, right }),
        reached(model, n).times_literal(left, right) is None,
        reached(model, n).emission.code.len() + 40 <= usize::MAX,
    ensures
        ({
            let state = reached(model, n);
            let from = state.emission.code.len() as int;
            let loads = state.product_loads(left, right);
            let frame = state.product_frame(left, right);
            &&& frame.base + 4 == from + loads.len()
            &&& frame.base + 35 <= translation(model).len()
            &&& translation(model).subrange(from, from + loads.len()) == loads
            &&& translation(model).subrange(frame.base + 4, frame.base + 35)
                == frame.listing().subrange(4, 35)
        }),
{
    let state = reached(model, n);
    let from = state.emission.code.len() as int;
    let loads = state.product_loads(left, right);
    let frame = state.product_frame(left, right);
    lemma_reached(model, n);
    lemma_code_stands(model, n);
    state.lemma_times_code(left, right);
    let after = reached(model, n + 1).emission.code;
    let whole = translation(model);
    let tail = frame.listing().subrange(4, 35);
    assert(after == state.emission.code + (loads + tail));
    assert forall|k: int| from <= k < after.len() implies whole[k] == after[k] by {
        assert(whole.subrange(from, after.len() as int)[k - from] == whole[k]);
        assert(after.subrange(from, after.len() as int)[k - from] == after[k]);
    }
    assert(whole.subrange(from, from + loads.len()) =~= loads);
    assert(whole.subrange(frame.base + 4, frame.base + 35) =~= tail);
}

/// The code for a quotient or a remainder without a shortcut stands in
/// the target program: the code that loads the operands and saves the
/// dividend and, behind it,
/// [`crate::translator::division::DivisionFrame::listing`] from its ninth
/// instruction on.
pub proof fn lemma_division_code_stands(
    model: Model,
    n: int,
    left: Access,
    right: Access,
    div: bool,
)
    requires
        model.wf(),
        model.labels <= usize::MAX,
        translation(model).len() <= usize::MAX,
        0 <= n < model.code.len(),
        model.code[n] == (Instruction::Operation {
            left,
            op: if div {
                OperationType::Div
            } else {
                OperationType::Mod
            },
            right,
        }),
        reached(model, n).div_mod_literal(left, right, div) is None,
        reached(model, n).emission.code.len() + 140 <= usize::MAX,
    ensures
        ({
            let state = reached(model, n);
            let from = state.emission.code.len() as int;
            let loads = state.division_loads(left, right, div);
            let frame = state.division_frame(left, right, div);
            &&& frame.base + 8 == from + loads.len()
            &&& frame.base + frame.length() <= translation(model).len()
            &&& translation(model).subrange(from, from + loads.len()) == loads
            &&& frame.tail_stands(translation(model))
        }),
{
    let state = reached(model, n);
    let from = state.emission.code.len() as int;
    let loads = state.division_loads(left, right, div);
    let frame = state.division_frame(left, right, div);
    lemma_reached(model, n);
    lemma_code_stands(model, n);
    state.lemma_div_mod_code(left, right, div);
    let after = reached(model, n + 1).emission.code;
    let whole = translation(model);
    let tail = frame.listing().subrange(8, frame.length());
    assert(after == state.emission.code + (loads + tail));
    assert forall|k: int| from <= k < after.len() implies whole[k] == after[k] by {
        assert(whole.subrange(from, after.len() as int)[k - from] == whole[k]);
        assert(after.subrange(from, after.len() as int)[k - from] == after[k]);
    }
    assert(whole.subrange(from, from + loads.len()) =~= loads);
    assert(whole.subrange(frame.base + 8, frame.base + frame.length()) =~= tail);
}

} // verus!
