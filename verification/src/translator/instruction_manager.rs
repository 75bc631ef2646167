//! The target program under construction, with the bookkeeping that resolves
//! labels to instruction offsets.
//!
//! A jump to a label whose place is known is emitted with that place. A jump
//! to a label that is not marked yet is emitted with a sentinel target and
//! remembered; when the label is marked, every remembered jump is patched.

use crate::instruction::Instruction as VmInstruction;
use crate::intermediate::Label;
use crate::translator::memory::MemoryLocation;
use vstd::prelude::*;

verus! {

/// The target of a jump whose label is not marked yet.
pub const SENTINEL: u64 = 0xffff_ffff_ffff_ffff;

/// Which of the four jumps.
#[derive(Debug, Clone, Copy, PartialEq, Eq, Structural)]
pub enum JumpKind {
    Jump,
    Jpos,
    Jzero,
    Jneg,
}

impl JumpKind {
    /// The jump of this kind to `target`.
    pub open spec fn at(self, target: u64) -> VmInstruction {
        match self {
            JumpKind::Jump => VmInstruction::Jump(target),
            JumpKind::Jpos => VmInstruction::Jpos(target),
            JumpKind::Jzero => VmInstruction::Jzero(target),
            JumpKind::Jneg => VmInstruction::Jneg(target),
        }
    }

    pub fn create(self, target: u64) -> (r: VmInstruction)
        ensures
            r == self.at(target),
    {
        match self {
            JumpKind::Jump => VmInstruction::Jump(target),
            JumpKind::Jpos => VmInstruction::Jpos(target),
            JumpKind::Jzero => VmInstruction::Jzero(target),
            JumpKind::Jneg => VmInstruction::Jneg(target),
        }
    }
}

/// The instruction with its target replaced, if it is a jump.
pub open spec fn retarget(instruction: VmInstruction, target: u64) -> VmInstruction {
    match instruction {
        VmInstruction::Jump(_) => VmInstruction::Jump(target),
        VmInstruction::Jpos(_) => VmInstruction::Jpos(target),
        VmInstruction::Jzero(_) => VmInstruction::Jzero(target),
        VmInstruction::Jneg(_) => VmInstruction::Jneg(target),
        other => other,
    }
}

/// `code` with the jumps at the places in `places` retargeted.
pub open spec fn patch(code: Seq<VmInstruction>, places: Seq<usize>, target: u64) -> Seq<
    VmInstruction,
>
    decreases places.len(),
{
    if places.len() == 0 {
        code
    } else {
        let front = patch(code, places.drop_last(), target);
        let place = places.last() as int;
        if 0 <= place < front.len() {
            front.update(place, retarget(front[place], target))
        } else {
            front
        }
    }
}

/// The state of the emission: the code so far; for every label handed out its
/// place, once it is marked; and for every label the places of the jumps that
/// wait for it.
pub struct Emission {
    pub code: Seq<VmInstruction>,
    pub positions: Seq<Option<u64>>,
    pub pending: Seq<Seq<usize>>,
}

impl Emission {
    /// Every label has its entry in both tables, and every jump that waits
    /// for a label is a jump of the code.
    pub open spec fn wf(self) -> bool {
        &&& self.positions.len() == self.pending.len()
        &&& forall|l: int, k: int|
            0 <= l < self.pending.len() && 0 <= k < self.pending[l].len() ==> {
                &&& 0 <= (#[trigger] self.pending[l][k]) < self.code.len()
                &&& self.code[self.pending[l][k] as int].is_jump()
            }
    }

    pub open spec fn push(self, instruction: VmInstruction) -> Emission {
        Emission { code: self.code.push(instruction), ..self }
    }

    /// One more label, not marked, with no jump waiting.
    pub open spec fn add_label(self) -> Emission {
        Emission {
            positions: self.positions.push(None),
            pending: self.pending.push(Seq::empty()),
            ..self
        }
    }

    pub open spec fn jump(self, label: int, kind: JumpKind) -> Emission
        recommends
            0 <= label < self.positions.len(),
    {
        match self.positions[label] {
            Some(position) => self.push(kind.at(position)),
            None => Emission {
                code: self.code.push(kind.at(SENTINEL)),
                pending: self.pending.update(
                    label,
                    self.pending[label].push(self.code.len() as usize),
                ),
                ..self
            },
        }
    }

    pub open spec fn mark(self, label: int) -> Emission
        recommends
            0 <= label < self.positions.len(),
    {
        let target = self.code.len() as u64;
        Emission {
            code: patch(self.code, self.pending[label], target),
            positions: self.positions.update(label, Some(target)),
            pending: self.pending.update(label, Seq::empty()),
        }
    }
}

impl Emission {
    /// The code is no longer than an executable program can be.
    pub open spec fn bounded(self) -> bool {
        self.code.len() <= usize::MAX
    }

    /// The label is marked.
    pub open spec fn marked(self, label: int) -> bool {
        0 <= label < self.positions.len() && self.positions[label] is Some
    }

    /// The label is known and not marked.
    pub open spec fn fresh(self, label: int) -> bool {
        0 <= label < self.positions.len() && self.positions[label] is None
    }

    /// The label is marked and no jump waits for it.
    pub open spec fn closed(self, label: int) -> bool {
        self.marked(label) && label < self.pending.len() && self.pending[label].len() == 0
    }

    /// The jump at `place` goes to the place of a marked label.
    pub open spec fn settled(self, place: int) -> bool {
        exists|label: int|
            0 <= label < self.positions.len() && #[trigger] self.positions[label]
                == self.code[place].operand()
    }

    /// The jump at `place` waits for a label that is not marked.
    pub open spec fn awaited(self, place: int) -> bool {
        exists|label: int, k: int|
            0 <= label < self.pending.len() && 0 <= k < self.pending[label].len()
                && #[trigger] self.pending[label][k] == place && self.fresh(label)
    }

    /// What is no jump in the code of `self` stands unchanged in the code
    /// of `after`, and what is a jump is still a jump.
    pub open spec fn keeps_plain(self, after: Emission) -> bool {
        &&& self.code.len() <= after.code.len()
        &&& forall|place: int|
            0 <= place < self.code.len() ==> (#[trigger] after.code[place]).is_jump()
                == self.code[place].is_jump()
        &&& forall|place: int|
            0 <= place < self.code.len() && !self.code[place].is_jump()
                ==> #[trigger] after.code[place] == self.code[place]
    }

    /// No jump waits at `place` for a label.
    #[verifier::opaque]
    pub open spec fn quiet(self, place: int) -> bool {
        forall|l: int, k: int|
            0 <= l < self.pending.len() && 0 <= k < self.pending[l].len()
                ==> #[trigger] self.pending[l][k] != place
    }

    /// As long as the code is no longer than an executable program can be:
    /// where no jump waits at a place of `self`, none waits there in
    /// `after`, and the instruction there is the same.
    pub open spec fn keeps_quiet(self, after: Emission) -> bool {
        &&& self.code.len() <= after.code.len()
        &&& after.bounded() ==> forall|place: int|
            #![trigger after.quiet(place)]
            #![trigger after.code[place]]
            0 <= place < self.code.len() && self.quiet(place) ==> after.quiet(place)
                && after.code[place] == self.code[place]
    }

    /// No step of the emission changes an instruction at a place where no
    /// jump waits, or makes a jump wait there.
    pub proof fn lemma_keeps_quiet(self)
        ensures
            forall|i: VmInstruction| self.keeps_quiet(#[trigger] self.push(i)),
            forall|l: int, k: JumpKind|
                0 <= l < self.pending.len() ==> self.keeps_quiet(#[trigger] self.jump(l, k)),
            forall|l: int| 0 <= l < self.pending.len() ==> self.keeps_quiet(#[trigger] self.mark(l)),
            self.keeps_quiet(self.add_label()),
            self.keeps_quiet(self),
    {
        reveal(Emission::quiet);
        assert forall|l: int| 0 <= l < self.pending.len() implies self.keeps_quiet(
            #[trigger] self.mark(l),
        ) by {
            let after = self.mark(l);
            lemma_patch(self.code, self.pending[l], self.code.len() as u64);
            if after.bounded() {
                assert forall|place: int|
                    #![trigger after.quiet(place)]
                    #![trigger after.code[place]]
                    0 <= place < self.code.len() && self.quiet(place) implies after.quiet(place)
                    && after.code[place] == self.code[place] by {
                    if self.pending[l].contains(place as usize) {
                        let k = choose|k: int|
                            0 <= k < self.pending[l].len() && self.pending[l][k] == place as usize;
                        assert(self.pending[l][k] != place);
                    }
                    assert forall|m: int, j: int|
                        0 <= m < after.pending.len() && 0 <= j < after.pending[m].len()
                        implies #[trigger] after.pending[m][j] != place by {
                        assert(m != l);
                        assert(after.pending[m][j] == self.pending[m][j]);
                    }
                }
            }
        }
        assert forall|l: int, k: JumpKind| 0 <= l < self.pending.len() implies self.keeps_quiet(
            #[trigger] self.jump(l, k),
        ) by {
            let after = self.jump(l, k);
            if after.bounded() {
                assert forall|place: int|
                    #![trigger after.quiet(place)]
                    #![trigger after.code[place]]
                    0 <= place < self.code.len() && self.quiet(place) implies after.quiet(place)
                    && after.code[place] == self.code[place] by {
                    assert forall|m: int, j: int|
                        0 <= m < after.pending.len() && 0 <= j < after.pending[m].len()
                        implies #[trigger] after.pending[m][j] != place by {
                        if self.positions[l] is None && m == l {
                            if j < self.pending[l].len() {
                                assert(after.pending[m][j] == self.pending[l][j]);
                            }
                        } else {
                            assert(after.pending[m][j] == self.pending[m][j]);
                        }
                    }
                }
            }
        }
    }

    /// No step of the emission changes an instruction that is no jump.
    pub proof fn lemma_keeps_plain(self)
        ensures
            forall|i: VmInstruction| self.keeps_plain(#[trigger] self.push(i)),
            forall|l: int, k: JumpKind| self.keeps_plain(#[trigger] self.jump(l, k)),
            forall|l: int| self.keeps_plain(#[trigger] self.mark(l)),
            self.keeps_plain(self.add_label()),
    {
        assert forall|l: int| self.keeps_plain(#[trigger] self.mark(l)) by {
            lemma_patch(self.code, self.pending[l], self.code.len() as u64);
        }
    }

    /// As long as the code is no longer than a program can be: the
    /// bookkeeping is in order, a marked label stands at a place of the
    /// code and no jump waits for it, and every jump either goes to the
    /// place of a marked label or waits for a label that is not marked.
    pub open spec fn resolved(self) -> bool {
        self.bounded() ==> {
            &&& self.wf()
            &&& forall|label: int|
                0 <= label < self.positions.len() && (#[trigger] self.positions[label]) is Some ==> {
                    &&& self.positions[label].unwrap() <= self.code.len()
                    &&& self.pending[label].len() == 0
                }
            &&& forall|place: int|
                0 <= place < self.code.len() && (#[trigger] self.code[place]).is_jump()
                    ==> self.settled(place) || self.awaited(place)
        }
    }

    pub proof fn lemma_resolved_push(self, instruction: VmInstruction)
        requires
            self.resolved(),
            !instruction.is_jump(),
        ensures
            self.push(instruction).resolved(),
    {
        let after = self.push(instruction);
        if after.bounded() {
            assert forall|place: int|
                0 <= place < after.code.len() && (#[trigger] after.code[place]).is_jump() implies after.settled(
                place,
            ) || after.awaited(place) by {
                assert(after.code[place] == self.code[place]);
                if self.settled(place) {
                    let label = choose|label: int|
                        0 <= label < self.positions.len() && #[trigger] self.positions[label]
                            == self.code[place].operand();
                    assert(after.positions[label] == after.code[place].operand());
                } else {
                    let (label, k) = choose|label: int, k: int|
                        0 <= label < self.pending.len() && 0 <= k < self.pending[label].len()
                            && #[trigger] self.pending[label][k] == place && self.fresh(label);
                    assert(after.pending[label][k] == place);
                }
            }
        }
    }

    pub proof fn lemma_resolved_add_label(self)
        requires
            self.resolved(),
        ensures
            self.add_label().resolved(),
    {
        let after = self.add_label();
        if after.bounded() {
            assert forall|l: int, k: int|
                0 <= l < after.pending.len() && 0 <= k < after.pending[l].len() implies {
                &&& 0 <= (#[trigger] after.pending[l][k]) < after.code.len()
                &&& after.code[after.pending[l][k] as int].is_jump()
            } by {
                assert(after.pending[l] == self.pending[l]);
                assert(self.pending[l][k] == after.pending[l][k]);
            }
            assert forall|label: int|
                0 <= label < after.positions.len() && (
                #[trigger] after.positions[label]) is Some implies {
                &&& after.positions[label].unwrap() <= after.code.len()
                &&& after.pending[label].len() == 0
            } by {
                assert(after.positions[label] == self.positions[label]);
                assert(after.pending[label] == self.pending[label]);
            }
            assert forall|place: int|
                0 <= place < after.code.len() && (#[trigger] after.code[place]).is_jump() implies after.settled(
                place,
            ) || after.awaited(place) by {
                assert(after.code[place] == self.code[place]);
                if self.settled(place) {
                    let label = choose|label: int|
                        0 <= label < self.positions.len() && #[trigger] self.positions[label]
                            == self.code[place].operand();
                    assert(after.positions[label] == after.code[place].operand());
                } else {
                    let (label, k) = choose|label: int, k: int|
                        0 <= label < self.pending.len() && 0 <= k < self.pending[label].len()
                            && #[trigger] self.pending[label][k] == place && self.fresh(label);
                    assert(after.pending[label] == self.pending[label]);
                    assert(after.pending[label][k] == place);
                    assert(after.positions[label] == self.positions[label]);
                }
            }
        }
    }

    pub proof fn lemma_resolved_jump(self, target: int, kind: JumpKind)
        requires
            self.resolved(),
            0 <= target < self.positions.len(),
        ensures
            self.jump(target, kind).resolved(),
    {
        let after = self.jump(target, kind);
        if after.bounded() {
            let last = self.code.len() as int;
            assert(after.code.len() == last + 1);
            assert forall|place: int| 0 <= place < last implies after.code[place]
                == #[trigger] self.code[place] by {}
            assert forall|l: int, k: int|
                0 <= l < after.pending.len() && 0 <= k < after.pending[l].len() implies {
                &&& 0 <= (#[trigger] after.pending[l][k]) < after.code.len()
                &&& after.code[after.pending[l][k] as int].is_jump()
            } by {
                if self.positions[target] is None && l == target && k == self.pending[l].len() {
                    assert(after.pending[l][k] == last);
                } else {
                    assert(after.pending[l][k] == self.pending[l][k]);
                    assert(after.code[self.pending[l][k] as int] == self.code[self.pending[l][k] as int]);
                }
            }
            assert forall|label: int|
                0 <= label < after.positions.len() && (
                #[trigger] after.positions[label]) is Some implies {
                &&& after.positions[label].unwrap() <= after.code.len()
                &&& after.pending[label].len() == 0
            } by {
                assert(self.positions[label] is Some);
            }
            assert forall|place: int|
                0 <= place < after.code.len() && (#[trigger] after.code[place]).is_jump() implies after.settled(
                place,
            ) || after.awaited(place) by {
                if place == last {
                    if self.positions[target] is Some {
                        assert(after.positions[target] == after.code[place].operand());
                    } else {
                        assert(after.pending[target][self.pending[target].len() as int] == place);
                    }
                } else {
                    assert(after.code[place] == self.code[place]);
                    if self.settled(place) {
                        let label = choose|label: int|
                            0 <= label < self.positions.len() && #[trigger] self.positions[label]
                                == self.code[place].operand();
                        assert(after.positions[label] == after.code[place].operand());
                    } else {
                        let (label, k) = choose|label: int, k: int|
                            0 <= label < self.pending.len() && 0 <= k < self.pending[label].len()
                                && #[trigger] self.pending[label][k] == place && self.fresh(label);
                        assert(after.pending[label][k] == place);
                    }
                }
            }
        }
    }

    pub proof fn lemma_resolved_mark(self, label: int)
        requires
            self.resolved(),
            self.fresh(label),
        ensures
            self.mark(label).resolved(),
    {
        let after = self.mark(label);
        if after.bounded() {
            let target = self.code.len() as u64;
            let places = self.pending[label];
            lemma_patch(self.code, places, target);
            assert forall|l: int, k: int|
                0 <= l < after.pending.len() && 0 <= k < after.pending[l].len() implies {
                &&& 0 <= (#[trigger] after.pending[l][k]) < after.code.len()
                &&& after.code[after.pending[l][k] as int].is_jump()
            } by {
                assert(after.pending[l][k] == self.pending[l][k]);
            }
            assert forall|other: int|
                0 <= other < after.positions.len() && (
                #[trigger] after.positions[other]) is Some implies {
                &&& after.positions[other].unwrap() <= after.code.len()
                &&& after.pending[other].len() == 0
            } by {
                if other != label {
                    assert(self.positions[other] is Some);
                }
            }
            assert forall|place: int|
                0 <= place < after.code.len() && (#[trigger] after.code[place]).is_jump() implies after.settled(
                place,
            ) || after.awaited(place) by {
                assert(self.code[place].is_jump());
                if places.contains(place as usize) && place <= usize::MAX {
                    assert(after.positions[label] == after.code[place].operand());
                } else {
                    assert(after.code[place] == self.code[place]);
                    if self.settled(place) {
                        let other = choose|other: int|
                            0 <= other < self.positions.len() && #[trigger] self.positions[other]
                                == self.code[place].operand();
                        assert(after.positions[other] == after.code[place].operand());
                    } else {
                        let (other, k) = choose|other: int, k: int|
                            0 <= other < self.pending.len() && 0 <= k < self.pending[other].len()
                                && #[trigger] self.pending[other][k] == place && self.fresh(other);
                        if other == label {
                            assert(places[k] == place as usize);
                            assert(places.contains(place as usize));
                        } else {
                            assert(after.pending[other][k] == place);
                        }
                    }
                }
            }
        }
    }
}

/// What patching does: the code keeps its length; at the places patched a
/// jump goes to the target; everywhere else the code is as it was; and
/// what was a jump is a jump.
pub proof fn lemma_patch(code: Seq<VmInstruction>, places: Seq<usize>, target: u64)
    ensures
        patch(code, places, target).len() == code.len(),
        forall|place: int|
            0 <= place < code.len() ==> (#[trigger] patch(code, places, target)[place]).is_jump()
                == code[place].is_jump(),
        forall|place: int|
            0 <= place < code.len() && !places.contains(place as usize) ==> #[trigger] patch(
                code,
                places,
                target,
            )[place] == code[place],
        forall|place: int|
            0 <= place < code.len() && !code[place].is_jump() ==> #[trigger] patch(
                code,
                places,
                target,
            )[place] == code[place],
        forall|place: int|
            0 <= place < code.len() && place <= usize::MAX && places.contains(place as usize)
                && code[place].is_jump() ==> (#[trigger] patch(
                code,
                places,
                target,
            )[place]).operand() == Some(target),
    decreases places.len(),
{
    if places.len() > 0 {
        let front = places.drop_last();
        lemma_patch(code, front, target);
        let before = patch(code, front, target);
        let last = places.last() as int;
        assert forall|place: int|
            0 <= place < code.len() && !places.contains(place as usize) implies #[trigger] patch(
            code,
            places,
            target,
        )[place] == code[place] by {
            assert(places[places.len() - 1] == places.last());
            assert(place != last);
            if front.contains(place as usize) {
                let k = choose|k: int| 0 <= k < front.len() && front[k] == place as usize;
                assert(places[k] == place as usize);
            }
        }
        assert forall|place: int|
            0 <= place < code.len() && place <= usize::MAX && places.contains(place as usize)
                && code[place].is_jump() implies (#[trigger] patch(
            code,
            places,
            target,
        )[place]).operand() == Some(target) by {
            if place != last {
                let k = choose|k: int| 0 <= k < places.len() && places[k] == place as usize;
                assert(front[k] == place as usize);
                assert(front.contains(place as usize));
            }
        }
    }
}

/// The target program under construction.
pub struct InstructionManager {
    target_instructions: Vec<VmInstruction>,
    label_positions: Vec<Option<u64>>,
    back_patches_list: Vec<Vec<usize>>,
}

impl View for InstructionManager {
    type V = Emission;

    closed spec fn view(&self) -> Emission {
        Emission {
            code: self.target_instructions@,
            positions: self.label_positions@,
            pending: self.back_patches_list@.map_values(|places: Vec<usize>| places@),
        }
    }
}

#[allow(non_snake_case)]
impl InstructionManager {
    /// Nothing emitted, and `labels` labels known, none of them marked.
    pub fn new(labels: usize) -> (manager: InstructionManager)
        ensures
            manager@.wf(),
            manager@.code.len() == 0,
            manager@.positions.len() == labels,
            forall|l: int| 0 <= l < labels ==> #[trigger] manager@.positions[l] is None,
            forall|l: int| 0 <= l < labels ==> #[trigger] manager@.pending[l] == Seq::<usize>::empty(),
    {
        let mut manager = InstructionManager {
            target_instructions: Vec::new(),
            label_positions: Vec::new(),
            back_patches_list: Vec::new(),
        };
        let mut i: usize = 0;
        while i < labels
            invariant
                i <= labels,
                manager.target_instructions@.len() == 0,
                manager.label_positions@.len() == i,
                manager.back_patches_list@.len() == i,
                forall|l: int| 0 <= l < i ==> #[trigger] manager.label_positions@[l] is None,
                forall|l: int| 0 <= l < i ==> (#[trigger] manager.back_patches_list@[l])@.len() == 0,
            decreases labels - i,
        {
            manager.label_positions.push(None);
            manager.back_patches_list.push(Vec::new());
            i += 1;
        }
        assert forall|l: int| 0 <= l < labels implies #[trigger] manager@.pending[l] == Seq::<
            usize,
        >::empty() by {
            assert(manager.back_patches_list@[l]@ =~= Seq::<usize>::empty());
        }
        manager
    }

    /// Makes room for one more label.
    pub fn add_label(&mut self)
        requires
            old(self)@.wf(),
        ensures
            final(self)@ == old(self)@.add_label(),
            final(self)@.wf(),
    {
        self.label_positions.push(None);
        self.back_patches_list.push(Vec::new());
        proof {
            let places: Vec<usize> = self.back_patches_list@.last();
            assert(places@ =~= Seq::<usize>::empty());
            assert(self@.pending =~= old(self)@.pending.push(Seq::empty()));
            assert forall|l: int, k: int|
                0 <= l < self@.pending.len() && 0 <= k < self@.pending[l].len() implies {
                &&& 0 <= (#[trigger] self@.pending[l][k]) < self@.code.len()
                &&& self@.code[self@.pending[l][k] as int].is_jump()
            } by {
                assert(self@.pending[l] == old(self)@.pending[l]);
            }
        }
    }

    /// The number of instructions emitted so far.
    pub fn position(&self) -> (r: usize)
        ensures
            r == self@.code.len(),
    {
        self.target_instructions.len()
    }

    /// Appends an instruction.
    pub fn push(&mut self, instruction: VmInstruction)
        requires
            old(self)@.wf(),
        ensures
            final(self)@ == old(self)@.push(instruction),
            final(self)@.wf(),
    {
        self.target_instructions.push(instruction);
        proof {
            assert(self@.pending =~= old(self)@.pending);
            assert forall|l: int, k: int|
                0 <= l < self@.pending.len() && 0 <= k < self@.pending[l].len() implies {
                &&& 0 <= (#[trigger] self@.pending[l][k]) < self@.code.len()
                &&& self@.code[self@.pending[l][k] as int].is_jump()
            } by {
                assert(self@.pending[l][k] == old(self)@.pending[l][k]);
            }
        }
    }

    /// Gives the jump at `instruction_ptr` the target `target_pointer`.
    fn fix_label(&mut self, instruction_ptr: usize, target_pointer: u64)
        requires
            instruction_ptr < old(self).target_instructions@.len(),
        ensures
            final(self).target_instructions@ == old(self).target_instructions@.update(
                instruction_ptr as int,
                retarget(old(self).target_instructions@[instruction_ptr as int], target_pointer),
            ),
            final(self).label_positions == old(self).label_positions,
            final(self).back_patches_list == old(self).back_patches_list,
    {
        let patched = match self.target_instructions[instruction_ptr] {
            VmInstruction::Jump(_) => VmInstruction::Jump(target_pointer),
            VmInstruction::Jpos(_) => VmInstruction::Jpos(target_pointer),
            VmInstruction::Jzero(_) => VmInstruction::Jzero(target_pointer),
            VmInstruction::Jneg(_) => VmInstruction::Jneg(target_pointer),
            other => other,
        };
        self.target_instructions[instruction_ptr] = patched;
    }

    /// Emits a jump to `label`.
    pub fn translate_jump(&mut self, label: &Label, kind: JumpKind)
        requires
            old(self)@.wf(),
            label.id() < old(self)@.positions.len(),
        ensures
            final(self)@ == old(self)@.jump(label.id() as int, kind),
            final(self)@.wf(),
    {
        let id = label.id();
        match self.label_positions[id] {
            Some(position) => {
                self.push(kind.create(position));
            },
            None => {
                let place = self.target_instructions.len();
                let mut places: Vec<usize> = Vec::new();
                std::mem::swap(&mut places, &mut self.back_patches_list[id]);
                places.push(place);
                self.back_patches_list[id] = places;
                self.target_instructions.push(kind.create(SENTINEL));
                proof {
                    assert(self@.pending =~= old(self)@.pending.update(
                        id as int,
                        old(self)@.pending[id as int].push(place),
                    ));
                    assert forall|l: int, k: int|
                        0 <= l < self@.pending.len() && 0 <= k < self@.pending[l].len() implies {
                        &&& 0 <= (#[trigger] self@.pending[l][k]) < self@.code.len()
                        &&& self@.code[self@.pending[l][k] as int].is_jump()
                    } by {
                        if l == id && k == old(self)@.pending[l].len() {
                        } else {
                            assert(self@.pending[l][k] == old(self)@.pending[l][k]);
                        }
                    }
                }
            },
        }
    }

    /// Marks `label` at the place of the next instruction and patches the
    /// jumps that waited for it.
    pub fn translate_label(&mut self, label: &Label)
        requires
            old(self)@.wf(),
            label.id() < old(self)@.positions.len(),
        ensures
            final(self)@ == old(self)@.mark(label.id() as int),
            final(self)@.wf(),
    {
        let id = label.id();
        let target = self.target_instructions.len() as u64;
        self.label_positions[id] = Some(target);
        let mut backlist: Vec<usize> = Vec::new();
        std::mem::swap(&mut backlist, &mut self.back_patches_list[id]);
        let ghost start = self.target_instructions@;
        let n = backlist.len();
        let mut i: usize = 0;
        while i < n
            invariant
                n == backlist@.len(),
                i <= n,
                backlist@ == old(self)@.pending[id as int],
                start == old(self)@.code,
                old(self)@.wf(),
                id < old(self)@.positions.len(),
                self.target_instructions@ == patch(start, backlist@.take(i as int), target),
                self.target_instructions@.len() == start.len(),
                self.label_positions@ == old(self).label_positions@.update(id as int, Some(target)),
                self.back_patches_list@.len() == old(self).back_patches_list@.len(),
                forall|l: int|
                    0 <= l < self.back_patches_list@.len() && l != id
                        ==> #[trigger] self.back_patches_list@[l] == old(self).back_patches_list@[l],
                self.back_patches_list@[id as int]@.len() == 0,
            decreases n - i,
        {
            proof {
                assert(backlist@.take(i + 1).drop_last() =~= backlist@.take(i as int));
                assert(old(self)@.pending[id as int][i as int] < start.len());
            }
            self.fix_label(backlist[i], target);
            i += 1;
        }
        proof {
            assert(backlist@.take(n as int) =~= backlist@);
            assert forall|l: int| 0 <= l < self@.pending.len() implies #[trigger] self@.pending[l]
                == old(self)@.pending.update(id as int, Seq::empty())[l] by {
                if l == id {
                    assert(self.back_patches_list@[l]@ =~= Seq::<usize>::empty());
                } else {
                    assert(self.back_patches_list@[l] == old(self).back_patches_list@[l]);
                }
            }
            assert(self@.pending =~= old(self)@.pending.update(id as int, Seq::empty()));
            let done = self@;
            assert forall|l: int, k: int|
                0 <= l < done.pending.len() && 0 <= k < done.pending[l].len() implies {
                &&& 0 <= (#[trigger] done.pending[l][k]) < done.code.len()
                &&& done.code[done.pending[l][k] as int].is_jump()
            } by {
                assert(done.pending[l][k] == old(self)@.pending[l][k]);
                lemma_patch_keeps_jumps(start, backlist@, target, done.pending[l][k] as int);
            }
        }
    }

    pub fn instr_Get(&mut self)
        requires
            old(self)@.wf(),
        ensures
            final(self)@ == old(self)@.push(VmInstruction::Get),
            final(self)@.wf(),
    {
        self.push(VmInstruction::Get);
    }

    pub fn instr_Put(&mut self)
        requires
            old(self)@.wf(),
        ensures
            final(self)@ == old(self)@.push(VmInstruction::Put),
            final(self)@.wf(),
    {
        self.push(VmInstruction::Put);
    }

    pub fn instr_Load(&mut self, operand: MemoryLocation)
        requires
            old(self)@.wf(),
        ensures
            final(self)@ == old(self)@.push(VmInstruction::Load(operand.0)),
            final(self)@.wf(),
    {
        self.push(VmInstruction::Load(operand.0));
    }

    pub fn instr_Loadi(&mut self, operand: MemoryLocation)
        requires
            old(self)@.wf(),
        ensures
            final(self)@ == old(self)@.push(VmInstruction::Loadi(operand.0)),
            final(self)@.wf(),
    {
        self.push(VmInstruction::Loadi(operand.0));
    }

    pub fn instr_Store(&mut self, operand: MemoryLocation)
        requires
            old(self)@.wf(),
        ensures
            final(self)@ == old(self)@.push(VmInstruction::Store(operand.0)),
            final(self)@.wf(),
    {
        self.push(VmInstruction::Store(operand.0));
    }

    pub fn instr_Storei(&mut self, operand: MemoryLocation)
        requires
            old(self)@.wf(),
        ensures
            final(self)@ == old(self)@.push(VmInstruction::Storei(operand.0)),
            final(self)@.wf(),
    {
        self.push(VmInstruction::Storei(operand.0));
    }

    pub fn instr_Add(&mut self, operand: MemoryLocation)
        requires
            old(self)@.wf(),
        ensures
            final(self)@ == old(self)@.push(VmInstruction::Add(operand.0)),
            final(self)@.wf(),
    {
        self.push(VmInstruction::Add(operand.0));
    }

    pub fn instr_Sub(&mut self, operand: MemoryLocation)
        requires
            old(self)@.wf(),
        ensures
            final(self)@ == old(self)@.push(VmInstruction::Sub(operand.0)),
            final(self)@.wf(),
    {
        self.push(VmInstruction::Sub(operand.0));
    }

    pub fn instr_Shift(&mut self, operand: MemoryLocation)
        requires
            old(self)@.wf(),
        ensures
            final(self)@ == old(self)@.push(VmInstruction::Shift(operand.0)),
            final(self)@.wf(),
    {
        self.push(VmInstruction::Shift(operand.0));
    }

    pub fn instr_Inc(&mut self)
        requires
            old(self)@.wf(),
        ensures
            final(self)@ == old(self)@.push(VmInstruction::Inc),
            final(self)@.wf(),
    {
        self.push(VmInstruction::Inc);
    }

    pub fn instr_Dec(&mut self)
        requires
            old(self)@.wf(),
        ensures
            final(self)@ == old(self)@.push(VmInstruction::Dec),
            final(self)@.wf(),
    {
        self.push(VmInstruction::Dec);
    }

    pub fn instr_Halt(&mut self)
        requires
            old(self)@.wf(),
        ensures
            final(self)@ == old(self)@.push(VmInstruction::Halt),
            final(self)@.wf(),
    {
        self.push(VmInstruction::Halt);
    }

    /// The program emitted.
    pub fn into_instructions(self) -> (program: Vec<VmInstruction>)
        ensures
            program@ == self@.code,
    {
        self.target_instructions
    }
}

/// Patching keeps the length of the code and turns no jump into anything but
/// a jump.
pub proof fn lemma_patch_keeps_jumps(
    code: Seq<VmInstruction>,
    places: Seq<usize>,
    target: u64,
    at: int,
)
    requires
        0 <= at < code.len(),
    ensures
        patch(code, places, target).len() == code.len(),
        patch(code, places, target)[at].is_jump() == code[at].is_jump(),
    decreases places.len(),
{
    if places.len() > 0 {
        lemma_patch_keeps_jumps(code, places.drop_last(), target, at);
    }
}

} // verus!
