//! The context of a program in intermediate form: its variables, its
//! literals, its labels and its instructions.

use crate::intermediate::variable::{names, shapes};
use crate::intermediate::variable::{Shape, UniqueVariable, Variable, VariableIndex};
use crate::intermediate::{lookup_constant, position_of_name};
use crate::intermediate::{Access, Constant, Instruction, Label};
use vstd::prelude::*;

verus! {

/// Everything the translator needs to know about a program.
///
/// Variables are never removed, so an index stays valid once handed out. A
/// literal is registered at most once; its cell is an ordinary unit variable.
#[derive(Debug)]
pub struct Context {
    variables: Vec<UniqueVariable>,
    constants: Vec<(Constant, VariableIndex)>,
    labels: Vec<Label>,
    instructions: Vec<Instruction>,
}

/// Names of the cells that every context starts with, in this order: the
/// accumulator's mirror and three scratch cells.
pub open spec fn preregistered_names() -> Seq<Seq<char>> {
    seq!["p0"@, "tmp$op"@, "tmp$1"@, "tmp$2"@]
}

/// What a context holds, as plain values: the name and the shape of each
/// variable, the literals with their cells, the number of labels handed out,
/// and the instructions.
pub struct Model {
    pub names: Seq<Seq<char>>,
    pub shapes: Seq<Shape>,
    pub constants: Seq<(Constant, VariableIndex)>,
    pub labels: nat,
    pub code: Seq<Instruction>,
}

impl Model {
    /// The first four cells, and nothing else.
    pub open spec fn initial() -> Model {
        Model {
            names: preregistered_names(),
            shapes: seq![Shape::Unit, Shape::Unit, Shape::Unit, Shape::Unit],
            constants: Seq::empty(),
            labels: 0,
            code: Seq::empty(),
        }
    }

    /// The variable that `index` names is a unit.
    pub open spec fn is_unit(self, index: VariableIndex) -> bool {
        &&& index.id < self.shapes.len()
        &&& self.shapes[index.id as int] is Unit
    }

    /// The variable that `index` names is an array.
    pub open spec fn is_array(self, index: VariableIndex) -> bool {
        &&& index.id < self.shapes.len()
        &&& self.shapes[index.id as int] is Array
    }

    /// The cell of the literal, where it is registered.
    pub open spec fn constant_index(self, constant: Constant) -> Option<VariableIndex> {
        lookup_constant(self.constants, constant)
    }

    /// Position of the first variable called `name`.
    pub open spec fn find(self, name: Seq<char>) -> Option<int> {
        position_of_name(self.names, name)
    }

    /// The access names variables of the right kind, a registered literal, and
    /// for a literal index one inside the array's range.
    pub open spec fn valid_access(self, access: Access) -> bool {
        match access {
            Access::Constant(c) => self.constant_index(c) is Some,
            Access::Variable(v) => self.is_unit(v),
            Access::ArrayStatic(a, c) => {
                &&& self.is_array(a)
                &&& self.constant_index(c) is Some
                &&& self.shapes[a.id as int]->start <= c.0 <= self.shapes[a.id as int]->end
            },
            Access::ArrayDynamic(a, i) => self.is_array(a) && self.is_unit(i),
        }
    }

    pub open spec fn valid_label(self, label: Label) -> bool {
        label.id() < self.labels
    }

    pub open spec fn valid_instruction(self, instruction: Instruction) -> bool {
        match instruction {
            Instruction::Label { label } => self.valid_label(label),
            Instruction::Load { access } => self.valid_access(access),
            Instruction::PreStore { access } => self.valid_access(access) && !(access is Constant),
            Instruction::Store { access } => self.valid_access(access) && !(access is Constant),
            Instruction::Operation { left, right, .. } => self.valid_access(left)
                && self.valid_access(right),
            Instruction::Jump { label } => self.valid_label(label),
            Instruction::JNegative { label } => self.valid_label(label),
            Instruction::JPositive { label } => self.valid_label(label),
            Instruction::JZero { label } => self.valid_label(label),
            Instruction::Get => true,
            Instruction::Put => true,
        }
    }

    /// The invariant of a context: the first four variables are the
    /// preregistered cells; arrays have a nonempty range; every literal's cell
    /// is a unit of its own, none of the first four, and named after the
    /// literal; every instruction is valid; no label is marked twice.
    pub open spec fn wf(self) -> bool {
        &&& self.names.len() == self.shapes.len()
        &&& self.names.len() >= 4
        &&& forall|i: int|
            0 <= i < 4 ==> #[trigger] self.names[i] == preregistered_names()[i] && self.shapes[i]
                is Unit
        &&& forall|i: int| 0 <= i < self.shapes.len() ==> (#[trigger] self.shapes[i]).well_formed()
        &&& forall|i: int|
            0 <= i < self.constants.len() ==> self.is_unit((#[trigger] self.constants[i]).1)
                && self.constants[i].1.id >= 4 && self.names[self.constants[i].1.id as int]
                == constant_name(self.constants[i].0.0)
        &&& forall|i: int, j: int|
            0 <= i < j < self.constants.len() ==> (#[trigger] self.constants[i]).1 != (
            #[trigger] self.constants[j]).1
        &&& forall|i: int|
            0 <= i < self.code.len() ==> self.valid_instruction(#[trigger] self.code[i])
        &&& forall|i: int, j: int|
            0 <= i < j < self.code.len() && (#[trigger] self.code[i]) is Label && (
            #[trigger] self.code[j]) is Label ==> self.code[i] != self.code[j]
    }

    /// One more variable, at the end.
    pub open spec fn add(self, name: Seq<char>, shape: Shape) -> Model {
        Model { names: self.names.push(name), shapes: self.shapes.push(shape), ..self }
    }

    /// The literal registered: where it is new, as a unit at the end, called
    /// [`constant_name`].
    pub open spec fn register(self, constant: Constant) -> Model {
        match self.constant_index(constant) {
            Some(_) => self,
            None => Model {
                constants: self.constants.push(
                    (constant, VariableIndex { id: self.names.len() as usize }),
                ),
                ..self.add(constant_name(constant.0), Shape::Unit)
            },
        }
    }

    /// One more label.
    pub open spec fn new_label(self) -> Model {
        Model { labels: self.labels + 1, ..self }
    }

    /// One more instruction, at the end.
    pub open spec fn emit(self, instruction: Instruction) -> Model {
        Model { code: self.code.push(instruction), ..self }
    }

    /// What was valid in `self` is valid in a model that has the same
    /// variables and more, the same literals and more, and as many labels or
    /// more.
    pub proof fn lemma_growth_keeps_validity(self, after: Model)
        requires
            self.shapes.len() <= after.shapes.len(),
            forall|i: int| 0 <= i < self.shapes.len() ==> after.shapes[i] == #[trigger] self.shapes[i],
            self.constants.len() <= after.constants.len(),
            forall|i: int|
                0 <= i < self.constants.len() ==> after.constants[i] == #[trigger] self.constants[i],
            self.labels <= after.labels,
        ensures
            forall|access: Access| #[trigger]
                self.valid_access(access) ==> after.valid_access(access),
            forall|instruction: Instruction| #[trigger]
                self.valid_instruction(instruction) ==> after.valid_instruction(instruction),
            forall|index: VariableIndex| #[trigger] self.is_unit(index) ==> after.is_unit(index),
            forall|index: VariableIndex| #[trigger] self.is_array(index) ==> after.is_array(index),
            forall|c: Constant|
                (#[trigger] self.constant_index(c)) is Some ==> after.constant_index(c)
                    == self.constant_index(c),
    {
        assert forall|c: Constant| (#[trigger] self.constant_index(c)) is Some implies after.constant_index(
            c,
        ) == self.constant_index(c) by {
            lemma_lookup_prefix(self.constants, after.constants, c);
        }
        assert forall|access: Access| #[trigger] self.valid_access(access) implies after.valid_access(
            access,
        ) by {
            match access {
                Access::Constant(c) => {
                    assert(self.constant_index(c) is Some);
                },
                Access::Variable(v) => {},
                Access::ArrayStatic(a, c) => {
                    assert(self.constant_index(c) is Some);
                },
                Access::ArrayDynamic(a, i) => {},
            }
        }
    }

    /// A model that grew out of a well-formed one is well-formed, where what
    /// was added is: variables with nonempty ranges, literals in unit cells,
    /// and valid instructions that mark no label twice.
    pub proof fn lemma_wf_after_growth(self, after: Model)
        requires
            self.wf(),
            after.names.len() == after.shapes.len(),
            self.shapes.len() <= after.shapes.len(),
            forall|i: int| 0 <= i < self.shapes.len() ==> after.shapes[i] == #[trigger] self.shapes[i],
            forall|i: int| 0 <= i < self.names.len() ==> after.names[i] == #[trigger] self.names[i],
            forall|i: int|
                self.shapes.len() <= i < after.shapes.len() ==> (
                #[trigger] after.shapes[i]).well_formed(),
            self.constants.len() <= after.constants.len(),
            forall|i: int|
                0 <= i < self.constants.len() ==> after.constants[i] == #[trigger] self.constants[i],
            forall|i: int|
                self.constants.len() <= i < after.constants.len() ==> after.is_unit(
                    (#[trigger] after.constants[i]).1,
                ) && after.constants[i].1.id >= 4 && after.names[after.constants[i].1.id as int]
                    == constant_name(after.constants[i].0.0),
            forall|i: int, j: int|
                0 <= i < j < after.constants.len() && self.constants.len() <= j ==> (
                #[trigger] after.constants[i]).1 != (#[trigger] after.constants[j]).1,
            self.labels <= after.labels,
            self.code.len() <= after.code.len(),
            forall|i: int| 0 <= i < self.code.len() ==> after.code[i] == #[trigger] self.code[i],
            forall|i: int|
                self.code.len() <= i < after.code.len() ==> after.valid_instruction(
                    #[trigger] after.code[i],
                ),
            forall|i: int, j: int|
                0 <= i < j < after.code.len() && self.code.len() <= j && (
                #[trigger] after.code[i]) is Label && (#[trigger] after.code[j]) is Label
                    ==> after.code[i] != after.code[j],
        ensures
            after.wf(),
    {
        self.lemma_growth_keeps_validity(after);
        assert forall|i: int| 0 <= i < 4 implies #[trigger] after.names[i] == preregistered_names()[i]
            && after.shapes[i] is Unit by {
            assert(after.names[i] == self.names[i]);
            assert(after.shapes[i] == self.shapes[i]);
        }
        assert forall|i: int| 0 <= i < after.shapes.len() implies (
        #[trigger] after.shapes[i]).well_formed() by {
            if i < self.shapes.len() {
                assert(after.shapes[i] == self.shapes[i]);
            }
        }
        assert forall|i: int| 0 <= i < after.constants.len() implies after.is_unit(
            (#[trigger] after.constants[i]).1,
        ) && after.constants[i].1.id >= 4 && after.names[after.constants[i].1.id as int]
            == constant_name(after.constants[i].0.0) by {
            if i < self.constants.len() {
                assert(after.constants[i] == self.constants[i]);
                assert(self.is_unit(self.constants[i].1));
                assert(after.names[self.constants[i].1.id as int]
                    == self.names[self.constants[i].1.id as int]);
            }
        }
        assert forall|i: int, j: int| 0 <= i < j < after.constants.len() implies (
        #[trigger] after.constants[i]).1 != (#[trigger] after.constants[j]).1 by {
            if j < self.constants.len() {
                assert(after.constants[i] == self.constants[i]);
                assert(after.constants[j] == self.constants[j]);
            }
        }
        assert forall|i: int| 0 <= i < after.code.len() implies after.valid_instruction(
            #[trigger] after.code[i],
        ) by {
            if i < self.code.len() {
                assert(after.code[i] == self.code[i]);
                assert(self.valid_instruction(self.code[i]));
            }
        }
        assert forall|i: int, j: int|
            0 <= i < j < after.code.len() && (#[trigger] after.code[i]) is Label && (
            #[trigger] after.code[j]) is Label implies after.code[i] != after.code[j] by {
            if j < self.code.len() {
                assert(after.code[i] == self.code[i]);
                assert(after.code[j] == self.code[j]);
            }
        }
    }

    /// `after` is what `self` may become: it has the same variables and
    /// more, the same literals and more, as many labels or more, the same
    /// instructions and more, and what it marks beyond `self` are labels
    /// that `self` had not handed out.
    pub open spec fn grows_to(self, after: Model) -> bool {
        &&& self.names.len() <= after.names.len()
        &&& self.shapes.len() <= after.shapes.len()
        &&& forall|i: int|
            #![trigger after.names[i]]
            #![trigger self.names[i]]
            0 <= i < self.names.len() ==> after.names[i] == self.names[i]
        &&& forall|i: int|
            #![trigger after.shapes[i]]
            #![trigger self.shapes[i]]
            0 <= i < self.shapes.len() ==> after.shapes[i] == self.shapes[i]
        &&& self.constants.len() <= after.constants.len()
        &&& forall|i: int|
            #![trigger after.constants[i]]
            #![trigger self.constants[i]]
            0 <= i < self.constants.len() ==> after.constants[i] == self.constants[i]
        &&& self.labels <= after.labels
        &&& self.code.len() <= after.code.len()
        &&& forall|i: int|
            #![trigger after.code[i]]
            #![trigger self.code[i]]
            0 <= i < self.code.len() ==> after.code[i] == self.code[i]
        &&& forall|i: int|
            self.code.len() <= i < after.code.len() && (#[trigger] after.code[i]) is Label
                ==> after.code[i]->Label_label.id >= self.labels
    }

    /// What is valid in a model is valid in every model it grows to.
    pub proof fn lemma_grows_keeps_validity(self, after: Model)
        requires
            self.grows_to(after),
        ensures
            forall|access: Access| #[trigger]
                self.valid_access(access) ==> after.valid_access(access),
            forall|instruction: Instruction| #[trigger]
                self.valid_instruction(instruction) ==> after.valid_instruction(instruction),
            forall|index: VariableIndex| #[trigger] self.is_unit(index) ==> after.is_unit(index),
            forall|index: VariableIndex| #[trigger] self.is_array(index) ==> after.is_array(index),
    {
        self.lemma_growth_keeps_validity(after);
    }

    /// No instruction marks `label`.
    pub open spec fn unmarked(self, label: Label) -> bool {
        forall|i: int|
            0 <= i < self.code.len() ==> (#[trigger] self.code[i]) != (Instruction::Label { label })
    }

    /// A jump names `label`, and no instruction marks it.
    pub open spec fn dangling(self, label: Label) -> bool {
        self.unmarked(label) && exists|i: int|
            0 <= i < self.code.len() && (#[trigger] self.code[i]).jump_label() == Some(label)
    }

    /// Every label that a jump names is marked.
    pub open spec fn closed_jumps(self) -> bool {
        forall|label: Label| !#[trigger] self.dangling(label)
    }

    /// Every label that dangles in `after` dangled in `self`.
    pub open spec fn settles(self, after: Model) -> bool {
        forall|label: Label| #[trigger] after.dangling(label) ==> self.dangling(label)
    }

    /// After one more instruction that is neither a jump nor a mark, the
    /// same labels dangle.
    pub proof fn lemma_dangling_plain(self, instruction: Instruction, label: Label)
        requires
            !(instruction is Label),
            instruction.jump_label() is None,
        ensures
            self.emit(instruction).dangling(label) == self.dangling(label),
    {
        let after = self.emit(instruction);
        if self.dangling(label) {
            let i = choose|i: int|
                0 <= i < self.code.len() && (#[trigger] self.code[i]).jump_label() == Some(label);
            assert(after.code[i] == self.code[i]);
            assert forall|k: int| 0 <= k < after.code.len() implies (#[trigger] after.code[k]) != (
            Instruction::Label { label }) by {
                if k < self.code.len() {
                    assert(after.code[k] == self.code[k]);
                }
            }
        }
        if after.dangling(label) {
            let i = choose|i: int|
                0 <= i < after.code.len() && (#[trigger] after.code[i]).jump_label() == Some(label);
            assert(self.code[i] == after.code[i]);
            assert forall|k: int| 0 <= k < self.code.len() implies (#[trigger] self.code[k]) != (
            Instruction::Label { label }) by {
                assert(after.code[k] == self.code[k]);
            }
        }
    }

    /// After one more jump, the label it names may dangle, and beside it
    /// only the labels that dangled before.
    pub proof fn lemma_dangling_jump(self, instruction: Instruction, label: Label)
        requires
            instruction.jump_label() is Some,
        ensures
            self.emit(instruction).dangling(label) ==> self.dangling(label)
                || instruction.jump_label() == Some(label),
    {
        let after = self.emit(instruction);
        if after.dangling(label) && instruction.jump_label() != Some(label) {
            let i = choose|i: int|
                0 <= i < after.code.len() && (#[trigger] after.code[i]).jump_label() == Some(label);
            assert(self.code[i] == after.code[i]);
            assert forall|k: int| 0 <= k < self.code.len() implies (#[trigger] self.code[k]) != (
            Instruction::Label { label }) by {
                assert(after.code[k] == self.code[k]);
            }
        }
    }

    /// After a mark, the marked label does not dangle, and beside it only
    /// the labels that dangled before do.
    pub proof fn lemma_dangling_mark(self, marked: Label, label: Label)
        ensures
            self.emit(Instruction::Label { label: marked }).dangling(label) ==> self.dangling(
                label,
            ) && label != marked,
    {
        let after = self.emit(Instruction::Label { label: marked });
        if after.dangling(label) {
            let i = choose|i: int|
                0 <= i < after.code.len() && (#[trigger] after.code[i]).jump_label() == Some(label);
            assert(self.code[i] == after.code[i]);
            assert(after.code[self.code.len() as int] == Instruction::Label { label: marked });
            assert forall|k: int| 0 <= k < self.code.len() implies (#[trigger] self.code[k]) != (
            Instruction::Label { label }) by {
                assert(after.code[k] == self.code[k]);
            }
        }
    }

    /// A label that is marked stays marked.
    pub proof fn lemma_marked_persists(self, after: Model, label: Label)
        requires
            self.grows_to(after),
            !self.unmarked(label),
        ensures
            !after.unmarked(label),
    {
        let i = choose|i: int|
            0 <= i < self.code.len() && (#[trigger] self.code[i]) == (Instruction::Label { label });
        assert(after.code[i] == self.code[i]);
    }

    pub proof fn lemma_grows_reflexive(self)
        ensures
            self.grows_to(self),
    {
    }

    pub proof fn lemma_grows_transitive(self, middle: Model, after: Model)
        requires
            self.grows_to(middle),
            middle.grows_to(after),
        ensures
            self.grows_to(after),
    {
        assert forall|i: int| 0 <= i < self.names.len() implies after.names[i]
            == #[trigger] self.names[i] by {
            assert(middle.names[i] == self.names[i]);
        }
        assert forall|i: int| 0 <= i < self.shapes.len() implies after.shapes[i]
            == #[trigger] self.shapes[i] by {
            assert(middle.shapes[i] == self.shapes[i]);
        }
        assert forall|i: int| 0 <= i < self.constants.len() implies after.constants[i]
            == #[trigger] self.constants[i] by {
            assert(middle.constants[i] == self.constants[i]);
        }
        assert forall|i: int| 0 <= i < self.code.len() implies after.code[i]
            == #[trigger] self.code[i] by {
            assert(middle.code[i] == self.code[i]);
        }
        assert forall|i: int|
            self.code.len() <= i < after.code.len() && (#[trigger] after.code[i]) is Label implies after.code[i]->Label_label.id
            >= self.labels by {
            if i < middle.code.len() {
                assert(after.code[i] == middle.code[i]);
            }
        }
    }

    /// The label that comes next is not marked yet.
    pub proof fn lemma_next_label_unmarked(self, label: Label)
        requires
            self.wf(),
            label.id == self.labels,
        ensures
            forall|i: int|
                0 <= i < self.code.len() ==> (#[trigger] self.code[i]) != (Instruction::Label {
                    label,
                }),
    {
        assert forall|i: int| 0 <= i < self.code.len() implies (#[trigger] self.code[i]) != (
        Instruction::Label { label }) by {
            assert(self.valid_instruction(self.code[i]));
        }
    }

    /// A label that was handed out when the model was `self`, and was not
    /// marked then, is not marked in a model that `self` grew to.
    pub proof fn lemma_still_unmarked(self, after: Model, label: Label)
        requires
            self.grows_to(after),
            label.id < self.labels,
            forall|i: int|
                0 <= i < self.code.len() ==> (#[trigger] self.code[i]) != (Instruction::Label {
                    label,
                }),
        ensures
            forall|i: int|
                0 <= i < after.code.len() ==> (#[trigger] after.code[i]) != (Instruction::Label {
                    label,
                }),
    {
        assert forall|i: int| 0 <= i < after.code.len() implies (#[trigger] after.code[i]) != (
        Instruction::Label { label }) by {
            if i < self.code.len() {
                assert(after.code[i] == self.code[i]);
            }
        }
    }

    /// Registering a literal keeps the invariant.
    pub proof fn lemma_register_wf(self, constant: Constant)
        requires
            self.wf(),
            self.names.len() < usize::MAX,
        ensures
            self.register(constant).wf(),
            self.register(constant).constant_index(constant) is Some,
            self.constant_index(constant) is Some ==> self.register(constant).constant_index(
                constant,
            ) == self.constant_index(constant),
            self.constant_index(constant) is None ==> self.register(constant).constant_index(
                constant,
            ) == Some(VariableIndex { id: self.names.len() as usize }),
    {
        let after = self.register(constant);
        if self.constant_index(constant) is None {
            assert(after.constants.drop_last() =~= self.constants);
            assert forall|i: int, j: int|
                0 <= i < j < after.constants.len() && self.constants.len() <= j implies (
            #[trigger] after.constants[i]).1 != (#[trigger] after.constants[j]).1 by {
                assert(after.constants[i] == self.constants[i]);
                assert(self.is_unit(self.constants[i].1));
            }
            self.lemma_wf_after_growth(after);
        }
    }
}

impl View for Context {
    type V = Model;

    open spec fn view(&self) -> Model {
        Model {
            names: names(self.variable_list()),
            shapes: shapes(self.variable_list()),
            constants: self.constant_table(),
            labels: self.label_list().len(),
            code: self.code(),
        }
    }
}

impl Context {
    pub closed spec fn variable_list(&self) -> Seq<UniqueVariable> {
        self.variables@
    }

    pub closed spec fn constant_table(&self) -> Seq<(Constant, VariableIndex)> {
        self.constants@
    }

    pub closed spec fn label_list(&self) -> Seq<Label> {
        self.labels@
    }

    pub closed spec fn code(&self) -> Seq<Instruction> {
        self.instructions@
    }

    /// The invariant of a context: that of its model, and every variable and
    /// every label is numbered by its position.
    pub open spec fn wf(&self) -> bool {
        &&& self@.wf()
        &&& forall|i: int|
            0 <= i < self.variable_list().len() ==> (#[trigger] self.variable_list()[i]).id.id == i
        &&& forall|i: int|
            0 <= i < self.label_list().len() ==> (#[trigger] self.label_list()[i]).id() == i
    }

    pub fn variables(&self) -> (r: &[UniqueVariable])
        ensures
            r@ == self.variable_list(),
    {
        self.variables.as_slice()
    }

    pub fn constants(&self) -> (r: &[(Constant, VariableIndex)])
        ensures
            r@ == self.constant_table(),
    {
        self.constants.as_slice()
    }

    pub fn labels(&self) -> (r: &[Label])
        ensures
            r@ == self.label_list(),
    {
        self.labels.as_slice()
    }

    pub fn instructions(&self) -> (r: &[Instruction])
        ensures
            r@ == self.code(),
    {
        self.instructions.as_slice()
    }

    /// A context with the four preregistered cells and nothing else.
    pub fn new() -> (context: Context)
        ensures
            context.wf(),
            context@ == Model::initial(),
    {
        let mut context = Context {
            variables: Vec::new(),
            constants: Vec::new(),
            labels: Vec::new(),
            instructions: Vec::new(),
        };
        context.variables.push(
            UniqueVariable::new(VariableIndex::new(0), Variable::Unit { name: "p0".to_owned() }),
        );
        context.variables.push(
            UniqueVariable::new(
                VariableIndex::new(1),
                Variable::Unit { name: "tmp$op".to_owned() },
            ),
        );
        context.variables.push(
            UniqueVariable::new(VariableIndex::new(2), Variable::Unit { name: "tmp$1".to_owned() }),
        );
        context.variables.push(
            UniqueVariable::new(VariableIndex::new(3), Variable::Unit { name: "tmp$2".to_owned() }),
        );
        proof {
            assert(context@.names =~= Model::initial().names);
            assert(context@.shapes =~= Model::initial().shapes);
            assert(context@.constants =~= Model::initial().constants);
            assert(context@.code =~= Model::initial().code);
        }
        context
    }

    /// Adds a variable at the end of the list and returns its index.
    pub fn add_variable(&mut self, variable: Variable) -> (index: VariableIndex)
        requires
            old(self).wf(),
            variable.well_formed(),
        ensures
            final(self).wf(),
            index.id == old(self)@.names.len(),
            final(self)@ == old(self)@.add(variable.spec_name()@, variable.shape()),
            final(self).variable_list() == old(self).variable_list().push(
                UniqueVariable { id: index, variable },
            ),
    {
        let id = VariableIndex::new(self.variables.len());
        self.variables.push(UniqueVariable::new(id, variable));
        proof {
            assert(self.label_list() == old(self).label_list());
            assert(self.constant_table() == old(self).constant_table());
            assert(self.code() == old(self).code());
            assert(self@.names =~= old(self)@.names.push(variable.spec_name()@));
            assert(self@.shapes =~= old(self)@.shapes.push(variable.shape()));
            old(self)@.lemma_wf_after_growth(self@);
            assert forall|i: int| 0 <= i < self.variable_list().len() implies (
            #[trigger] self.variable_list()[i]).id.id == i by {
                if i < old(self).variable_list().len() {
                    assert(self.variable_list()[i] == old(self).variable_list()[i]);
                }
            }
        }
        id
    }

    /// The first variable called `name`, if there is one.
    pub fn find_variable_by_name(&self, name: &str) -> (r: Option<&UniqueVariable>)
        ensures
            match self@.find(name@) {
                Some(p) => 0 <= p < self.variable_list().len() && r == Some(
                    &self.variable_list()[p],
                ),
                None => r is None,
            },
    {
        let wanted = name.to_owned();
        let n = self.variables.len();
        let ghost all = names(self.variables@);
        let mut i: usize = 0;
        while i < n
            invariant
                n == self.variables@.len(),
                all == names(self.variables@),
                i <= n,
                wanted@ == name@,
                position_of_name(all.take(i as int), name@) is None,
            decreases n - i,
        {
            proof {
                assert(all.take(i + 1).drop_last() =~= all.take(i as int));
            }
            if self.variables[i].name().eq(&wanted) {
                proof {
                    lemma_position_prefix(all.take(i + 1), all, name@);
                }
                return Some(&self.variables[i]);
            }
            i += 1;
        }
        assert(all.take(n as int) =~= all);
        None
    }

    /// The variable at `index`.
    pub fn get_variable(&self, index: &VariableIndex) -> (r: &UniqueVariable)
        requires
            index.id < self@.names.len(),
        ensures
            *r == self.variable_list()[index.id as int],
    {
        &self.variables[index.value()]
    }

    /// The cell of the literal, where it is registered.
    pub fn find_constant(&self, constant: &Constant) -> (r: Option<VariableIndex>)
        ensures
            r == self@.constant_index(*constant),
    {
        let n = self.constants.len();
        let mut i: usize = 0;
        while i < n
            invariant
                n == self.constants@.len(),
                i <= n,
                lookup_constant(self.constants@.take(i as int), *constant) is None,
            decreases n - i,
        {
            proof {
                assert(self.constants@.take(i + 1).drop_last() =~= self.constants@.take(i as int));
            }
            if self.constants[i].0.0 == constant.0 {
                proof {
                    lemma_lookup_prefix(self.constants@.take(i + 1), self.constants@, *constant);
                }
                return Some(self.constants[i].1);
            }
            i += 1;
        }
        assert(self.constants@.take(n as int) =~= self.constants@);
        None
    }

    /// The cell of the literal. A literal that is not registered yet gets a
    /// new unit variable, at the end of the list.
    pub fn register_constant(&mut self, constant: Constant) -> (index: VariableIndex)
        requires
            old(self).wf(),
        ensures
            final(self).wf(),
            final(self)@ == old(self)@.register(constant),
            final(self)@.constant_index(constant) == Some(index),
    {
        match self.find_constant(&constant) {
            Some(index) => index,
            None => {
                let index = self.add_variable(Variable::Unit { name: constant.repr() });
                let count = self.variables.len();
                self.constants.push((constant, index));
                proof {
                    assert(self.constants@.drop_last() =~= old(self).constants@);
                    assert(self.label_list() == old(self).label_list());
                    assert(self.code() == old(self).code());
                    assert(self@ == old(self)@.register(constant));
                    assert(old(self)@.names.len() + 1 == count);
                    old(self)@.lemma_register_wf(constant);
                }
                index
            },
        }
    }

    /// The cell of a registered literal.
    pub fn get_constant_index(&self, constant: &Constant) -> (index: VariableIndex)
        requires
            self@.constant_index(*constant) is Some,
        ensures
            Some(index) == self@.constant_index(*constant),
            self.wf() ==> index.id < self.variable_list().len() && self.variable_list()[index.id as int].id
                == index && self@.names[index.id as int] == constant_name(constant.0),
    {
        proof {
            crate::intermediate::lemma_lookup_constant(self@.constants, *constant);
            if self.wf() {
                let found = self@.constant_index(*constant).unwrap();
                let k = choose|k: int|
                    0 <= k < self@.constants.len() && (#[trigger] self@.constants[k]).0 == *constant
                        && self@.constants[k].1 == found;
                assert(self@.is_unit(self@.constants[k].1));
            }
        }
        match self.find_constant(constant) {
            Some(index) => index,
            None => VariableIndex::new(0),
        }
    }

    /// Hands out the next label.
    pub fn new_label(&mut self) -> (label: Label)
        requires
            old(self).wf(),
        ensures
            final(self).wf(),
            label.id() == old(self)@.labels,
            final(self)@ == old(self)@.new_label(),
            final(self).variable_list() == old(self).variable_list(),
    {
        let label = Label::new(self.labels.len());
        self.labels.push(label);
        proof {
            assert(self.variable_list() == old(self).variable_list());
            assert(self.constant_table() == old(self).constant_table());
            assert(self.code() == old(self).code());
            old(self)@.lemma_wf_after_growth(self@);
            assert forall|i: int| 0 <= i < self.label_list().len() implies (
            #[trigger] self.label_list()[i]).id() == i by {
                if i < old(self).label_list().len() {
                    assert(self.label_list()[i] == old(self).label_list()[i]);
                }
            }
        }
        label
    }

    /// Appends an instruction.
    pub(crate) fn emit(&mut self, instruction: Instruction)
        requires
            old(self).wf(),
            old(self)@.valid_instruction(instruction),
            instruction is Label ==> forall|i: int|
                0 <= i < old(self)@.code.len() ==> #[trigger] old(self)@.code[i] != instruction,
        ensures
            final(self).wf(),
            final(self)@ == old(self)@.emit(instruction),
            final(self).variable_list() == old(self).variable_list(),
    {
        self.instructions.push(instruction);
        proof {
            assert(self.variable_list() == old(self).variable_list());
            assert(self.constant_table() == old(self).constant_table());
            assert(self.label_list() == old(self).label_list());
            old(self)@.lemma_wf_after_growth(self@);
        }
    }
}

/// The name of the cell that holds the literal `value`: `const(`, the value in
/// decimal with a leading `-` where it is negative, and `)`.
pub open spec fn constant_name(value: i64) -> Seq<char> {
    "const("@ + signed_decimal(value as int) + ")"@
}

pub open spec fn signed_decimal(value: int) -> Seq<char> {
    if value < 0 {
        seq!['-'] + decimal_chars((-value) as nat)
    } else {
        decimal_chars(value as nat)
    }
}

pub open spec fn digit_char(digit: nat) -> char {
    if digit == 0 {
        '0'
    } else if digit == 1 {
        '1'
    } else if digit == 2 {
        '2'
    } else if digit == 3 {
        '3'
    } else if digit == 4 {
        '4'
    } else if digit == 5 {
        '5'
    } else if digit == 6 {
        '6'
    } else if digit == 7 {
        '7'
    } else if digit == 8 {
        '8'
    } else {
        '9'
    }
}

pub open spec fn decimal_chars(n: nat) -> Seq<char>
    decreases n,
{
    if n < 10 {
        seq![digit_char(n)]
    } else {
        decimal_chars(n / 10).push(digit_char(n % 10))
    }
}

fn digit_text(digit: u64) -> (r: &'static str)
    requires
        digit < 10,
    ensures
        r@ == seq![digit_char(digit as nat)],
{
    proof {
        reveal_strlit("0");
        reveal_strlit("1");
        reveal_strlit("2");
        reveal_strlit("3");
        reveal_strlit("4");
        reveal_strlit("5");
        reveal_strlit("6");
        reveal_strlit("7");
        reveal_strlit("8");
        reveal_strlit("9");
    }
    let r = if digit == 0 {
        "0"
    } else if digit == 1 {
        "1"
    } else if digit == 2 {
        "2"
    } else if digit == 3 {
        "3"
    } else if digit == 4 {
        "4"
    } else if digit == 5 {
        "5"
    } else if digit == 6 {
        "6"
    } else if digit == 7 {
        "7"
    } else if digit == 8 {
        "8"
    } else {
        "9"
    };
    assert(r@ =~= seq![digit_char(digit as nat)]);
    r
}

fn append_decimal(text: String, n: u64) -> (r: String)
    ensures
        r@ == text@ + decimal_chars(n as nat),
    decreases n,
{
    let front = if n >= 10 {
        append_decimal(text, n / 10)
    } else {
        text
    };
    let r = front.concat(digit_text(n % 10));
    assert(r@ =~= text@ + decimal_chars(n as nat));
    r
}

impl Constant {
    /// The name of the literal's cell.
    pub fn repr(&self) -> (r: String)
        ensures
            r@ == constant_name(self.0),
    {
        let head = "const(".to_owned();
        let body = if self.0 < 0 {
            proof {
                reveal_strlit("-");
            }
            let magnitude: u64 = if self.0 == i64::MIN {
                9223372036854775808u64
            } else {
                (-self.0) as u64
            };
            let signed = head.concat("-");
            assert(signed@ =~= "const("@ + seq!['-']);
            append_decimal(signed, magnitude)
        } else {
            append_decimal(head, self.0 as u64)
        };
        let r = body.concat(")");
        assert(r@ =~= constant_name(self.0));
        r
    }
}

/// A lookup that succeeds on a prefix of a table finds the same entry in the
/// whole table.
pub proof fn lemma_lookup_prefix(
    prefix: Seq<(Constant, VariableIndex)>,
    table: Seq<(Constant, VariableIndex)>,
    constant: Constant,
)
    requires
        prefix.len() <= table.len(),
        forall|i: int| 0 <= i < prefix.len() ==> table[i] == #[trigger] prefix[i],
    ensures
        lookup_constant(prefix, constant) is Some ==> lookup_constant(table, constant)
            == lookup_constant(prefix, constant),
    decreases table.len(),
{
    if prefix.len() < table.len() {
        lemma_lookup_prefix(prefix, table.drop_last(), constant);
    } else {
        assert(prefix =~= table);
    }
}

/// A search that succeeds on a prefix of a list finds the same position in
/// the whole list.
pub proof fn lemma_position_prefix(prefix: Seq<Seq<char>>, list: Seq<Seq<char>>, name: Seq<char>)
    requires
        prefix.len() <= list.len(),
        forall|i: int| 0 <= i < prefix.len() ==> list[i] == #[trigger] prefix[i],
    ensures
        position_of_name(prefix, name) is Some ==> position_of_name(list, name)
            == position_of_name(prefix, name),
    decreases list.len(),
{
    if prefix.len() < list.len() {
        lemma_position_prefix(prefix, list.drop_last(), name);
    } else {
        assert(prefix =~= list);
    }
}

} // verus!
