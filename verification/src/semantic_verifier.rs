//! Static checks on a program: every name is declared, arrays have a valid
//! range, variables are used according to their kind, and the counter of a
//! `for` loop is not modified inside the loop.

use crate::ast::{Command, Commands, Condition, Declaration, Declarations, Expression};
use crate::ast::{Identifier, Program, Value};
use vstd::prelude::*;

verus! {

/// What is wrong with a program.
#[derive(Debug, PartialEq, Clone)]
pub enum Error {
    /// An array whose range starts after its end.
    InvalidArrayRange { name: String, start: i64, end: i64 },
    /// A name that is neither declared nor the counter of an enclosing `for`
    /// loop.
    UndeclaredVariable { name: String },
    /// A `for` counter as the target of a `READ` or an assignment.
    ForCounterModification { name: String },
    /// A scalar that is indexed, an array that is not, or a literal index
    /// outside the array's range.
    InvalidVariableUsage { name: String },
}

/// The first of `globals` that is called `name`.
pub open spec fn first_global(globals: Seq<Declaration>, name: Seq<char>) -> Option<Declaration>
    decreases globals.len(),
{
    if globals.len() == 0 {
        None
    } else {
        match first_global(globals.drop_last(), name) {
            Some(found) => Some(found),
            None => if globals.last().spec_name()@ == name {
                Some(globals.last())
            } else {
                None
            },
        }
    }
}

/// Whether one of `locals` is called `name`.
pub open spec fn has_local(locals: Seq<String>, name: Seq<char>) -> bool {
    exists|i: int| 0 <= i < locals.len() && (#[trigger] locals[i])@ == name
}

/// What is in scope: the declarations, and the counters of the `for` loops
/// around the place in question, innermost last.
pub struct Scope {
    pub globals: Seq<Declaration>,
    pub locals: Seq<String>,
}

impl Scope {
    pub open spec fn global(self, name: String) -> Option<Declaration> {
        first_global(self.globals, name@)
    }

    pub open spec fn local(self, name: String) -> bool {
        has_local(self.locals, name@)
    }

    /// `UndeclaredVariable` where the name is not in scope.
    pub open spec fn undeclared(self, name: String) -> Seq<Error> {
        if self.global(name) is Some || self.local(name) {
            Seq::empty()
        } else {
            seq![Error::UndeclaredVariable { name }]
        }
    }

    /// `ForCounterModification` where the name is a counter in scope.
    pub open spec fn modification(self, name: String) -> Seq<Error> {
        if self.local(name) {
            seq![Error::ForCounterModification { name }]
        } else {
            Seq::empty()
        }
    }

    /// `InvalidVariableUsage` where a name used as a scalar is declared as
    /// an array.
    pub open spec fn var_usage(self, name: String) -> Seq<Error> {
        match self.global(name) {
            Some(Declaration::Array { .. }) => seq![Error::InvalidVariableUsage { name }],
            _ => Seq::empty(),
        }
    }

    /// `InvalidVariableUsage` where a name used as an array is declared as
    /// a scalar or is a counter.
    pub open spec fn array_usage(self, name: String) -> Seq<Error> {
        match self.global(name) {
            Some(Declaration::Var { .. }) => seq![Error::InvalidVariableUsage { name }],
            Some(Declaration::Array { .. }) => Seq::empty(),
            None => if self.local(name) {
                seq![Error::InvalidVariableUsage { name }]
            } else {
                Seq::empty()
            },
        }
    }

    /// `InvalidVariableUsage`, under the array's name, where the index of an
    /// array is declared as an array.
    pub open spec fn index_usage(self, name: String, index: String) -> Seq<Error> {
        match self.global(index) {
            Some(Declaration::Array { .. }) => seq![Error::InvalidVariableUsage { name }],
            _ => Seq::empty(),
        }
    }

    /// `InvalidVariableUsage` where a name indexed by a literal is declared
    /// as a scalar, is a counter, or is an array whose range does not hold
    /// the index.
    pub open spec fn const_usage(self, name: String, index: i64) -> Seq<Error> {
        match self.global(name) {
            Some(Declaration::Var { .. }) => seq![Error::InvalidVariableUsage { name }],
            Some(Declaration::Array { start, end, .. }) => if start <= index <= end {
                Seq::empty()
            } else {
                seq![Error::InvalidVariableUsage { name }]
            },
            None => if self.local(name) {
                seq![Error::InvalidVariableUsage { name }]
            } else {
                Seq::empty()
            },
        }
    }

    /// The errors of an identifier: first the names that are not in scope,
    /// then the uses against a variable's kind.
    pub open spec fn identifier(self, identifier: Identifier) -> Seq<Error> {
        match identifier {
            Identifier::VarAccess { name } => self.undeclared(name) + self.var_usage(name),
            Identifier::ArrAccess { name, index } => self.undeclared(name) + self.undeclared(index)
                + self.array_usage(name) + self.index_usage(name, index),
            Identifier::ArrConstAccess { name, index } => self.undeclared(name) + self.const_usage(
                name,
                index,
            ),
        }
    }

    pub open spec fn value(self, value: Value) -> Seq<Error> {
        match value {
            Value::Num(_) => Seq::empty(),
            Value::Identifier(identifier) => self.identifier(identifier),
        }
    }

    pub open spec fn condition(self, condition: Condition) -> Seq<Error> {
        self.value(condition.left) + self.value(condition.right)
    }

    pub open spec fn expression(self, expression: Expression) -> Seq<Error> {
        match expression {
            Expression::Simple { value } => self.value(value),
            Expression::Compound { left, right, .. } => self.value(left) + self.value(right),
        }
    }

    /// The scope inside the `for` loop over `counter`.
    pub open spec fn inside(self, counter: String) -> Scope {
        Scope { locals: self.locals.push(counter), ..self }
    }

    /// The errors of a command, in the order of the program's text. The
    /// bounds of a `for` loop are checked outside the loop's scope; the
    /// target of a `READ` or an assignment is checked as an identifier and
    /// then against the counters in scope.
    pub open spec fn command(self, command: Command) -> Seq<Error>
        decreases command,
    {
        match command {
            Command::IfElse { condition, positive, negative } => self.condition(condition)
                + self.commands(positive, positive@.len()) + self.commands(
                negative,
                negative@.len(),
            ),
            Command::If { condition, positive } => self.condition(condition) + self.commands(
                positive,
                positive@.len(),
            ),
            Command::While { condition, commands } => self.condition(condition) + self.commands(
                commands,
                commands@.len(),
            ),
            Command::Do { commands, condition } => self.commands(commands, commands@.len())
                + self.condition(condition),
            Command::For { counter, from, to, commands, .. } => self.value(from) + self.value(to)
                + self.inside(counter).commands(commands, commands@.len()),
            Command::Read { target } => self.identifier(target) + self.modification(
                target.spec_name(),
            ),
            Command::Write { value } => self.value(value),
            Command::Assign { target, expr } => self.identifier(target) + self.modification(
                target.spec_name(),
            ) + self.expression(expr),
        }
    }

    /// The errors of the first `n` of `commands`.
    pub open spec fn commands(self, commands: Commands, n: nat) -> Seq<Error>
        decreases commands, n,
    {
        if n == 0 || n > commands@.len() {
            Seq::empty()
        } else {
            self.commands(commands, (n - 1) as nat) + self.command(commands@[n - 1])
        }
    }
}

/// `InvalidArrayRange` for an array whose range starts after its end.
pub open spec fn declaration_errors(declaration: Declaration) -> Seq<Error> {
    match declaration {
        Declaration::Var { .. } => Seq::empty(),
        Declaration::Array { name, start, end } => if start > end {
            seq![Error::InvalidArrayRange { name, start, end }]
        } else {
            Seq::empty()
        },
    }
}

/// The errors of the first `n` declarations.
pub open spec fn declarations_errors(declarations: Seq<Declaration>, n: nat) -> Seq<Error>
    decreases n,
{
    if n == 0 || n > declarations.len() {
        Seq::empty()
    } else {
        declarations_errors(declarations, (n - 1) as nat) + declaration_errors(declarations[n - 1])
    }
}

/// Every error of a program: those of the declarations, then those of the
/// commands.
pub open spec fn program_errors(program: Program) -> Seq<Error> {
    match program.declarations {
        Some(declarations) => declarations_errors(declarations@, declarations@.len()) + (Scope {
            globals: declarations@,
            locals: Seq::empty(),
        }).commands(program.commands, program.commands@.len()),
        None => (Scope { globals: Seq::empty(), locals: Seq::empty() }).commands(
            program.commands,
            program.commands@.len(),
        ),
    }
}

/// Walks a program and collects its errors.
#[derive(Debug)]
pub struct SemanticVerifier {
    globals: Vec<Declaration>,
    locals: Vec<String>,
}

impl View for SemanticVerifier {
    type V = Scope;

    closed spec fn view(&self) -> Scope {
        Scope { globals: self.globals@, locals: self.locals@ }
    }
}

impl SemanticVerifier {
    /// A verifier with nothing in scope.
    pub fn new() -> (r: SemanticVerifier)
        ensures
            r@ == (Scope { globals: Seq::empty(), locals: Seq::empty() }),
    {
        SemanticVerifier { globals: Vec::new(), locals: Vec::new() }
    }

    /// A verifier with `declarations` in scope.
    pub fn with_globals(declarations: &Declarations) -> (r: SemanticVerifier)
        ensures
            r@ == (Scope { globals: declarations@, locals: Seq::empty() }),
    {
        let mut globals: Vec<Declaration> = Vec::new();
        let n = declarations.len();
        let mut i: usize = 0;
        while i < n
            invariant
                n == declarations@.len(),
                i <= n,
                globals@ == declarations@.take(i as int),
            decreases n - i,
        {
            globals.push(copy_declaration(&declarations[i]));
            assert(globals@ =~= declarations@.take(i + 1));
            i += 1;
        }
        assert(declarations@.take(n as int) =~= declarations@);
        SemanticVerifier { globals, locals: Vec::new() }
    }

    fn get_global(&self, name: &String) -> (r: Option<&Declaration>)
        ensures
            match r {
                Some(declaration) => self@.global(*name) == Some(*declaration),
                None => self@.global(*name) is None,
            },
    {
        let n = self.globals.len();
        let mut i: usize = 0;
        while i < n
            invariant
                n == self.globals@.len(),
                i <= n,
                first_global(self.globals@.take(i as int), name@) is None,
            decreases n - i,
        {
            proof {
                assert(self.globals@.take(i + 1).drop_last() =~= self.globals@.take(i as int));
            }
            if self.globals[i].name().eq(name) {
                proof {
                    lemma_first_global_prefix(self.globals@.take(i + 1), self.globals@, name@);
                }
                return Some(&self.globals[i]);
            }
            i += 1;
        }
        assert(self.globals@.take(n as int) =~= self.globals@);
        None
    }

    fn get_local(&self, name: &String) -> (r: Option<&String>)
        ensures
            r is Some == self@.local(*name),
    {
        let n = self.locals.len();
        let mut i: usize = 0;
        while i < n
            invariant
                n == self.locals@.len(),
                i <= n,
                forall|k: int| 0 <= k < i ==> (#[trigger] self.locals@[k])@ != name@,
            decreases n - i,
        {
            if self.locals[i].eq(name) {
                return Some(&self.locals[i]);
            }
            i += 1;
        }
        None
    }

    fn check_undeclared(&self, name: &String, errors: &mut Vec<Error>)
        ensures
            final(errors)@ == old(errors)@ + self@.undeclared(*name),
    {
        let declared = match self.get_global(name) {
            Some(_) => true,
            None => match self.get_local(name) {
                Some(_) => true,
                None => false,
            },
        };
        if !declared {
            errors.push(Error::UndeclaredVariable { name: name.clone() });
        }
        assert(errors@ =~= old(errors)@ + self@.undeclared(*name));
    }

    fn check_modification(&self, name: &String, errors: &mut Vec<Error>)
        ensures
            final(errors)@ == old(errors)@ + self@.modification(*name),
    {
        match self.get_local(name) {
            Some(_) => {
                errors.push(Error::ForCounterModification { name: name.clone() });
            },
            None => {},
        }
        assert(errors@ =~= old(errors)@ + self@.modification(*name));
    }

    fn check_var_usage(&self, name: &String, errors: &mut Vec<Error>)
        ensures
            final(errors)@ == old(errors)@ + self@.var_usage(*name),
    {
        match self.get_global(name) {
            Some(Declaration::Array { .. }) => {
                errors.push(Error::InvalidVariableUsage { name: name.clone() });
            },
            _ => {},
        }
        assert(errors@ =~= old(errors)@ + self@.var_usage(*name));
    }

    fn check_array_usage(&self, name: &String, errors: &mut Vec<Error>)
        ensures
            final(errors)@ == old(errors)@ + self@.array_usage(*name),
    {
        let misused = match self.get_global(name) {
            Some(Declaration::Var { .. }) => true,
            Some(Declaration::Array { .. }) => false,
            None => match self.get_local(name) {
                Some(_) => true,
                None => false,
            },
        };
        if misused {
            errors.push(Error::InvalidVariableUsage { name: name.clone() });
        }
        assert(errors@ =~= old(errors)@ + self@.array_usage(*name));
    }

    fn check_index_usage(&self, name: &String, index: &String, errors: &mut Vec<Error>)
        ensures
            final(errors)@ == old(errors)@ + self@.index_usage(*name, *index),
    {
        match self.get_global(index) {
            Some(Declaration::Array { .. }) => {
                errors.push(Error::InvalidVariableUsage { name: name.clone() });
            },
            _ => {},
        }
        assert(errors@ =~= old(errors)@ + self@.index_usage(*name, *index));
    }

    fn check_const_usage(&self, name: &String, index: i64, errors: &mut Vec<Error>)
        ensures
            final(errors)@ == old(errors)@ + self@.const_usage(*name, index),
    {
        let misused = match self.get_global(name) {
            Some(Declaration::Var { .. }) => true,
            Some(Declaration::Array { start, end, .. }) => !(*start <= index && index <= *end),
            None => match self.get_local(name) {
                Some(_) => true,
                None => false,
            },
        };
        if misused {
            errors.push(Error::InvalidVariableUsage { name: name.clone() });
        }
        assert(errors@ =~= old(errors)@ + self@.const_usage(*name, index));
    }

    fn visit_identifier(&self, identifier: &Identifier, errors: &mut Vec<Error>)
        ensures
            final(errors)@ == old(errors)@ + self@.identifier(*identifier),
    {
        match identifier {
            Identifier::VarAccess { name } => {
                self.check_undeclared(name, errors);
                self.check_var_usage(name, errors);
            },
            Identifier::ArrAccess { name, index } => {
                self.check_undeclared(name, errors);
                self.check_undeclared(index, errors);
                self.check_array_usage(name, errors);
                self.check_index_usage(name, index, errors);
            },
            Identifier::ArrConstAccess { name, index } => {
                self.check_undeclared(name, errors);
                self.check_const_usage(name, *index, errors);
            },
        }
        assert(errors@ =~= old(errors)@ + self@.identifier(*identifier));
    }

    fn visit_value(&self, value: &Value, errors: &mut Vec<Error>)
        ensures
            final(errors)@ == old(errors)@ + self@.value(*value),
    {
        match value {
            Value::Num(_) => {},
            Value::Identifier(identifier) => self.visit_identifier(identifier, errors),
        }
        assert(errors@ =~= old(errors)@ + self@.value(*value));
    }

    fn visit_condition(&self, condition: &Condition, errors: &mut Vec<Error>)
        ensures
            final(errors)@ == old(errors)@ + self@.condition(*condition),
    {
        self.visit_value(&condition.left, errors);
        self.visit_value(&condition.right, errors);
        assert(errors@ =~= old(errors)@ + self@.condition(*condition));
    }

    fn visit_expression(&self, expression: &Expression, errors: &mut Vec<Error>)
        ensures
            final(errors)@ == old(errors)@ + self@.expression(*expression),
    {
        match expression {
            Expression::Simple { value } => self.visit_value(value, errors),
            Expression::Compound { left, right, .. } => {
                self.visit_value(left, errors);
                self.visit_value(right, errors);
            },
        }
        assert(errors@ =~= old(errors)@ + self@.expression(*expression));
    }

    fn visit_command(&mut self, command: &Command, errors: &mut Vec<Error>)
        ensures
            final(self)@ == old(self)@,
            final(errors)@ == old(errors)@ + old(self)@.command(*command),
        decreases command, 0nat,
    {
        match command {
            Command::IfElse { condition, positive, negative } => {
                self.visit_condition(condition, errors);
                self.visit_commands(positive, errors);
                self.visit_commands(negative, errors);
            },
            Command::If { condition, positive } => {
                self.visit_condition(condition, errors);
                self.visit_commands(positive, errors);
            },
            Command::While { condition, commands } => {
                self.visit_condition(condition, errors);
                self.visit_commands(commands, errors);
            },
            Command::Do { commands, condition } => {
                self.visit_commands(commands, errors);
                self.visit_condition(condition, errors);
            },
            Command::For { counter, from, to, commands, .. } => {
                self.visit_value(from, errors);
                self.visit_value(to, errors);
                self.locals.push(counter.clone());
                self.visit_commands(commands, errors);
                self.locals.pop();
                assert(self.locals@ =~= old(self).locals@);
            },
            Command::Read { target } => {
                self.visit_identifier(target, errors);
                self.check_modification(target.name(), errors);
            },
            Command::Write { value } => {
                self.visit_value(value, errors);
            },
            Command::Assign { target, expr } => {
                self.visit_identifier(target, errors);
                self.check_modification(target.name(), errors);
                self.visit_expression(expr, errors);
            },
        }
        assert(errors@ =~= old(errors)@ + old(self)@.command(*command));
    }

    fn visit_commands(&mut self, commands: &Commands, errors: &mut Vec<Error>)
        ensures
            final(self)@ == old(self)@,
            final(errors)@ == old(errors)@ + old(self)@.commands(*commands, commands@.len()),
        decreases commands, 1nat,
    {
        let n = commands.len();
        let mut i: usize = 0;
        assert(errors@ =~= old(errors)@ + old(self)@.commands(*commands, 0));
        while i < n
            invariant
                n == commands@.len(),
                i <= n,
                self@ == old(self)@,
                errors@ == old(errors)@ + old(self)@.commands(*commands, i as nat),
            decreases n - i,
        {
            self.visit_command(&commands[i], errors);
            assert(errors@ =~= old(errors)@ + old(self)@.commands(*commands, (i + 1) as nat));
            i += 1;
        }
    }
}

/// A copy of a declaration.
fn copy_declaration(declaration: &Declaration) -> (r: Declaration)
    ensures
        r == *declaration,
{
    match declaration {
        Declaration::Var { name } => Declaration::Var { name: name.clone() },
        Declaration::Array { name, start, end } => Declaration::Array {
            name: name.clone(),
            start: *start,
            end: *end,
        },
    }
}

/// `InvalidArrayRange` for every array whose range starts after its end.
fn visit_declarations(declarations: &Declarations, errors: &mut Vec<Error>)
    ensures
        final(errors)@ == old(errors)@ + declarations_errors(declarations@, declarations@.len()),
{
    let n = declarations.len();
    let mut i: usize = 0;
    assert(errors@ =~= old(errors)@ + declarations_errors(declarations@, 0));
    while i < n
        invariant
            n == declarations@.len(),
            i <= n,
            errors@ == old(errors)@ + declarations_errors(declarations@, i as nat),
        decreases n - i,
    {
        match &declarations[i] {
            Declaration::Var { .. } => {},
            Declaration::Array { name, start, end } => {
                if *start > *end {
                    errors.push(
                        Error::InvalidArrayRange { name: name.clone(), start: *start, end: *end },
                    );
                }
            },
        }
        assert(errors@ =~= old(errors)@ + declarations_errors(declarations@, (i + 1) as nat));
        i += 1;
    }
}

/// Checks a program. Returns the program where it has no error, else every
/// error, in the order of the program's text: see [`program_errors`].
pub fn verify(program: Program) -> (r: Result<Program, Vec<Error>>)
    ensures
        match r {
            Ok(verified) => accepted(program) == Some(verified),
            Err(errors) => accepted(program) is None && errors@ == program_errors(program),
        },
{
    let mut errors: Vec<Error> = Vec::new();
    match &program.declarations {
        Some(declarations) => {
            visit_declarations(declarations, &mut errors);
            let mut verifier = SemanticVerifier::with_globals(declarations);
            verifier.visit_commands(&program.commands, &mut errors);
        },
        None => {
            let mut verifier = SemanticVerifier::new();
            verifier.visit_commands(&program.commands, &mut errors);
        },
    }
    assert(errors@ =~= program_errors(program));
    if errors.len() == 0 {
        Ok(program)
    } else {
        Err(errors)
    }
}

/// What `verify` returns for a program, as far as it succeeds: the program
/// itself, where it has no error.
pub open spec fn accepted(program: Program) -> Option<Program> {
    if program_errors(program).len() == 0 {
        Some(program)
    } else {
        None
    }
}

/// Verifying a verified program again returns the same program: what is
/// accepted is returned unchanged, and is accepted again as it is.
pub proof fn lemma_verify_idempotent(program: Program)
    ensures
        accepted(program) matches Some(verified) ==> verified == program && accepted(verified)
            == Some(verified),
{
}

impl Scope {
    /// Whether the command, or a command inside it, reads into or assigns
    /// to a counter in scope: one of `self.locals`, or the counter of a
    /// `for` loop around the place.
    pub open spec fn modifies_counter(self, command: Command) -> bool
        decreases command,
    {
        match command {
            Command::IfElse { positive, negative, .. } => self.modify_counter(
                positive,
                positive@.len(),
            ) || self.modify_counter(negative, negative@.len()),
            Command::If { positive, .. } => self.modify_counter(positive, positive@.len()),
            Command::While { commands, .. } => self.modify_counter(commands, commands@.len()),
            Command::Do { commands, .. } => self.modify_counter(commands, commands@.len()),
            Command::For { counter, commands, .. } => self.inside(counter).modify_counter(
                commands,
                commands@.len(),
            ),
            Command::Read { target } => self.local(target.spec_name()),
            Command::Write { .. } => false,
            Command::Assign { target, .. } => self.local(target.spec_name()),
        }
    }

    /// Whether one of the first `n` commands does.
    pub open spec fn modify_counter(self, commands: Commands, n: nat) -> bool
        decreases commands, n,
    {
        if n == 0 || n > commands@.len() {
            false
        } else {
            self.modify_counter(commands, (n - 1) as nat) || self.modifies_counter(commands@[n - 1])
        }
    }

    /// A command that modifies a counter has an error.
    pub proof fn lemma_counter_protected(self, command: Command)
        requires
            self.modifies_counter(command),
        ensures
            self.command(command).len() > 0,
        decreases command,
    {
        match command {
            Command::IfElse { positive, negative, .. } => {
                if self.modify_counter(positive, positive@.len()) {
                    self.lemma_counters_protected(positive, positive@.len());
                } else {
                    self.lemma_counters_protected(negative, negative@.len());
                }
            },
            Command::If { positive, .. } => {
                self.lemma_counters_protected(positive, positive@.len());
            },
            Command::While { commands, .. } => {
                self.lemma_counters_protected(commands, commands@.len());
            },
            Command::Do { commands, .. } => {
                self.lemma_counters_protected(commands, commands@.len());
            },
            Command::For { counter, commands, .. } => {
                self.inside(counter).lemma_counters_protected(commands, commands@.len());
            },
            Command::Read { target } => {},
            Command::Write { .. } => {},
            Command::Assign { target, .. } => {},
        }
    }

    /// A list of commands one of which modifies a counter has an error.
    pub proof fn lemma_counters_protected(self, commands: Commands, n: nat)
        requires
            self.modify_counter(commands, n),
        ensures
            self.commands(commands, n).len() > 0,
        decreases commands, n,
    {
        if self.modify_counter(commands, (n - 1) as nat) {
            self.lemma_counters_protected(commands, (n - 1) as nat);
        } else {
            self.lemma_counter_protected(commands@[n - 1]);
        }
    }

    /// The counter of a `for` loop is not visible behind the loop: a use of
    /// its name there is checked in the scope of the loop itself, and is an
    /// error unless the name is in that scope.
    pub proof fn lemma_counter_leaves_scope(self, commands: Commands, name: String)
        requires
            commands@.len() == 2,
            commands@[0] is For,
            commands@[1] == (Command::Write {
                value: Value::Identifier(Identifier::VarAccess { name }),
            }),
            self.global(name) is None,
            !self.local(name),
        ensures
            self.commands(commands, 2) == self.command(commands@[0]) + seq![
                Error::UndeclaredVariable { name },
            ],
    {
        assert(self.commands(commands, 1) =~= self.command(commands@[0])) by {
            assert(self.commands(commands, 0) =~= Seq::<Error>::empty());
        }
        assert(self.command(commands@[1]) =~= seq![Error::UndeclaredVariable { name }]);
    }
}

/// In a program that is accepted no command reads into or assigns to the
/// counter of a `for` loop around it.
pub proof fn lemma_accepted_keeps_counters(program: Program)
    requires
        accepted(program) is Some,
    ensures
        !(Scope {
            globals: match program.declarations {
                Some(declarations) => declarations@,
                None => Seq::empty(),
            },
            locals: Seq::empty(),
        }).modify_counter(program.commands, program.commands@.len()),
{
    let scope = Scope {
        globals: match program.declarations {
            Some(declarations) => declarations@,
            None => Seq::empty(),
        },
        locals: Seq::empty(),
    };
    if scope.modify_counter(program.commands, program.commands@.len()) {
        scope.lemma_counters_protected(program.commands, program.commands@.len());
    }
}

/// A search that succeeds on a prefix of the declarations finds the same
/// declaration among all of them.
pub proof fn lemma_first_global_prefix(
    prefix: Seq<Declaration>,
    globals: Seq<Declaration>,
    name: Seq<char>,
)
    requires
        prefix.len() <= globals.len(),
        forall|i: int| 0 <= i < prefix.len() ==> globals[i] == #[trigger] prefix[i],
    ensures
        first_global(prefix, name) is Some ==> first_global(globals, name) == first_global(
            prefix,
            name,
        ),
    decreases globals.len(),
{
    if prefix.len() < globals.len() {
        lemma_first_global_prefix(prefix, globals.drop_last(), name);
    } else {
        assert(prefix =~= globals);
    }
}

} // verus!
