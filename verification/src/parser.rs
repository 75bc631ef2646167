//! The parser of the source language.
//!
//! A program is `DECLARE` declarations `BEGIN` commands `END`, or without
//! the declarations. The syntax of each construct is given by the way it is
//! spelled: see [`spell_program`]. The parser succeeds on the lists of
//! tokens that spell a program and on no others; which error it gives for
//! the others is stated in [`grammar`], and [`complete`] proves that the
//! two agree.

pub mod complete;
pub mod grammar;
pub mod lexer;

use crate::ast::{Command, Commands, Condition, Declaration, Declarations, Expression};
use crate::ast::{ExprOp, Identifier, Program, RelOp, Value};
use crate::parser::complete::{lemma_rejected, proper};
use crate::parser::grammar::{beyond, end_command, end_commands, end_condition};
use crate::parser::grammar::{end_declaration, end_declarations, end_expression, end_identifier};
use crate::parser::grammar::{end_program, end_value, end_while, more_declarations, stands};
use crate::parser::grammar::{want_mark, want_name, want_number, want_word};
use crate::parser::lexer::{lex, symbols, tokenize, LexError, Symbol, Token, Word};
use vstd::prelude::*;
use vstd::string::StringSliceAdditionalSpecFns;

verus! {

/// Why a text is no program.
#[derive(Debug, Clone, Copy, PartialEq, Eq, Structural)]
pub enum ParseError {
    /// The text holds something that is no token.
    Lex(LexError),
    /// The token at this position cannot stand where it stands.
    UnexpectedToken { position: usize },
    /// The text ends too early.
    UnexpectedEnd,
}

pub open spec fn relop_word(op: RelOp) -> Word {
    match op {
        RelOp::EQ => Word::Eq,
        RelOp::NEQ => Word::Neq,
        RelOp::LEQ => Word::Leq,
        RelOp::LT => Word::Le,
        RelOp::GEQ => Word::Geq,
        RelOp::GT => Word::Ge,
    }
}

pub open spec fn exprop_word(op: ExprOp) -> Word {
    match op {
        ExprOp::Plus => Word::Plus,
        ExprOp::Minus => Word::Minus,
        ExprOp::Times => Word::Times,
        ExprOp::Div => Word::Div,
        ExprOp::Mod => Word::Mod,
    }
}

/// A name; a name and in brackets the name of the index; or a name and in
/// brackets a number.
pub open spec fn spell_identifier(identifier: Identifier) -> Seq<Symbol> {
    match identifier {
        Identifier::VarAccess { name } => seq![Symbol::Name(name@)],
        Identifier::ArrAccess { name, index } => seq![
            Symbol::Name(name@),
            Symbol::Open,
            Symbol::Name(index@),
            Symbol::Close,
        ],
        Identifier::ArrConstAccess { name, index } => seq![
            Symbol::Name(name@),
            Symbol::Open,
            Symbol::Number(index),
            Symbol::Close,
        ],
    }
}

/// A number or an identifier.
pub open spec fn spell_value(value: Value) -> Seq<Symbol> {
    match value {
        Value::Num(number) => seq![Symbol::Number(number)],
        Value::Identifier(identifier) => spell_identifier(identifier),
    }
}

/// Two values with the relation between them.
pub open spec fn spell_condition(condition: Condition) -> Seq<Symbol> {
    spell_value(condition.left).push(Symbol::Word(relop_word(condition.op))) + spell_value(
        condition.right,
    )
}

/// A value, or two values with the operator between them.
pub open spec fn spell_expression(expression: Expression) -> Seq<Symbol> {
    match expression {
        Expression::Simple { value } => spell_value(value),
        Expression::Compound { left, op, right } => spell_value(left).push(
            Symbol::Word(exprop_word(op)),
        ) + spell_value(right),
    }
}

pub open spec fn word(word: Word) -> Seq<Symbol> {
    seq![Symbol::Word(word)]
}

/// How a command is spelled.
pub open spec fn spell_command(command: Command) -> Seq<Symbol>
    decreases command,
{
    match command {
        Command::IfElse { condition, positive, negative } => word(Word::If) + spell_condition(
            condition,
        ) + word(Word::Then) + spell_commands(positive, positive@.len()) + word(Word::Else)
            + spell_commands(negative, negative@.len()) + word(Word::EndIf),
        Command::If { condition, positive } => word(Word::If) + spell_condition(condition) + word(
            Word::Then,
        ) + spell_commands(positive, positive@.len()) + word(Word::EndIf),
        Command::While { condition, commands } => word(Word::While) + spell_condition(condition)
            + word(Word::Do) + spell_commands(commands, commands@.len()) + word(Word::EndWhile),
        Command::Do { commands, condition } => word(Word::Do) + spell_commands(
            commands,
            commands@.len(),
        ) + word(Word::While) + spell_condition(condition) + word(Word::EndDo),
        Command::For { counter, ascending, from, to, commands } => seq![
            Symbol::Word(Word::For),
            Symbol::Name(counter@),
            Symbol::Word(Word::From),
        ] + spell_value(from) + word(
            if ascending {
                Word::To
            } else {
                Word::DownTo
            },
        ) + spell_value(to) + word(Word::Do) + spell_commands(commands, commands@.len()) + word(
            Word::EndFor,
        ),
        Command::Read { target } => word(Word::Read) + spell_identifier(target).push(
            Symbol::Semicolon,
        ),
        Command::Write { value } => word(Word::Write) + spell_value(value).push(Symbol::Semicolon),
        Command::Assign { target, expr } => spell_identifier(target) + word(Word::Assign)
            + spell_expression(expr).push(Symbol::Semicolon),
    }
}

/// The first `n` of `commands`, one after the other.
pub open spec fn spell_commands(commands: Commands, n: nat) -> Seq<Symbol>
    decreases commands, n,
{
    if n == 0 || n > commands@.len() {
        Seq::empty()
    } else {
        spell_commands(commands, (n - 1) as nat) + spell_command(commands@[n - 1])
    }
}

/// A name, for an array with its range in brackets.
pub open spec fn spell_declaration(declaration: Declaration) -> Seq<Symbol> {
    match declaration {
        Declaration::Var { name } => seq![Symbol::Name(name@)],
        Declaration::Array { name, start, end } => seq![
            Symbol::Name(name@),
            Symbol::Open,
            Symbol::Number(start),
            Symbol::Colon,
            Symbol::Number(end),
            Symbol::Close,
        ],
    }
}

/// The first `n` declarations, with commas between them.
pub open spec fn spell_declarations(declarations: Seq<Declaration>, n: nat) -> Seq<Symbol>
    decreases n,
{
    if n == 0 || n > declarations.len() {
        Seq::empty()
    } else if n == 1 {
        spell_declaration(declarations[0])
    } else {
        spell_declarations(declarations, (n - 1) as nat).push(Symbol::Comma) + spell_declaration(
            declarations[n - 1],
        )
    }
}

/// How a program is spelled.
pub open spec fn spell_program(program: Program) -> Seq<Symbol> {
    match program.declarations {
        Some(declarations) => word(Word::Declare) + spell_declarations(
            declarations@,
            declarations@.len(),
        ) + word(Word::Begin) + spell_commands(program.commands, program.commands@.len()) + word(
            Word::End,
        ),
        None => word(Word::Begin) + spell_commands(program.commands, program.commands@.len())
            + word(Word::End),
    }
}

/// What was parsed from `from` up to `to`, where `spelled` is its spelling.
pub open spec fn consumed(tokens: Seq<Token>, from: int, to: int, spelled: Seq<Symbol>) -> bool {
    &&& 0 <= from <= to <= tokens.len()
    &&& symbols(tokens).subrange(from, to) == spelled
}

proof fn lemma_join(tokens: Seq<Token>, a: int, b: int, c: int, first: Seq<Symbol>, second: Seq<
    Symbol,
>)
    requires
        consumed(tokens, a, b, first),
        consumed(tokens, b, c, second),
    ensures
        consumed(tokens, a, c, first + second),
{
    let s = symbols(tokens);
    assert(s.subrange(a, c) =~= s.subrange(a, b) + s.subrange(b, c));
}

proof fn lemma_single(tokens: Seq<Token>, at: int)
    requires
        0 <= at < tokens.len(),
    ensures
        consumed(tokens, at, at + 1, seq![tokens[at]@]),
{
    let s = symbols(tokens);
    assert(s.subrange(at, at + 1) =~= seq![tokens[at]@]);
}

proof fn lemma_nothing(tokens: Seq<Token>, at: int)
    requires
        0 <= at <= tokens.len(),
    ensures
        consumed(tokens, at, at, Seq::empty()),
{
    let s = symbols(tokens);
    assert(s.subrange(at, at) =~= Seq::<Symbol>::empty());
}

/// The place that the parser gives is the place that the grammar gives,
/// and so is the error.
pub open spec fn same(r: Result<usize, ParseError>, expected: Result<int, ParseError>) -> bool {
    match r {
        Ok(next) => expected == Ok::<int, ParseError>(next as int),
        Err(e) => expected == Err::<int, ParseError>(e),
    }
}

/// As [`same`], for a result that comes with what was parsed.
pub open spec fn found<T>(r: Result<(T, usize), ParseError>, expected: Result<int, ParseError>) -> bool {
    match r {
        Ok((_, next)) => expected == Ok::<int, ParseError>(next as int),
        Err(e) => expected == Err::<int, ParseError>(e),
    }
}

/// The symbols of a list of tokens, one for one.
proof fn lemma_symbols(tokens: Seq<Token>)
    ensures
        symbols(tokens).len() == tokens.len(),
        forall|i: int| 0 <= i < tokens.len() ==> #[trigger] symbols(tokens)[i] == tokens[i]@,
{
}

/// The keyword at `pos`, if there is one.
fn peek_word(tokens: &Vec<Token>, pos: usize) -> (r: Option<Word>)
    ensures
        match r {
            Some(w) => pos < tokens@.len() && pos < usize::MAX && tokens@[pos as int]@
                == Symbol::Word(w) && symbols(tokens@)[pos as int] == Symbol::Word(w),
            None => pos >= tokens@.len() || (!(tokens@[pos as int] is Word) && !(symbols(
                tokens@,
            )[pos as int] is Word)),
        },
        symbols(tokens@).len() == tokens@.len(),
{
    proof {
        lemma_symbols(tokens@);
    }
    if pos < tokens.len() {
        match &tokens[pos] {
            Token::Word(w) => Some(*w),
            _ => None,
        }
    } else {
        None
    }
}

/// Behind the keyword `wanted`, which must stand at `pos`.
fn expect_word(tokens: &Vec<Token>, pos: usize, wanted: Word) -> (r: Result<usize, ParseError>)
    ensures
        same(r, want_word(symbols(tokens@), pos as int, wanted)),
        r matches Ok(next) ==> next == pos + 1 && consumed(
            tokens@,
            pos as int,
            next as int,
            word(wanted),
        ),
{
    proof {
        lemma_symbols(tokens@);
    }
    if pos >= tokens.len() {
        return Err(ParseError::UnexpectedEnd);
    }
    match peek_word(tokens, pos) {
        Some(found) => {
            if found == wanted {
                proof {
                    lemma_single(tokens@, pos as int);
                }
                Ok(pos + 1)
            } else {
                Err(ParseError::UnexpectedToken { position: pos })
            }
        },
        None => Err(ParseError::UnexpectedToken { position: pos }),
    }
}

/// The punctuation marks.
#[derive(Debug, Clone, Copy, PartialEq, Eq, Structural)]
pub enum Mark {
    Comma,
    Semicolon,
    Open,
    Close,
    Colon,
}

impl Mark {
    pub open spec fn symbol(self) -> Symbol {
        match self {
            Mark::Comma => Symbol::Comma,
            Mark::Semicolon => Symbol::Semicolon,
            Mark::Open => Symbol::Open,
            Mark::Close => Symbol::Close,
            Mark::Colon => Symbol::Colon,
        }
    }
}

/// Whether the mark `wanted` stands at `pos`.
fn is_mark(tokens: &Vec<Token>, pos: usize, wanted: Mark) -> (r: bool)
    ensures
        r == stands(symbols(tokens@), pos as int, wanted.symbol()),
        r ==> pos < tokens@.len() && pos < usize::MAX && tokens@[pos as int]@ == wanted.symbol(),
{
    proof {
        lemma_symbols(tokens@);
    }
    if pos < tokens.len() {
        match (&tokens[pos], wanted) {
            (Token::Comma, Mark::Comma) => true,
            (Token::Semicolon, Mark::Semicolon) => true,
            (Token::Open, Mark::Open) => true,
            (Token::Close, Mark::Close) => true,
            (Token::Colon, Mark::Colon) => true,
            _ => false,
        }
    } else {
        false
    }
}

/// Behind the mark `wanted`, which must stand at `pos`.
fn expect_mark(tokens: &Vec<Token>, pos: usize, wanted: Mark) -> (r: Result<usize, ParseError>)
    ensures
        same(r, want_mark(symbols(tokens@), pos as int, wanted)),
        r matches Ok(next) ==> next == pos + 1 && consumed(
            tokens@,
            pos as int,
            next as int,
            seq![wanted.symbol()],
        ),
{
    proof {
        lemma_symbols(tokens@);
    }
    if pos >= tokens.len() {
        return Err(ParseError::UnexpectedEnd);
    }
    if is_mark(tokens, pos, wanted) {
        proof {
            lemma_single(tokens@, pos as int);
        }
        Ok(pos + 1)
    } else {
        Err(ParseError::UnexpectedToken { position: pos })
    }
}

/// The name at `pos`.
fn expect_name(tokens: &Vec<Token>, pos: usize) -> (r: Result<(String, usize), ParseError>)
    ensures
        found(r, want_name(symbols(tokens@), pos as int)),
        r matches Ok((name, next)) ==> next == pos + 1 && consumed(
            tokens@,
            pos as int,
            next as int,
            seq![Symbol::Name(name@)],
        ),
{
    proof {
        lemma_symbols(tokens@);
    }
    if pos >= tokens.len() {
        return Err(ParseError::UnexpectedEnd);
    }
    match &tokens[pos] {
        Token::Name(name) => {
            proof {
                lemma_single(tokens@, pos as int);
            }
            Ok((name.clone(), pos + 1))
        },
        _ => Err(ParseError::UnexpectedToken { position: pos }),
    }
}

/// The number at `pos`.
fn expect_number(tokens: &Vec<Token>, pos: usize) -> (r: Result<(i64, usize), ParseError>)
    ensures
        found(r, want_number(symbols(tokens@), pos as int)),
        r matches Ok((number, next)) ==> next == pos + 1 && consumed(
            tokens@,
            pos as int,
            next as int,
            seq![Symbol::Number(number)],
        ),
{
    proof {
        lemma_symbols(tokens@);
    }
    if pos >= tokens.len() {
        return Err(ParseError::UnexpectedEnd);
    }
    match &tokens[pos] {
        Token::Number(number) => {
            proof {
                lemma_single(tokens@, pos as int);
            }
            Ok((*number, pos + 1))
        },
        _ => Err(ParseError::UnexpectedToken { position: pos }),
    }
}

fn parse_identifier(tokens: &Vec<Token>, pos: usize) -> (r: Result<(Identifier, usize), ParseError>)
    ensures
        found(r, end_identifier(symbols(tokens@), pos as int)),
        r matches Ok((identifier, next)) ==> pos < next && consumed(
            tokens@,
            pos as int,
            next as int,
            spell_identifier(identifier),
        ),
{
    let (name, after_name) = match expect_name(tokens, pos) {
        Ok(found) => found,
        Err(e) => {
            return Err(e);
        },
    };
    if !is_mark(tokens, after_name, Mark::Open) {
        return Ok((Identifier::VarAccess { name }, after_name));
    }
    let ghost head = seq![Symbol::Name(name@)] + seq![Symbol::Open];
    proof {
        lemma_single(tokens@, after_name as int);
        lemma_join(
            tokens@,
            pos as int,
            after_name as int,
            after_name + 1,
            seq![Symbol::Name(name@)],
            seq![Symbol::Open],
        );
    }
    let inside = after_name + 1;
    if inside >= tokens.len() {
        return Err(ParseError::UnexpectedEnd);
    }
    let identifier = match &tokens[inside] {
        Token::Name(index) => Identifier::ArrAccess { name, index: index.clone() },
        Token::Number(index) => Identifier::ArrConstAccess { name, index: *index },
        _ => {
            return Err(ParseError::UnexpectedToken { position: inside });
        },
    };
    let close = match expect_mark(tokens, inside + 1, Mark::Close) {
        Ok(next) => next,
        Err(e) => {
            return Err(e);
        },
    };
    proof {
        let middle = seq![tokens@[inside as int]@];
        lemma_single(tokens@, inside as int);
        lemma_join(tokens@, pos as int, inside as int, inside + 1, head, middle);
        lemma_join(tokens@, pos as int, inside + 1, close as int, head + middle, seq![Symbol::Close]);
        assert((head + middle) + seq![Symbol::Close] =~= spell_identifier(identifier));
    }
    Ok((identifier, close))
}

fn parse_value(tokens: &Vec<Token>, pos: usize) -> (r: Result<(Value, usize), ParseError>)
    ensures
        found(r, end_value(symbols(tokens@), pos as int)),
        r matches Ok((value, next)) ==> pos < next && consumed(
            tokens@,
            pos as int,
            next as int,
            spell_value(value),
        ),
{
    if pos >= tokens.len() {
        return Err(ParseError::UnexpectedEnd);
    }
    match &tokens[pos] {
        Token::Number(number) => {
            proof {
                lemma_single(tokens@, pos as int);
            }
            Ok((Value::Num(*number), pos + 1))
        },
        _ => match parse_identifier(tokens, pos) {
            Ok((identifier, next)) => Ok((Value::Identifier(identifier), next)),
            Err(e) => Err(e),
        },
    }
}

fn parse_condition(tokens: &Vec<Token>, pos: usize) -> (r: Result<(Condition, usize), ParseError>)
    ensures
        found(r, end_condition(symbols(tokens@), pos as int)),
        r matches Ok((condition, next)) ==> pos < next && consumed(
            tokens@,
            pos as int,
            next as int,
            spell_condition(condition),
        ),
{
    let (left, after_left) = match parse_value(tokens, pos) {
        Ok(found) => found,
        Err(e) => {
            return Err(e);
        },
    };
    let op = match peek_word(tokens, after_left) {
        Some(Word::Eq) => RelOp::EQ,
        Some(Word::Neq) => RelOp::NEQ,
        Some(Word::Leq) => RelOp::LEQ,
        Some(Word::Le) => RelOp::LT,
        Some(Word::Geq) => RelOp::GEQ,
        Some(Word::Ge) => RelOp::GT,
        _ => {
            return Err(ParseError::UnexpectedToken { position: after_left });
        },
    };
    let (right, next) = match parse_value(tokens, after_left + 1) {
        Ok(found) => found,
        Err(e) => {
            return Err(e);
        },
    };
    proof {
        let middle = seq![Symbol::Word(relop_word(op))];
        lemma_single(tokens@, after_left as int);
        lemma_join(tokens@, pos as int, after_left as int, after_left + 1, spell_value(left), middle);
        lemma_join(
            tokens@,
            pos as int,
            after_left + 1,
            next as int,
            spell_value(left) + middle,
            spell_value(right),
        );
        assert((spell_value(left) + middle) + spell_value(right) =~= spell_condition(
            Condition { left, op, right },
        ));
    }
    Ok((Condition { left, op, right }, next))
}

fn parse_expression(tokens: &Vec<Token>, pos: usize) -> (r: Result<(Expression, usize), ParseError>)
    ensures
        found(r, end_expression(symbols(tokens@), pos as int)),
        r matches Ok((expression, next)) ==> pos < next && consumed(
            tokens@,
            pos as int,
            next as int,
            spell_expression(expression),
        ),
{
    let (left, after_left) = match parse_value(tokens, pos) {
        Ok(found) => found,
        Err(e) => {
            return Err(e);
        },
    };
    let op = match peek_word(tokens, after_left) {
        Some(Word::Plus) => ExprOp::Plus,
        Some(Word::Minus) => ExprOp::Minus,
        Some(Word::Times) => ExprOp::Times,
        Some(Word::Div) => ExprOp::Div,
        Some(Word::Mod) => ExprOp::Mod,
        _ => {
            return Ok((Expression::Simple { value: left }, after_left));
        },
    };
    let (right, next) = match parse_value(tokens, after_left + 1) {
        Ok(found) => found,
        Err(e) => {
            return Err(e);
        },
    };
    proof {
        let middle = seq![Symbol::Word(exprop_word(op))];
        lemma_single(tokens@, after_left as int);
        lemma_join(tokens@, pos as int, after_left as int, after_left + 1, spell_value(left), middle);
        lemma_join(
            tokens@,
            pos as int,
            after_left + 1,
            next as int,
            spell_value(left) + middle,
            spell_value(right),
        );
        assert((spell_value(left) + middle) + spell_value(right) =~= spell_expression(
            Expression::Compound { left, op, right },
        ));
    }
    Ok((Expression::Compound { left, op, right }, next))
}

/// What is parsed, with the place behind it, kept as the spelling of all
/// that was parsed from `start` on.
struct Progress {
    at: usize,
    spelled: Ghost<Seq<Symbol>>,
}

impl Progress {
    spec fn holds(self, tokens: Seq<Token>, start: int) -> bool {
        consumed(tokens, start, self.at as int, self.spelled@)
    }

    /// Nothing parsed yet.
    fn begin(tokens: &Vec<Token>, start: usize) -> (r: Progress)
        requires
            start <= tokens@.len(),
        ensures
            r.at == start,
            r.spelled@ == Seq::<Symbol>::empty(),
            r.holds(tokens@, start as int),
    {
        proof {
            lemma_nothing(tokens@, start as int);
        }
        Progress { at: start, spelled: Ghost(Seq::empty()) }
    }

    /// The keyword `wanted` parsed.
    fn word(&mut self, tokens: &Vec<Token>, wanted: Word, Ghost(start): Ghost<int>) -> (r: Result<
        (),
        ParseError,
    >)
        requires
            old(self).holds(tokens@, start),
        ensures
            match r {
                Ok(_) => want_word(symbols(tokens@), old(self).at as int, wanted) == Ok::<
                    int,
                    ParseError,
                >(final(self).at as int),
                Err(e) => want_word(symbols(tokens@), old(self).at as int, wanted) == Err::<
                    int,
                    ParseError,
                >(e) && *final(self) == *old(self),
            },
            r is Ok ==> final(self).holds(tokens@, start) && final(self).at > old(self).at
                && final(self).spelled@ == old(self).spelled@ + word(wanted),
    {
        match expect_word(tokens, self.at, wanted) {
            Ok(next) => {
                proof {
                    lemma_join(
                        tokens@,
                        start,
                        self.at as int,
                        next as int,
                        self.spelled@,
                        word(wanted),
                    );
                }
                self.spelled = Ghost(self.spelled@ + word(wanted));
                self.at = next;
                Ok(())
            },
            Err(e) => Err(e),
        }
    }

    /// The mark `wanted` parsed.
    fn mark(&mut self, tokens: &Vec<Token>, wanted: Mark, Ghost(start): Ghost<int>) -> (r: Result<
        (),
        ParseError,
    >)
        requires
            old(self).holds(tokens@, start),
        ensures
            match r {
                Ok(_) => want_mark(symbols(tokens@), old(self).at as int, wanted) == Ok::<
                    int,
                    ParseError,
                >(final(self).at as int),
                Err(e) => want_mark(symbols(tokens@), old(self).at as int, wanted) == Err::<
                    int,
                    ParseError,
                >(e) && *final(self) == *old(self),
            },
            r is Ok ==> final(self).holds(tokens@, start) && final(self).at > old(self).at
                && final(self).spelled@ == old(self).spelled@ + seq![wanted.symbol()],
    {
        match expect_mark(tokens, self.at, wanted) {
            Ok(next) => {
                proof {
                    lemma_join(
                        tokens@,
                        start,
                        self.at as int,
                        next as int,
                        self.spelled@,
                        seq![wanted.symbol()],
                    );
                }
                self.spelled = Ghost(self.spelled@ + seq![wanted.symbol()]);
                self.at = next;
                Ok(())
            },
            Err(e) => Err(e),
        }
    }

    /// Something parsed by another function, from where the progress stood
    /// up to `next`.
    fn add(&mut self, tokens: &Vec<Token>, next: usize, Ghost(part): Ghost<Seq<Symbol>>, Ghost(
        start,
    ): Ghost<int>)
        requires
            old(self).holds(tokens@, start),
            consumed(tokens@, old(self).at as int, next as int, part),
        ensures
            final(self).holds(tokens@, start),
            final(self).at == next,
            final(self).spelled@ == old(self).spelled@ + part,
    {
        proof {
            lemma_join(tokens@, start, self.at as int, next as int, self.spelled@, part);
        }
        self.spelled = Ghost(self.spelled@ + part);
        self.at = next;
    }
}

/// What may follow the commands of a body: a `WHILE` with its condition in
/// front of `ENDDO`, where the body is that of a `DO` loop.
pub open spec fn spell_pending(pending: Option<Condition>) -> Seq<Symbol> {
    match pending {
        Some(condition) => word(Word::While) + spell_condition(condition),
        None => Seq::empty(),
    }
}

#[verifier::rlimit(100)]
fn parse_command(tokens: &Vec<Token>, pos: usize) -> (r: Result<(Command, usize), ParseError>)
    ensures
        found(r, end_command(symbols(tokens@), pos as int)),
        r matches Ok((command, next)) ==> pos < next && consumed(
            tokens@,
            pos as int,
            next as int,
            spell_command(command),
        ),
    decreases tokens@.len() - pos, 0nat,
{
    if pos >= tokens.len() {
        return Err(ParseError::UnexpectedEnd);
    }
    let ghost start = pos as int;
    let mut progress = Progress::begin(tokens, pos);
    match peek_word(tokens, pos) {
        Some(Word::If) => {
            match progress.word(tokens, Word::If, Ghost(start)) {
                Ok(_) => {},
                Err(e) => {
                    return Err(e);
                },
            }
            let (condition, next) = match parse_condition(tokens, progress.at) {
                Ok(found) => found,
                Err(e) => {
                    return Err(e);
                },
            };
            progress.add(tokens, next, Ghost(spell_condition(condition)), Ghost(start));
            match progress.word(tokens, Word::Then, Ghost(start)) {
                Ok(_) => {},
                Err(e) => {
                    return Err(e);
                },
            }
            let (positive, pending, next) = match parse_commands(tokens, progress.at) {
                Ok(found) => found,
                Err(e) => {
                    return Err(e);
                },
            };
            if pending.is_some() {
                return Err(ParseError::UnexpectedToken { position: next });
            }
            progress.add(
                tokens,
                next,
                Ghost(spell_commands(positive, positive@.len())),
                Ghost(start),
            );
            match peek_word(tokens, progress.at) {
                Some(Word::Else) => {
                    match progress.word(tokens, Word::Else, Ghost(start)) {
                        Ok(_) => {},
                        Err(e) => {
                            return Err(e);
                        },
                    }
                    let (negative, pending, next) = match parse_commands(tokens, progress.at) {
                        Ok(found) => found,
                        Err(e) => {
                            return Err(e);
                        },
                    };
                    if pending.is_some() {
                        return Err(ParseError::UnexpectedToken { position: next });
                    }
                    progress.add(
                        tokens,
                        next,
                        Ghost(spell_commands(negative, negative@.len())),
                        Ghost(start),
                    );
                    match progress.word(tokens, Word::EndIf, Ghost(start)) {
                        Ok(_) => {},
                        Err(e) => {
                            return Err(e);
                        },
                    }
                    let command = Command::IfElse { condition, positive, negative };
                    assert(progress.spelled@ =~= spell_command(command));
                    Ok((command, progress.at))
                },
                _ => {
                    match progress.word(tokens, Word::EndIf, Ghost(start)) {
                        Ok(_) => {},
                        Err(e) => {
                            return Err(e);
                        },
                    }
                    let command = Command::If { condition, positive };
                    assert(progress.spelled@ =~= spell_command(command));
                    Ok((command, progress.at))
                },
            }
        },
        Some(Word::Do) => {
            match progress.word(tokens, Word::Do, Ghost(start)) {
                Ok(_) => {},
                Err(e) => {
                    return Err(e);
                },
            }
            let (commands, pending, next) = match parse_commands(tokens, progress.at) {
                Ok(found) => found,
                Err(e) => {
                    return Err(e);
                },
            };
            let condition = match pending {
                Some(condition) => condition,
                None => {
                    return Err(ParseError::UnexpectedToken { position: next });
                },
            };
            progress.add(
                tokens,
                next,
                Ghost(
                    spell_commands(commands, commands@.len()) + spell_pending(Some(condition)),
                ),
                Ghost(start),
            );
            match progress.word(tokens, Word::EndDo, Ghost(start)) {
                Ok(_) => {},
                Err(e) => {
                    return Err(e);
                },
            }
            let command = Command::Do { commands, condition };
            assert(progress.spelled@ =~= spell_command(command));
            Ok((command, progress.at))
        },
        Some(Word::For) => {
            match progress.word(tokens, Word::For, Ghost(start)) {
                Ok(_) => {},
                Err(e) => {
                    return Err(e);
                },
            }
            let (counter, next) = match expect_name(tokens, progress.at) {
                Ok(found) => found,
                Err(e) => {
                    return Err(e);
                },
            };
            let ghost part = seq![Symbol::Name(counter@)];
            progress.add(tokens, next, Ghost(part), Ghost(start));
            match progress.word(tokens, Word::From, Ghost(start)) {
                Ok(_) => {},
                Err(e) => {
                    return Err(e);
                },
            }
            let (from, next) = match parse_value(tokens, progress.at) {
                Ok(found) => found,
                Err(e) => {
                    return Err(e);
                },
            };
            progress.add(tokens, next, Ghost(spell_value(from)), Ghost(start));
            let ascending = match peek_word(tokens, progress.at) {
                Some(Word::To) => true,
                Some(Word::DownTo) => false,
                _ => {
                    return Err(ParseError::UnexpectedToken { position: progress.at });
                },
            };
            match progress.word(
                tokens,
                if ascending {
                    Word::To
                } else {
                    Word::DownTo
                },
                Ghost(start),
            ) {
                Ok(_) => {},
                Err(e) => {
                    return Err(e);
                },
            }
            let (to, next) = match parse_value(tokens, progress.at) {
                Ok(found) => found,
                Err(e) => {
                    return Err(e);
                },
            };
            progress.add(tokens, next, Ghost(spell_value(to)), Ghost(start));
            match progress.word(tokens, Word::Do, Ghost(start)) {
                Ok(_) => {},
                Err(e) => {
                    return Err(e);
                },
            }
            let (commands, pending, next) = match parse_commands(tokens, progress.at) {
                Ok(found) => found,
                Err(e) => {
                    return Err(e);
                },
            };
            if pending.is_some() {
                return Err(ParseError::UnexpectedToken { position: next });
            }
            progress.add(
                tokens,
                next,
                Ghost(spell_commands(commands, commands@.len())),
                Ghost(start),
            );
            match progress.word(tokens, Word::EndFor, Ghost(start)) {
                Ok(_) => {},
                Err(e) => {
                    return Err(e);
                },
            }
            let command = Command::For { counter, ascending, from, to, commands };
            assert(progress.spelled@ =~= spell_command(command));
            Ok((command, progress.at))
        },
        Some(Word::Read) => {
            match progress.word(tokens, Word::Read, Ghost(start)) {
                Ok(_) => {},
                Err(e) => {
                    return Err(e);
                },
            }
            let (target, next) = match parse_identifier(tokens, progress.at) {
                Ok(found) => found,
                Err(e) => {
                    return Err(e);
                },
            };
            progress.add(tokens, next, Ghost(spell_identifier(target)), Ghost(start));
            match progress.mark(tokens, Mark::Semicolon, Ghost(start)) {
                Ok(_) => {},
                Err(e) => {
                    return Err(e);
                },
            }
            let command = Command::Read { target };
            assert(progress.spelled@ =~= spell_command(command));
            Ok((command, progress.at))
        },
        Some(Word::Write) => {
            match progress.word(tokens, Word::Write, Ghost(start)) {
                Ok(_) => {},
                Err(e) => {
                    return Err(e);
                },
            }
            let (value, next) = match parse_value(tokens, progress.at) {
                Ok(found) => found,
                Err(e) => {
                    return Err(e);
                },
            };
            progress.add(tokens, next, Ghost(spell_value(value)), Ghost(start));
            match progress.mark(tokens, Mark::Semicolon, Ghost(start)) {
                Ok(_) => {},
                Err(e) => {
                    return Err(e);
                },
            }
            let command = Command::Write { value };
            assert(progress.spelled@ =~= spell_command(command));
            Ok((command, progress.at))
        },
        Some(_) => Err(ParseError::UnexpectedToken { position: pos }),
        None => {
            let (target, next) = match parse_identifier(tokens, progress.at) {
                Ok(found) => found,
                Err(e) => {
                    return Err(e);
                },
            };
            progress.add(tokens, next, Ghost(spell_identifier(target)), Ghost(start));
            match progress.word(tokens, Word::Assign, Ghost(start)) {
                Ok(_) => {},
                Err(e) => {
                    return Err(e);
                },
            }
            let (expr, next) = match parse_expression(tokens, progress.at) {
                Ok(found) => found,
                Err(e) => {
                    return Err(e);
                },
            };
            progress.add(tokens, next, Ghost(spell_expression(expr)), Ghost(start));
            match progress.mark(tokens, Mark::Semicolon, Ghost(start)) {
                Ok(_) => {},
                Err(e) => {
                    return Err(e);
                },
            }
            let command = Command::Assign { target, expr };
            assert(progress.spelled@ =~= spell_command(command));
            Ok((command, progress.at))
        },
    }
}

/// The commands from `pos` up to the keyword that ends them. Where that is
/// a `WHILE` whose condition is followed by `ENDDO`, the condition is
/// returned too, and the place is that of the `ENDDO`.
fn parse_commands(tokens: &Vec<Token>, pos: usize) -> (r: Result<
    (Commands, Option<Condition>, usize),
    ParseError,
>)
    ensures
        match r {
            Ok((_, pending, next)) => end_commands(symbols(tokens@), pos as int) == Ok::<
                (bool, int),
                ParseError,
            >((pending is Some, next as int)),
            Err(e) => end_commands(symbols(tokens@), pos as int) == Err::<(bool, int), ParseError>(
                e,
            ),
        },
        r matches Ok((commands, pending, next)) ==> consumed(
            tokens@,
            pos as int,
            next as int,
            spell_commands(commands, commands@.len()) + spell_pending(pending),
        ) && (pending is Some ==> pos < next),
    decreases tokens@.len() - pos, 1nat,
{
    proof {
        lemma_symbols(tokens@);
    }
    let mut commands: Vec<Command> = Vec::new();
    let mut at = pos;
    if pos > tokens.len() {
        return Err(ParseError::UnexpectedEnd);
    }
    proof {
        lemma_nothing(tokens@, pos as int);
    }
    loop
        invariant
            pos <= at <= tokens@.len(),
            symbols(tokens@).len() == tokens@.len(),
            end_commands(symbols(tokens@), pos as int) == end_commands(
                symbols(tokens@),
                at as int,
            ),
            consumed(tokens@, pos as int, at as int, spell_commands(commands, commands@.len())),
        decreases tokens@.len() - at,
    {
        let ghost before = commands;
        let ghost spelled = spell_commands(commands, commands@.len());
        match peek_word(tokens, at) {
            Some(Word::End)
            | Some(Word::Else)
            | Some(Word::EndIf)
            | Some(Word::EndWhile)
            | Some(Word::EndFor)
            | Some(Word::EndDo) => {
                assert(spelled + spell_pending(None) =~= spelled);
                return Ok((commands, None, at));
            },
            Some(Word::While) => {
                let (condition, after_condition) = match parse_condition(tokens, at + 1) {
                    Ok(found) => found,
                    Err(e) => {
                        return Err(e);
                    },
                };
                proof {
                    lemma_single(tokens@, at as int);
                    lemma_join(
                        tokens@,
                        at as int,
                        at + 1,
                        after_condition as int,
                        word(Word::While),
                        spell_condition(condition),
                    );
                }
                match peek_word(tokens, after_condition) {
                    Some(Word::EndDo) => {
                        proof {
                            lemma_join(
                                tokens@,
                                pos as int,
                                at as int,
                                after_condition as int,
                                spelled,
                                spell_pending(Some(condition)),
                            );
                        }
                        return Ok((commands, Some(condition), after_condition));
                    },
                    _ => {},
                }
                let mut progress = Progress {
                    at: after_condition,
                    spelled: Ghost(word(Word::While) + spell_condition(condition)),
                };
                let ghost start = at as int;
                let ghost whole = end_while(symbols(tokens@), at as int, after_condition as int);
                assert(end_commands(symbols(tokens@), at as int) == match beyond(
                    whole,
                    at as int,
                    symbols(tokens@),
                ) {
                    Err(e) => Err::<(bool, int), ParseError>(e),
                    Ok(next) => end_commands(symbols(tokens@), next),
                });
                match progress.word(tokens, Word::Do, Ghost(start)) {
                    Ok(_) => {},
                    Err(e) => {
                        return Err(e);
                    },
                }
                let (body, pending, next) = match parse_commands(tokens, progress.at) {
                    Ok(found) => found,
                    Err(e) => {
                        return Err(e);
                    },
                };
                if pending.is_some() {
                    return Err(ParseError::UnexpectedToken { position: next });
                }
                progress.add(tokens, next, Ghost(spell_commands(body, body@.len())), Ghost(start));
                match progress.word(tokens, Word::EndWhile, Ghost(start)) {
                    Ok(_) => {},
                    Err(e) => {
                        return Err(e);
                    },
                }
                let command = Command::While { condition, commands: body };
                proof {
                    assert(progress.spelled@ =~= spell_command(command));
                    lemma_join(
                        tokens@,
                        pos as int,
                        at as int,
                        progress.at as int,
                        spelled,
                        spell_command(command),
                    );
                }
                commands.push(command);
                proof {
                    lemma_spell_push(before, commands, command);
                }
                at = progress.at;
            },
            _ => {
                if at >= tokens.len() {
                    assert(spelled + spell_pending(None) =~= spelled);
                    return Ok((commands, None, at));
                }
                let (command, next) = match parse_command(tokens, at) {
                    Ok(found) => found,
                    Err(e) => {
                        return Err(e);
                    },
                };
                proof {
                    lemma_join(
                        tokens@,
                        pos as int,
                        at as int,
                        next as int,
                        spelled,
                        spell_command(command),
                    );
                }
                commands.push(command);
                proof {
                    lemma_spell_push(before, commands, command);
                }
                at = next;
            },
        }
    }
}

/// The spelling of a list with one more command at its end.
proof fn lemma_spell_push(before: Commands, after: Commands, command: Command)
    requires
        after@ == before@.push(command),
    ensures
        spell_commands(after, after@.len()) == spell_commands(before, before@.len())
            + spell_command(command),
{
    lemma_spell_prefix(before, after, before@.len());
}

/// The spelling of the first `n` commands of two lists that agree on them.
proof fn lemma_spell_prefix(first: Commands, second: Commands, n: nat)
    requires
        n <= first@.len(),
        n <= second@.len(),
        forall|i: int| 0 <= i < n ==> first@[i] == second@[i],
    ensures
        spell_commands(first, n) == spell_commands(second, n),
    decreases n,
{
    if n > 0 {
        lemma_spell_prefix(first, second, (n - 1) as nat);
    }
}

fn parse_declaration(tokens: &Vec<Token>, pos: usize) -> (r: Result<
    (Declaration, usize),
    ParseError,
>)
    ensures
        found(r, end_declaration(symbols(tokens@), pos as int)),
        r matches Ok((declaration, next)) ==> pos < next && consumed(
            tokens@,
            pos as int,
            next as int,
            spell_declaration(declaration),
        ),
{
    let ghost start = pos as int;
    let (name, after_name) = match expect_name(tokens, pos) {
        Ok(found) => found,
        Err(e) => {
            return Err(e);
        },
    };
    if !is_mark(tokens, after_name, Mark::Open) {
        return Ok((Declaration::Var { name }, after_name));
    }
    let ghost head = seq![Symbol::Name(name@)];
    let mut progress = Progress { at: after_name, spelled: Ghost(head) };
    match progress.mark(tokens, Mark::Open, Ghost(start)) {
        Ok(_) => {},
        Err(e) => {
            return Err(e);
        },
    }
    let (low, next) = match expect_number(tokens, progress.at) {
        Ok(found) => found,
        Err(e) => {
            return Err(e);
        },
    };
    let ghost part = seq![Symbol::Number(low)];
    progress.add(tokens, next, Ghost(part), Ghost(start));
    match progress.mark(tokens, Mark::Colon, Ghost(start)) {
        Ok(_) => {},
        Err(e) => {
            return Err(e);
        },
    }
    let (high, next) = match expect_number(tokens, progress.at) {
        Ok(found) => found,
        Err(e) => {
            return Err(e);
        },
    };
    let ghost part = seq![Symbol::Number(high)];
    progress.add(tokens, next, Ghost(part), Ghost(start));
    match progress.mark(tokens, Mark::Close, Ghost(start)) {
        Ok(_) => {},
        Err(e) => {
            return Err(e);
        },
    }
    let declaration = Declaration::Array { name, start: low, end: high };
    assert(progress.spelled@ =~= spell_declaration(declaration));
    Ok((declaration, progress.at))
}

/// One declaration or more, with commas between them.
fn parse_declarations(tokens: &Vec<Token>, pos: usize) -> (r: Result<
    (Declarations, usize),
    ParseError,
>)
    ensures
        found(r, end_declarations(symbols(tokens@), pos as int)),
        r matches Ok((declarations, _)) ==> declarations@.len() >= 1,
        r matches Ok((declarations, next)) ==> consumed(
            tokens@,
            pos as int,
            next as int,
            spell_declarations(declarations@, declarations@.len()),
        ),
{
    let mut declarations: Vec<Declaration> = Vec::new();
    let (first, mut at) = match parse_declaration(tokens, pos) {
        Ok(found) => found,
        Err(e) => {
            return Err(e);
        },
    };
    declarations.push(first);
    while is_mark(tokens, at, Mark::Comma)
        invariant
            declarations@.len() >= 1,
            end_declarations(symbols(tokens@), pos as int) == more_declarations(
                symbols(tokens@),
                at as int,
            ),
            consumed(
                tokens@,
                pos as int,
                at as int,
                spell_declarations(declarations@, declarations@.len()),
            ),
        decreases tokens@.len() - at,
    {
        let ghost before = declarations@;
        let (declaration, next) = match parse_declaration(tokens, at + 1) {
            Ok(found) => found,
            Err(e) => {
                return Err(e);
            },
        };
        proof {
            lemma_single(tokens@, at as int);
            lemma_join(
                tokens@,
                pos as int,
                at as int,
                at + 1,
                spell_declarations(before, before.len()),
                seq![Symbol::Comma],
            );
            lemma_join(
                tokens@,
                pos as int,
                at + 1,
                next as int,
                spell_declarations(before, before.len()) + seq![Symbol::Comma],
                spell_declaration(declaration),
            );
        }
        declarations.push(declaration);
        proof {
            lemma_declarations_prefix(before, declarations@, before.len());
            assert(spell_declarations(before, before.len()) + seq![Symbol::Comma]
                =~= spell_declarations(before, before.len()).push(Symbol::Comma));
        }
        at = next;
    }
    Ok((declarations, at))
}

/// The spelling of the first `n` declarations of two lists that agree on
/// them.
proof fn lemma_declarations_prefix(first: Seq<Declaration>, second: Seq<Declaration>, n: nat)
    requires
        n <= first.len(),
        n <= second.len(),
        forall|i: int| 0 <= i < n ==> first[i] == second[i],
    ensures
        spell_declarations(first, n) == spell_declarations(second, n),
    decreases n,
{
    if n > 1 {
        lemma_declarations_prefix(first, second, (n - 1) as nat);
    }
}

/// The program that a list of tokens spells. Where the tokens spell a
/// program, with one declaration at least behind `DECLARE`, the result is
/// such a program; where they spell none, it is the error that
/// [`end_program`] gives: the first token that cannot stand where it
/// stands, or the end that came too early.
pub fn parse_tokens(tokens: &Vec<Token>) -> (r: Result<Program, ParseError>)
    ensures
        match r {
            Ok(program) => spell_program(program) == symbols(tokens@) && proper(program),
            Err(e) => end_program(symbols(tokens@)) == Err::<int, ParseError>(e) && forall|
                program: Program,
            |
                proper(program) ==> #[trigger] spell_program(program) != symbols(tokens@),
        },
{
    proof {
        lemma_symbols(tokens@);
        lemma_rejected(symbols(tokens@));
    }
    let ghost start = 0int;
    let mut progress = Progress::begin(tokens, 0);
    let declarations = match peek_word(tokens, 0) {
        Some(Word::Declare) => {
            match progress.word(tokens, Word::Declare, Ghost(start)) {
                Ok(_) => {},
                Err(e) => {
                    return Err(e);
                },
            }
            let (declarations, next) = match parse_declarations(tokens, progress.at) {
                Ok(found) => found,
                Err(e) => {
                    return Err(e);
                },
            };
            progress.add(
                tokens,
                next,
                Ghost(spell_declarations(declarations@, declarations@.len())),
                Ghost(start),
            );
            Some(declarations)
        },
        _ => None,
    };
    match progress.word(tokens, Word::Begin, Ghost(start)) {
        Ok(_) => {},
        Err(e) => {
            return Err(e);
        },
    }
    let (commands, pending, next) = match parse_commands(tokens, progress.at) {
        Ok(found) => found,
        Err(e) => {
            return Err(e);
        },
    };
    if pending.is_some() {
        return Err(ParseError::UnexpectedToken { position: next });
    }
    progress.add(tokens, next, Ghost(spell_commands(commands, commands@.len())), Ghost(start));
    match progress.word(tokens, Word::End, Ghost(start)) {
        Ok(_) => {},
        Err(e) => {
            return Err(e);
        },
    }
    if progress.at != tokens.len() {
        return Err(ParseError::UnexpectedToken { position: progress.at });
    }
    let program = Program { declarations, commands };
    proof {
        assert(progress.spelled@ =~= spell_program(program));
        assert(symbols(tokens@).subrange(0, tokens@.len() as int) =~= symbols(tokens@));
    }
    Ok(program)
}

/// The program that a text spells: where there is one, the tokens of the
/// text are the program's spelling. A text that has no tokens fails with
/// the lexer's error, and one whose tokens spell no program with the error
/// that [`end_program`] gives.
pub fn parse_ast(text: &str) -> (r: Result<Program, ParseError>)
    ensures
        match r {
            Ok(program) => lex(text.spec_bytes()) == Some(spell_program(program)) && proper(
                program,
            ),
            Err(e) => match lex(text.spec_bytes()) {
                Some(spelled) => end_program(spelled) == Err::<int, ParseError>(e) && forall|
                    program: Program,
                |
                    proper(program) ==> #[trigger] spell_program(program) != spelled,
                None => e is Lex,
            },
        },
{
    let tokens = match tokenize(text.as_bytes()) {
        Ok(tokens) => tokens,
        Err(e) => {
            return Err(ParseError::Lex(e));
        },
    };
    parse_tokens(&tokens)
}

} // verus!
