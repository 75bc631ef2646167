//! Every program is accepted as it is spelled.
//!
//! The grammar of [`crate::parser::grammar`] reads a list of symbols from
//! the front. This module proves that it reads the spelling of every
//! construct to its end. So the parser succeeds on exactly the lists of
//! tokens that spell a program.

use crate::ast::{Command, Commands, Condition, Declaration, Expression, Identifier, Program};
use crate::ast::Value;
use crate::parser::grammar::{beyond, closes, end_body, end_command, end_commands, end_condition};
use crate::parser::grammar::{end_declaration, end_declarations, end_expression, end_identifier};
use crate::parser::grammar::{end_program, end_value, end_while, more_declarations, stands};
use crate::parser::lexer::{Symbol, Word};
use crate::parser::{spell_command, spell_commands, spell_condition, spell_declaration};
use crate::parser::{spell_declarations, spell_expression, spell_identifier, spell_program};
use crate::parser::{exprop_word, relop_word, spell_value, word, ParseError};
use vstd::prelude::*;

verus! {

/// `part` stands in `s` from `pos` on.
pub open spec fn begins(s: Seq<Symbol>, pos: int, part: Seq<Symbol>) -> bool {
    &&& 0 <= pos
    &&& pos + part.len() <= s.len()
    &&& s.subrange(pos, pos + part.len()) == part
}

proof fn lemma_symbol_at(s: Seq<Symbol>, pos: int, part: Seq<Symbol>, k: int)
    requires
        begins(s, pos, part),
        0 <= k < part.len(),
    ensures
        s[pos + k] == part[k],
{
    assert(s.subrange(pos, pos + part.len())[k] == s[pos + k]);
}

proof fn lemma_split(s: Seq<Symbol>, pos: int, first: Seq<Symbol>, second: Seq<Symbol>)
    requires
        begins(s, pos, first + second),
    ensures
        begins(s, pos, first),
        begins(s, pos + first.len(), second),
{
    let whole = first + second;
    assert(s.subrange(pos, pos + first.len()) =~= first) by {
        assert forall|k: int| 0 <= k < first.len() implies s[pos + k] == first[k] by {
            lemma_symbol_at(s, pos, whole, k);
        }
    }
    assert(s.subrange(pos + first.len(), pos + first.len() + second.len()) =~= second) by {
        assert forall|k: int| 0 <= k < second.len() implies s[pos + first.len() + k]
            == second[k] by {
            lemma_symbol_at(s, pos, whole, first.len() + k);
        }
    }
}

proof fn lemma_word_at(s: Seq<Symbol>, pos: int, w: Word)
    requires
        begins(s, pos, word(w)),
    ensures
        stands(s, pos, Symbol::Word(w)),
{
    lemma_symbol_at(s, pos, word(w), 0);
}

/// The grammar reads an identifier to its end, where no bracket follows
/// it.
pub proof fn lemma_identifier(s: Seq<Symbol>, pos: int, identifier: Identifier)
    requires
        begins(s, pos, spell_identifier(identifier)),
        !stands(s, pos + spell_identifier(identifier).len(), Symbol::Open),
    ensures
        end_identifier(s, pos) == Ok::<int, ParseError>(pos + spell_identifier(identifier).len()),
        spell_identifier(identifier).len() >= 1,
        s[pos] is Name,
{
    let part = spell_identifier(identifier);
    lemma_symbol_at(s, pos, part, 0);
    match identifier {
        Identifier::VarAccess { name } => {},
        Identifier::ArrAccess { name, index } => {
            lemma_symbol_at(s, pos, part, 1);
            lemma_symbol_at(s, pos, part, 2);
            lemma_symbol_at(s, pos, part, 3);
        },
        Identifier::ArrConstAccess { name, index } => {
            lemma_symbol_at(s, pos, part, 1);
            lemma_symbol_at(s, pos, part, 2);
            lemma_symbol_at(s, pos, part, 3);
        },
    }
}

/// The grammar reads a value to its end, where no bracket follows it.
pub proof fn lemma_value(s: Seq<Symbol>, pos: int, value: Value)
    requires
        begins(s, pos, spell_value(value)),
        !stands(s, pos + spell_value(value).len(), Symbol::Open),
    ensures
        end_value(s, pos) == Ok::<int, ParseError>(pos + spell_value(value).len()),
        spell_value(value).len() >= 1,
        s[pos] is Name || s[pos] is Number,
{
    match value {
        Value::Num(number) => {
            lemma_symbol_at(s, pos, spell_value(value), 0);
        },
        Value::Identifier(identifier) => {
            lemma_identifier(s, pos, identifier);
        },
    }
}

/// The grammar reads a condition to its end, where no bracket follows it.
pub proof fn lemma_condition(s: Seq<Symbol>, pos: int, condition: Condition)
    requires
        begins(s, pos, spell_condition(condition)),
        !stands(s, pos + spell_condition(condition).len(), Symbol::Open),
    ensures
        end_condition(s, pos) == Ok::<int, ParseError>(pos + spell_condition(condition).len()),
        spell_condition(condition).len() >= 3,
{
    let left = spell_value(condition.left);
    let middle = word(relop_word(condition.op));
    let right = spell_value(condition.right);
    assert(spell_condition(condition) =~= (left + middle) + right);
    lemma_split(s, pos, left + middle, right);
    lemma_split(s, pos, left, middle);
    lemma_word_at(s, pos + left.len(), relop_word(condition.op));
    lemma_value(s, pos, condition.left);
    lemma_value(s, pos + left.len() + 1, condition.right);
}

/// The grammar reads an expression to its end, where a semicolon follows
/// it.
pub proof fn lemma_expression(s: Seq<Symbol>, pos: int, expression: Expression)
    requires
        begins(s, pos, spell_expression(expression)),
        stands(s, pos + spell_expression(expression).len(), Symbol::Semicolon),
    ensures
        end_expression(s, pos) == Ok::<int, ParseError>(pos + spell_expression(expression).len()),
        spell_expression(expression).len() >= 1,
{
    match expression {
        Expression::Simple { value } => {
            lemma_value(s, pos, value);
        },
        Expression::Compound { left, op, right } => {
            let first = spell_value(left);
            let middle = word(exprop_word(op));
            let last = spell_value(right);
            assert(spell_expression(expression) =~= (first + middle) + last);
            lemma_split(s, pos, first + middle, last);
            lemma_split(s, pos, first, middle);
            lemma_word_at(s, pos + first.len(), exprop_word(op));
            lemma_value(s, pos, left);
            lemma_value(s, pos + first.len() + 1, right);
        },
    }
}

/// The grammar reads a declaration to its end, where no bracket follows
/// it.
pub proof fn lemma_declaration(s: Seq<Symbol>, pos: int, declaration: Declaration)
    requires
        begins(s, pos, spell_declaration(declaration)),
        !stands(s, pos + spell_declaration(declaration).len(), Symbol::Open),
    ensures
        end_declaration(s, pos) == Ok::<int, ParseError>(
            pos + spell_declaration(declaration).len(),
        ),
        spell_declaration(declaration).len() >= 1,
{
    let part = spell_declaration(declaration);
    lemma_symbol_at(s, pos, part, 0);
    match declaration {
        Declaration::Var { name } => {},
        Declaration::Array { name, start, end } => {
            lemma_symbol_at(s, pos, part, 1);
            lemma_symbol_at(s, pos, part, 2);
            lemma_symbol_at(s, pos, part, 3);
            lemma_symbol_at(s, pos, part, 4);
            lemma_symbol_at(s, pos, part, 5);
        },
    }
}

/// The place behind the first `k` declarations.
pub open spec fn declared(pos: int, declarations: Seq<Declaration>, k: nat) -> int {
    pos + spell_declarations(declarations, k).len()
}

/// Where the first `n` declarations stand, the first `k` of them stand,
/// and behind them a comma and the next declaration.
proof fn lemma_declarations_part(
    s: Seq<Symbol>,
    pos: int,
    declarations: Seq<Declaration>,
    k: nat,
    n: nat,
)
    requires
        1 <= k <= n <= declarations.len(),
        begins(s, pos, spell_declarations(declarations, n)),
    ensures
        begins(s, pos, spell_declarations(declarations, k)),
        declared(pos, declarations, k) <= declared(pos, declarations, n),
        k < n ==> stands(s, declared(pos, declarations, k), Symbol::Comma) && begins(
            s,
            declared(pos, declarations, k) + 1,
            spell_declaration(declarations[k as int]),
        ) && declared(pos, declarations, k + 1) == declared(pos, declarations, k) + 1
            + spell_declaration(declarations[k as int]).len() && declared(
            pos,
            declarations,
            k + 1,
        ) <= declared(pos, declarations, n),
    decreases n - k,
{
    if k < n {
        let front = spell_declarations(declarations, (n - 1) as nat);
        let last = spell_declaration(declarations[n - 1]);
        assert(spell_declarations(declarations, n) =~= (front + seq![Symbol::Comma]) + last);
        lemma_split(s, pos, front + seq![Symbol::Comma], last);
        lemma_split(s, pos, front, seq![Symbol::Comma]);
        lemma_symbol_at(s, pos + front.len(), seq![Symbol::Comma], 0);
        if k < n - 1 {
            lemma_declarations_part(s, pos, declarations, k, (n - 1) as nat);
        }
    }
}

/// The grammar reads the declarations that follow the first `k` to their
/// end.
proof fn lemma_more_declarations(
    s: Seq<Symbol>,
    pos: int,
    declarations: Seq<Declaration>,
    k: nat,
    n: nat,
)
    requires
        1 <= k <= n <= declarations.len(),
        begins(s, pos, spell_declarations(declarations, n)),
        !stands(s, declared(pos, declarations, n), Symbol::Comma),
        !stands(s, declared(pos, declarations, n), Symbol::Open),
    ensures
        more_declarations(s, declared(pos, declarations, k)) == Ok::<int, ParseError>(
            declared(pos, declarations, n),
        ),
    decreases n - k,
{
    if k < n {
        lemma_declarations_part(s, pos, declarations, k, n);
        let at = declared(pos, declarations, k);
        let next = declared(pos, declarations, k + 1);
        if k + 1 < n {
            lemma_declarations_part(s, pos, declarations, k + 1, n);
        }
        lemma_declaration(s, at + 1, declarations[k as int]);
        lemma_more_declarations(s, pos, declarations, k + 1, n);
    }
}

/// The grammar reads one declaration or more to their end, where neither
/// a comma nor a bracket follows them.
pub proof fn lemma_declarations(s: Seq<Symbol>, pos: int, declarations: Seq<Declaration>)
    requires
        declarations.len() >= 1,
        begins(s, pos, spell_declarations(declarations, declarations.len())),
        !stands(s, declared(pos, declarations, declarations.len()), Symbol::Comma),
        !stands(s, declared(pos, declarations, declarations.len()), Symbol::Open),
    ensures
        end_declarations(s, pos) == Ok::<int, ParseError>(
            declared(pos, declarations, declarations.len()),
        ),
{
    let n = declarations.len();
    lemma_declarations_part(s, pos, declarations, 1, n);
    if 1 < n {
        lemma_declarations_part(s, pos, declarations, 2, n);
    }
    lemma_declaration(s, pos, declarations[0]);
    lemma_more_declarations(s, pos, declarations, 1, n);
}

/// The place behind the first `k` commands.
pub open spec fn commanded(pos: int, commands: Commands, k: nat) -> int {
    pos + spell_commands(commands, k).len()
}

/// Where the first `n` commands stand, the command behind the first `k`
/// stands behind them.
proof fn lemma_commands_part(s: Seq<Symbol>, pos: int, commands: Commands, k: nat, n: nat)
    requires
        k < n <= commands@.len(),
        begins(s, pos, spell_commands(commands, n)),
    ensures
        begins(s, commanded(pos, commands, k), spell_command(commands@[k as int])),
        commanded(pos, commands, k + 1) == commanded(pos, commands, k) + spell_command(
            commands@[k as int],
        ).len(),
        commanded(pos, commands, k + 1) <= commanded(pos, commands, n),
        pos <= commanded(pos, commands, k),
    decreases n - k,
{
    let front = spell_commands(commands, (n - 1) as nat);
    let last = spell_command(commands@[n - 1]);
    lemma_split(s, pos, front, last);
    if k < n - 1 {
        lemma_commands_part(s, pos, commands, k, (n - 1) as nat);
    }
}

/// What stands at `end` closes a list of commands: the end of the list of
/// symbols or one of the closing keywords; or, with a place, a `WHILE`
/// whose condition ends at that place in front of `ENDDO`.
pub open spec fn closed(s: Seq<Symbol>, end: int, pending: Option<int>) -> bool {
    match pending {
        None => end == s.len() || (0 <= end < s.len() && (s[end] matches Symbol::Word(w)
            && closes(w))),
        Some(condition) => stands(s, end, Symbol::Word(Word::While)) && end_condition(s, end + 1)
            == Ok::<int, ParseError>(condition) && stands(
            s,
            condition,
            Symbol::Word(Word::EndDo),
        ),
    }
}

/// What the grammar gives for a list of commands that is closed at `end`.
pub open spec fn closing(end: int, pending: Option<int>) -> (bool, int) {
    match pending {
        None => (false, end),
        Some(condition) => (true, condition),
    }
}

/// The grammar reads the command at `pos` to its end. A `WHILE` loop it
/// reads as part of a list of commands, all others by themselves.
pub open spec fn read(s: Seq<Symbol>, pos: int, command: Command) -> bool {
    &&& spell_command(command).len() >= 1
    &&& s[pos] is Name || (s[pos] matches Symbol::Word(w) && !closes(w))
    &&& !(command is While) ==> s[pos] != Symbol::Word(Word::While) && end_command(s, pos) == Ok::<
        int,
        ParseError,
    >(pos + spell_command(command).len())
    &&& command is While ==> s[pos] == Symbol::Word(Word::While) && (end_condition(s, pos + 1)
        matches Ok(condition) && !stands(s, condition, Symbol::Word(Word::EndDo)) && end_while(
        s,
        pos,
        condition,
    ) == Ok::<int, ParseError>(pos + spell_command(command).len()))
}

/// The grammar reads an `IF` with `ELSE` to its end.
proof fn lemma_if_else(s: Seq<Symbol>, pos: int, command: Command)
    requires
        begins(s, pos, spell_command(command)),
        command is IfElse,
    ensures
        read(s, pos, command),
    decreases command, 0nat,
{
    let whole = spell_command(command);
    match command {
        Command::IfElse { condition, positive, negative } => {
            let c = spell_condition(condition);
            let a = spell_commands(positive, positive@.len());
            let b = spell_commands(negative, negative@.len());
            let x1 = word(Word::If) + c;
            let x2 = x1 + word(Word::Then);
            let x3 = x2 + a;
            let x4 = x3 + word(Word::Else);
            let x5 = x4 + b;
            assert(whole == x5 + word(Word::EndIf));
            lemma_split(s, pos, x5, word(Word::EndIf));
            lemma_split(s, pos, x4, b);
            lemma_split(s, pos, x3, word(Word::Else));
            lemma_split(s, pos, x2, a);
            lemma_split(s, pos, x1, word(Word::Then));
            lemma_split(s, pos, word(Word::If), c);
            lemma_word_at(s, pos, Word::If);
            lemma_word_at(s, pos + x1.len(), Word::Then);
            lemma_word_at(s, pos + x3.len(), Word::Else);
            lemma_word_at(s, pos + x5.len(), Word::EndIf);
            lemma_condition(s, pos + 1, condition);
            lemma_commands(s, pos + x2.len(), positive, 0, None);
            lemma_commands(s, pos + x4.len(), negative, 0, None);
            assert(end_body(s, pos + x2.len()) == Ok::<int, ParseError>(pos + x3.len()));
            assert(end_body(s, pos + x4.len()) == Ok::<int, ParseError>(pos + x5.len()));
        },
        _ => {},
    }
}

/// The grammar reads an `IF` without `ELSE` to its end.
proof fn lemma_if(s: Seq<Symbol>, pos: int, command: Command)
    requires
        begins(s, pos, spell_command(command)),
        command is If,
    ensures
        read(s, pos, command),
    decreases command, 0nat,
{
    let whole = spell_command(command);
    match command {
        Command::If { condition, positive } => {
            let c = spell_condition(condition);
            let a = spell_commands(positive, positive@.len());
            let x1 = word(Word::If) + c;
            let x2 = x1 + word(Word::Then);
            let x3 = x2 + a;
            assert(whole == x3 + word(Word::EndIf));
            lemma_split(s, pos, x3, word(Word::EndIf));
            lemma_split(s, pos, x2, a);
            lemma_split(s, pos, x1, word(Word::Then));
            lemma_split(s, pos, word(Word::If), c);
            lemma_word_at(s, pos, Word::If);
            lemma_word_at(s, pos + x1.len(), Word::Then);
            lemma_word_at(s, pos + x3.len(), Word::EndIf);
            lemma_condition(s, pos + 1, condition);
            lemma_commands(s, pos + x2.len(), positive, 0, None);
            assert(end_body(s, pos + x2.len()) == Ok::<int, ParseError>(pos + x3.len()));
        },
        _ => {},
    }
}

/// The grammar reads a `WHILE` loop to its end.
proof fn lemma_while(s: Seq<Symbol>, pos: int, command: Command)
    requires
        begins(s, pos, spell_command(command)),
        command is While,
    ensures
        read(s, pos, command),
    decreases command, 0nat,
{
    let whole = spell_command(command);
    match command {
        Command::While { condition, commands } => {
            let c = spell_condition(condition);
            let a = spell_commands(commands, commands@.len());
            let x1 = word(Word::While) + c;
            let x2 = x1 + word(Word::Do);
            let x3 = x2 + a;
            assert(whole == x3 + word(Word::EndWhile));
            lemma_split(s, pos, x3, word(Word::EndWhile));
            lemma_split(s, pos, x2, a);
            lemma_split(s, pos, x1, word(Word::Do));
            lemma_split(s, pos, word(Word::While), c);
            lemma_word_at(s, pos, Word::While);
            lemma_word_at(s, pos + x1.len(), Word::Do);
            lemma_word_at(s, pos + x3.len(), Word::EndWhile);
            lemma_condition(s, pos + 1, condition);
            lemma_commands(s, pos + x2.len(), commands, 0, None);
            assert(end_body(s, pos + x2.len()) == Ok::<int, ParseError>(pos + x3.len()));
        },
        _ => {},
    }
}

/// The grammar reads a `DO` loop to its end.
proof fn lemma_do(s: Seq<Symbol>, pos: int, command: Command)
    requires
        begins(s, pos, spell_command(command)),
        command is Do,
    ensures
        read(s, pos, command),
    decreases command, 0nat,
{
    let whole = spell_command(command);
    match command {
        Command::Do { commands, condition } => {
            let c = spell_condition(condition);
            let a = spell_commands(commands, commands@.len());
            let x1 = word(Word::Do) + a;
            let x2 = x1 + word(Word::While);
            let x3 = x2 + c;
            assert(whole == x3 + word(Word::EndDo));
            lemma_split(s, pos, x3, word(Word::EndDo));
            lemma_split(s, pos, x2, c);
            lemma_split(s, pos, x1, word(Word::While));
            lemma_split(s, pos, word(Word::Do), a);
            lemma_word_at(s, pos, Word::Do);
            lemma_word_at(s, pos + x1.len(), Word::While);
            lemma_word_at(s, pos + x3.len(), Word::EndDo);
            lemma_condition(s, pos + x2.len(), condition);
            lemma_commands(s, pos + 1, commands, 0, Some(pos + x3.len()));
        },
        _ => {},
    }
}

/// The grammar reads a `FOR` loop to its end.
proof fn lemma_for(s: Seq<Symbol>, pos: int, command: Command)
    requires
        begins(s, pos, spell_command(command)),
        command is For,
    ensures
        read(s, pos, command),
    decreases command, 0nat,
{
    let whole = spell_command(command);
    match command {
        Command::For { counter, ascending, from, to, commands } => {
            let head = seq![
                Symbol::Word(Word::For),
                Symbol::Name(counter@),
                Symbol::Word(Word::From),
            ];
            let direction = if ascending {
                Word::To
            } else {
                Word::DownTo
            };
            let f = spell_value(from);
            let t = spell_value(to);
            let a = spell_commands(commands, commands@.len());
            let x1 = head + f;
            let x2 = x1 + word(direction);
            let x3 = x2 + t;
            let x4 = x3 + word(Word::Do);
            let x5 = x4 + a;
            assert(whole == x5 + word(Word::EndFor));
            lemma_split(s, pos, x5, word(Word::EndFor));
            lemma_split(s, pos, x4, a);
            lemma_split(s, pos, x3, word(Word::Do));
            lemma_split(s, pos, x2, t);
            lemma_split(s, pos, x1, word(direction));
            lemma_split(s, pos, head, f);
            lemma_symbol_at(s, pos, head, 0);
            lemma_symbol_at(s, pos, head, 1);
            lemma_symbol_at(s, pos, head, 2);
            lemma_word_at(s, pos + x1.len(), direction);
            lemma_word_at(s, pos + x3.len(), Word::Do);
            lemma_word_at(s, pos + x5.len(), Word::EndFor);
            lemma_value(s, pos + 3, from);
            lemma_value(s, pos + x2.len(), to);
            lemma_commands(s, pos + x4.len(), commands, 0, None);
            assert(end_body(s, pos + x4.len()) == Ok::<int, ParseError>(pos + x5.len()));
        },
        _ => {},
    }
}

/// The grammar reads a `READ` to its end.
proof fn lemma_read(s: Seq<Symbol>, pos: int, command: Command)
    requires
        begins(s, pos, spell_command(command)),
        command is Read,
    ensures
        read(s, pos, command),
    decreases command, 0nat,
{
    let whole = spell_command(command);
    match command {
        Command::Read { target } => {
            let i = spell_identifier(target);
            assert(whole =~= (word(Word::Read) + i) + seq![Symbol::Semicolon]);
            lemma_split(s, pos, word(Word::Read) + i, seq![Symbol::Semicolon]);
            lemma_split(s, pos, word(Word::Read), i);
            lemma_word_at(s, pos, Word::Read);
            lemma_symbol_at(s, pos + 1 + i.len(), seq![Symbol::Semicolon], 0);
            lemma_identifier(s, pos + 1, target);
        },
        _ => {},
    }
}

/// The grammar reads a `WRITE` to its end.
proof fn lemma_write(s: Seq<Symbol>, pos: int, command: Command)
    requires
        begins(s, pos, spell_command(command)),
        command is Write,
    ensures
        read(s, pos, command),
    decreases command, 0nat,
{
    let whole = spell_command(command);
    match command {
        Command::Write { value } => {
            let v = spell_value(value);
            assert(whole =~= (word(Word::Write) + v) + seq![Symbol::Semicolon]);
            lemma_split(s, pos, word(Word::Write) + v, seq![Symbol::Semicolon]);
            lemma_split(s, pos, word(Word::Write), v);
            lemma_word_at(s, pos, Word::Write);
            lemma_symbol_at(s, pos + 1 + v.len(), seq![Symbol::Semicolon], 0);
            lemma_value(s, pos + 1, value);
        },
        _ => {},
    }
}

/// The grammar reads an assignment to its end.
proof fn lemma_assign(s: Seq<Symbol>, pos: int, command: Command)
    requires
        begins(s, pos, spell_command(command)),
        command is Assign,
    ensures
        read(s, pos, command),
    decreases command, 0nat,
{
    let whole = spell_command(command);
    match command {
        Command::Assign { target, expr } => {
            let i = spell_identifier(target);
            let e = spell_expression(expr);
            let x1 = i + word(Word::Assign);
            assert(whole =~= (x1 + e) + seq![Symbol::Semicolon]);
            lemma_split(s, pos, x1 + e, seq![Symbol::Semicolon]);
            lemma_split(s, pos, x1, e);
            lemma_split(s, pos, i, word(Word::Assign));
            lemma_word_at(s, pos + i.len(), Word::Assign);
            lemma_symbol_at(s, pos + x1.len() + e.len(), seq![Symbol::Semicolon], 0);
            lemma_identifier(s, pos, target);
            lemma_expression(s, pos + x1.len(), expr);
        },
        _ => {},
    }
}

/// The grammar reads a command to its end.
pub proof fn lemma_command(s: Seq<Symbol>, pos: int, command: Command)
    requires
        begins(s, pos, spell_command(command)),
    ensures
        read(s, pos, command),
    decreases command, 1nat,
{
    match command {
        Command::IfElse { .. } => lemma_if_else(s, pos, command),
        Command::If { .. } => lemma_if(s, pos, command),
        Command::While { .. } => lemma_while(s, pos, command),
        Command::Do { .. } => lemma_do(s, pos, command),
        Command::For { .. } => lemma_for(s, pos, command),
        Command::Read { .. } => lemma_read(s, pos, command),
        Command::Write { .. } => lemma_write(s, pos, command),
        Command::Assign { .. } => lemma_assign(s, pos, command),
    }
}

/// The grammar reads a list of commands from behind its first `k`
/// commands to its end, where the list is closed there.
pub proof fn lemma_commands(
    s: Seq<Symbol>,
    pos: int,
    commands: Commands,
    k: nat,
    pending: Option<int>,
)
    requires
        0 <= pos,
        k <= commands@.len(),
        begins(s, pos, spell_commands(commands, commands@.len())),
        closed(s, commanded(pos, commands, commands@.len()), pending),
    ensures
        end_commands(s, commanded(pos, commands, k)) == Ok::<(bool, int), ParseError>(
            closing(commanded(pos, commands, commands@.len()), pending),
        ),
    decreases commands, commands@.len() - k,
{
    let n = commands@.len();
    let at = commanded(pos, commands, k);
    if k < n {
        lemma_commands_part(s, pos, commands, k, n);
        let command = commands@[k as int];
        lemma_command(s, at, command);
        lemma_commands(s, pos, commands, k + 1, pending);
        let next = commanded(pos, commands, k + 1);
        if command is While {
            let condition = end_condition(s, at + 1)->Ok_0;
            assert(beyond(end_while(s, at, condition), at, s) == Ok::<int, ParseError>(next));
        } else {
            assert(beyond(end_command(s, at), at, s) == Ok::<int, ParseError>(next));
        }
    }
}

/// A program that has, where it has declarations, one at least.
pub open spec fn proper(program: Program) -> bool {
    match program.declarations {
        Some(declarations) => declarations@.len() >= 1,
        None => true,
    }
}

/// The grammar accepts the spelling of every program.
pub proof fn lemma_program(program: Program)
    requires
        proper(program),
    ensures
        end_program(spell_program(program)) == Ok::<int, ParseError>(
            spell_program(program).len() as int,
        ),
{
    let s = spell_program(program);
    let a = spell_commands(program.commands, program.commands@.len());
    match program.declarations {
        Some(declarations) => {
            let d = spell_declarations(declarations@, declarations@.len());
            let x1 = word(Word::Declare) + d;
            let x2 = x1 + word(Word::Begin);
            let x3 = x2 + a;
            assert(s == x3 + word(Word::End));
            assert(s.subrange(0, s.len() as int) =~= s);
            lemma_split(s, 0, x3, word(Word::End));
            lemma_split(s, 0, x2, a);
            lemma_split(s, 0, x1, word(Word::Begin));
            lemma_split(s, 0, word(Word::Declare), d);
            lemma_word_at(s, 0, Word::Declare);
            lemma_word_at(s, x1.len() as int, Word::Begin);
            lemma_word_at(s, x3.len() as int, Word::End);
            lemma_declarations(s, 1, declarations@);
            lemma_commands(s, x2.len() as int, program.commands, 0, None);
            assert(end_body(s, x2.len() as int) == Ok::<int, ParseError>(x3.len() as int));
        },
        None => {
            let x2 = word(Word::Begin);
            let x3 = x2 + a;
            assert(s == x3 + word(Word::End));
            assert(s.subrange(0, s.len() as int) =~= s);
            lemma_split(s, 0, x3, word(Word::End));
            lemma_split(s, 0, x2, a);
            lemma_word_at(s, 0, Word::Begin);
            lemma_word_at(s, x3.len() as int, Word::End);
            lemma_commands(s, 1, program.commands, 0, None);
            assert(end_body(s, 1) == Ok::<int, ParseError>(x3.len() as int));
        },
    }
}

/// A list of symbols that the grammar does not accept spells no program.
pub proof fn lemma_rejected(s: Seq<Symbol>)
    ensures
        end_program(s) is Err ==> forall|program: Program|
            proper(program) ==> #[trigger] spell_program(program) != s,
{
    if end_program(s) is Err {
        assert forall|program: Program| proper(program) implies #[trigger] spell_program(program)
            != s by {
            lemma_program(program);
        }
    }
}

} // verus!
