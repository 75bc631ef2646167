//! Which lists of symbols are programs, and where the others go wrong.
//!
//! Each function reads one construct from a place of the list on and gives
//! the place behind it, or the error of the first symbol that cannot stand
//! where it stands. The parser gives exactly these results.

use crate::parser::lexer::{Symbol, Word};
use crate::parser::{Mark, ParseError};
use vstd::prelude::*;

verus! {

/// The error for the symbol at `pos`.
pub open spec fn unexpected(pos: int) -> ParseError {
    ParseError::UnexpectedToken { position: pos as usize }
}

/// Behind the keyword `wanted` at `pos`.
pub open spec fn want_word(s: Seq<Symbol>, pos: int, wanted: Word) -> Result<int, ParseError> {
    if pos >= s.len() {
        Err(ParseError::UnexpectedEnd)
    } else if s[pos] == Symbol::Word(wanted) {
        Ok(pos + 1)
    } else {
        Err(unexpected(pos))
    }
}

/// Behind the mark `wanted` at `pos`.
pub open spec fn want_mark(s: Seq<Symbol>, pos: int, wanted: Mark) -> Result<int, ParseError> {
    if pos >= s.len() {
        Err(ParseError::UnexpectedEnd)
    } else if s[pos] == wanted.symbol() {
        Ok(pos + 1)
    } else {
        Err(unexpected(pos))
    }
}

/// Behind the name at `pos`.
pub open spec fn want_name(s: Seq<Symbol>, pos: int) -> Result<int, ParseError> {
    if pos >= s.len() {
        Err(ParseError::UnexpectedEnd)
    } else if s[pos] is Name {
        Ok(pos + 1)
    } else {
        Err(unexpected(pos))
    }
}

/// Behind the number at `pos`.
pub open spec fn want_number(s: Seq<Symbol>, pos: int) -> Result<int, ParseError> {
    if pos >= s.len() {
        Err(ParseError::UnexpectedEnd)
    } else if s[pos] is Number {
        Ok(pos + 1)
    } else {
        Err(unexpected(pos))
    }
}

/// The symbol at `pos` is `symbol`.
pub open spec fn stands(s: Seq<Symbol>, pos: int, symbol: Symbol) -> bool {
    0 <= pos < s.len() && s[pos] == symbol
}

/// The symbol is one of the six relations.
pub open spec fn is_relation(symbol: Symbol) -> bool {
    symbol == Symbol::Word(Word::Eq) || symbol == Symbol::Word(Word::Neq) || symbol
        == Symbol::Word(Word::Leq) || symbol == Symbol::Word(Word::Le) || symbol == Symbol::Word(
        Word::Geq,
    ) || symbol == Symbol::Word(Word::Ge)
}

/// The symbol is one of the five operators.
pub open spec fn is_operator(symbol: Symbol) -> bool {
    symbol == Symbol::Word(Word::Plus) || symbol == Symbol::Word(Word::Minus) || symbol
        == Symbol::Word(Word::Times) || symbol == Symbol::Word(Word::Div) || symbol
        == Symbol::Word(Word::Mod)
}

/// The keyword ends a list of commands.
pub open spec fn closes(word: Word) -> bool {
    word == Word::End || word == Word::Else || word == Word::EndIf || word == Word::EndWhile
        || word == Word::EndFor || word == Word::EndDo
}

/// Behind the identifier at `pos`: a name, and where a bracket follows it,
/// a name or a number and the closing bracket.
pub open spec fn end_identifier(s: Seq<Symbol>, pos: int) -> Result<int, ParseError> {
    match want_name(s, pos) {
        Err(e) => Err(e),
        Ok(after) => if stands(s, after, Symbol::Open) {
            let inside = after + 1;
            if inside >= s.len() {
                Err(ParseError::UnexpectedEnd)
            } else if s[inside] is Name || s[inside] is Number {
                want_mark(s, inside + 1, Mark::Close)
            } else {
                Err(unexpected(inside))
            }
        } else {
            Ok(after)
        },
    }
}

/// Behind the value at `pos`: a number or an identifier.
pub open spec fn end_value(s: Seq<Symbol>, pos: int) -> Result<int, ParseError> {
    if pos >= s.len() {
        Err(ParseError::UnexpectedEnd)
    } else if s[pos] is Number {
        Ok(pos + 1)
    } else {
        end_identifier(s, pos)
    }
}

/// Behind the condition at `pos`: a value, a relation, a value.
pub open spec fn end_condition(s: Seq<Symbol>, pos: int) -> Result<int, ParseError> {
    match end_value(s, pos) {
        Err(e) => Err(e),
        Ok(after) => if 0 <= after < s.len() && is_relation(s[after]) {
            end_value(s, after + 1)
        } else {
            Err(unexpected(after))
        },
    }
}

/// Behind the expression at `pos`: a value, and where an operator follows
/// it, one more value.
pub open spec fn end_expression(s: Seq<Symbol>, pos: int) -> Result<int, ParseError> {
    match end_value(s, pos) {
        Err(e) => Err(e),
        Ok(after) => if 0 <= after < s.len() && is_operator(s[after]) {
            end_value(s, after + 1)
        } else {
            Ok(after)
        },
    }
}

/// Behind the declaration at `pos`: a name, and where a bracket follows
/// it, two numbers with a colon between them and the closing bracket.
pub open spec fn end_declaration(s: Seq<Symbol>, pos: int) -> Result<int, ParseError> {
    match want_name(s, pos) {
        Err(e) => Err(e),
        Ok(after) => if stands(s, after, Symbol::Open) {
            match want_number(s, after + 1) {
                Err(e) => Err(e),
                Ok(colon) => match want_mark(s, colon, Mark::Colon) {
                    Err(e) => Err(e),
                    Ok(high) => match want_number(s, high) {
                        Err(e) => Err(e),
                        Ok(close) => want_mark(s, close, Mark::Close),
                    },
                },
            }
        } else {
            Ok(after)
        },
    }
}

/// Behind the declarations that follow the one that ends at `at`: each
/// comes after a comma.
pub open spec fn more_declarations(s: Seq<Symbol>, at: int) -> Result<int, ParseError>
    decreases s.len() - at,
{
    if stands(s, at, Symbol::Comma) {
        match end_declaration(s, at + 1) {
            Err(e) => Err(e),
            Ok(next) => if next > at {
                more_declarations(s, next)
            } else {
                Err(ParseError::UnexpectedEnd)
            },
        }
    } else {
        Ok(at)
    }
}

/// Behind the declarations at `pos`: one or more, with commas between
/// them.
pub open spec fn end_declarations(s: Seq<Symbol>, pos: int) -> Result<int, ParseError> {
    match end_declaration(s, pos) {
        Err(e) => Err(e),
        Ok(next) => more_declarations(s, next),
    }
}

/// The result, where it lies behind `pos` and in the list.
pub open spec fn beyond(r: Result<int, ParseError>, pos: int, s: Seq<Symbol>) -> Result<
    int,
    ParseError,
> {
    match r {
        Ok(next) => if pos < next <= s.len() {
            Ok(next)
        } else {
            Err(ParseError::UnexpectedEnd)
        },
        Err(e) => Err(e),
    }
}

/// Behind a list of commands that no `WHILE` with its condition in front
/// of `ENDDO` may end.
pub open spec fn end_body(s: Seq<Symbol>, pos: int) -> Result<int, ParseError>
    decreases s.len() - pos, 2nat,
{
    if pos > s.len() {
        Err(ParseError::UnexpectedEnd)
    } else {
        match end_commands(s, pos) {
            Err(e) => Err(e),
            Ok((pending, next)) => if pending {
                Err(unexpected(next))
            } else {
                Ok(next)
            },
        }
    }
}

/// Behind the command at `pos`, which is no `WHILE` loop.
pub open spec fn end_command(s: Seq<Symbol>, pos: int) -> Result<int, ParseError>
    decreases s.len() - pos, 0nat,
{
    if pos < 0 || pos >= s.len() {
        Err(ParseError::UnexpectedEnd)
    } else {
        match s[pos] {
            Symbol::Word(Word::If) => match beyond(end_condition(s, pos + 1), pos, s) {
                Err(e) => Err(e),
                Ok(then) => match beyond(want_word(s, then, Word::Then), pos, s) {
                    Err(e) => Err(e),
                    Ok(positive) => match end_body(s, positive) {
                        Err(e) => Err(e),
                        Ok(next) => if stands(s, next, Symbol::Word(Word::Else)) {
                            if next + 1 > pos {
                                match end_body(s, next + 1) {
                                    Err(e) => Err(e),
                                    Ok(last) => want_word(s, last, Word::EndIf),
                                }
                            } else {
                                Err(ParseError::UnexpectedEnd)
                            }
                        } else {
                            want_word(s, next, Word::EndIf)
                        },
                    },
                },
            },
            Symbol::Word(Word::Do) => match end_commands(s, pos + 1) {
                Err(e) => Err(e),
                Ok((pending, next)) => if pending {
                    want_word(s, next, Word::EndDo)
                } else {
                    Err(unexpected(next))
                },
            },
            Symbol::Word(Word::For) => match want_name(s, pos + 1) {
                Err(e) => Err(e),
                Ok(from) => match want_word(s, from, Word::From) {
                    Err(e) => Err(e),
                    Ok(first) => match end_value(s, first) {
                        Err(e) => Err(e),
                        Ok(to) => if stands(s, to, Symbol::Word(Word::To)) || stands(
                            s,
                            to,
                            Symbol::Word(Word::DownTo),
                        ) {
                            match end_value(s, to + 1) {
                                Err(e) => Err(e),
                                Ok(d) => match beyond(want_word(s, d, Word::Do), pos, s) {
                                    Err(e) => Err(e),
                                    Ok(body) => match end_body(s, body) {
                                        Err(e) => Err(e),
                                        Ok(last) => want_word(s, last, Word::EndFor),
                                    },
                                },
                            }
                        } else {
                            Err(unexpected(to))
                        },
                    },
                },
            },
            Symbol::Word(Word::Read) => match end_identifier(s, pos + 1) {
                Err(e) => Err(e),
                Ok(next) => want_mark(s, next, Mark::Semicolon),
            },
            Symbol::Word(Word::Write) => match end_value(s, pos + 1) {
                Err(e) => Err(e),
                Ok(next) => want_mark(s, next, Mark::Semicolon),
            },
            Symbol::Word(_) => Err(unexpected(pos)),
            _ => match end_identifier(s, pos) {
                Err(e) => Err(e),
                Ok(assign) => match want_word(s, assign, Word::Assign) {
                    Err(e) => Err(e),
                    Ok(expression) => match end_expression(s, expression) {
                        Err(e) => Err(e),
                        Ok(next) => want_mark(s, next, Mark::Semicolon),
                    },
                },
            },
        }
    }
}

/// Behind the `WHILE` loop at `pos`, where `condition` is the place behind
/// its condition.
pub open spec fn end_while(s: Seq<Symbol>, pos: int, condition: int) -> Result<int, ParseError>
    decreases s.len() - pos, 0nat,
{
    if pos < 0 || pos >= s.len() {
        Err(ParseError::UnexpectedEnd)
    } else {
        match beyond(want_word(s, condition, Word::Do), pos, s) {
            Err(e) => Err(e),
            Ok(body) => match end_body(s, body) {
                Err(e) => Err(e),
                Ok(last) => want_word(s, last, Word::EndWhile),
            },
        }
    }
}

/// The place where the commands from `pos` on end: at the end of the list,
/// at one of the keywords that close a list of commands, or, with `true`,
/// behind a `WHILE` and its condition that stand in front of `ENDDO`.
pub open spec fn end_commands(s: Seq<Symbol>, pos: int) -> Result<(bool, int), ParseError>
    decreases s.len() - pos, 1nat,
{
    if pos < 0 || pos > s.len() {
        Err(ParseError::UnexpectedEnd)
    } else if pos == s.len() {
        Ok((false, pos))
    } else {
        match s[pos] {
            Symbol::Word(word) => if closes(word) {
                Ok((false, pos))
            } else if word == Word::While {
                match end_condition(s, pos + 1) {
                    Err(e) => Err(e),
                    Ok(condition) => if stands(s, condition, Symbol::Word(Word::EndDo)) {
                        Ok((true, condition))
                    } else {
                        match beyond(end_while(s, pos, condition), pos, s) {
                            Err(e) => Err(e),
                            Ok(next) => end_commands(s, next),
                        }
                    },
                }
            } else {
                match beyond(end_command(s, pos), pos, s) {
                    Err(e) => Err(e),
                    Ok(next) => end_commands(s, next),
                }
            },
            _ => match beyond(end_command(s, pos), pos, s) {
                Err(e) => Err(e),
                Ok(next) => end_commands(s, next),
            },
        }
    }
}

/// Behind the program: `DECLARE` and declarations, where the list starts
/// with them, then `BEGIN`, commands and `END`, and nothing more.
pub open spec fn end_program(s: Seq<Symbol>) -> Result<int, ParseError> {
    let begin = if stands(s, 0, Symbol::Word(Word::Declare)) {
        end_declarations(s, 1)
    } else {
        Ok(0int)
    };
    match begin {
        Err(e) => Err(e),
        Ok(begin) => match want_word(s, begin, Word::Begin) {
            Err(e) => Err(e),
            Ok(commands) => match end_body(s, commands) {
                Err(e) => Err(e),
                Ok(end) => match want_word(s, end, Word::End) {
                    Err(e) => Err(e),
                    Ok(last) => if last == s.len() {
                        Ok(last)
                    } else {
                        Err(unexpected(last))
                    },
                },
            },
        },
    }
}

} // verus!
