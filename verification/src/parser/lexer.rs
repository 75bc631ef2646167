//! The tokens of the source language.
//!
//! Keywords are written in capitals, names in small letters and underscores,
//! numbers in decimal with an optional `-` in front. White space separates
//! tokens, and what stands between `[` and `]` is a comment.

use crate::text::{ascii_string, chars_of};
use vstd::prelude::*;

verus! {

/// The keywords.
#[derive(Debug, Clone, Copy, PartialEq, Eq, Structural)]
pub enum Word {
    Declare,
    Begin,
    End,
    If,
    Then,
    Else,
    EndIf,
    While,
    Do,
    EndWhile,
    EndDo,
    For,
    From,
    To,
    DownTo,
    EndFor,
    Read,
    Write,
    Assign,
    Plus,
    Minus,
    Times,
    Div,
    Mod,
    Eq,
    Neq,
    Le,
    Ge,
    Leq,
    Geq,
}

/// A token, as plain values.
pub enum Symbol {
    Word(Word),
    Name(Seq<char>),
    Number(i64),
    Comma,
    Semicolon,
    Open,
    Close,
    Colon,
}

/// A token.
#[derive(Debug, Clone, PartialEq, Eq)]
pub enum Token {
    Word(Word),
    Name(String),
    Number(i64),
    Comma,
    Semicolon,
    Open,
    Close,
    Colon,
}

impl View for Token {
    type V = Symbol;

    open spec fn view(&self) -> Symbol {
        match self {
            Token::Word(word) => Symbol::Word(*word),
            Token::Name(name) => Symbol::Name(name@),
            Token::Number(number) => Symbol::Number(*number),
            Token::Comma => Symbol::Comma,
            Token::Semicolon => Symbol::Semicolon,
            Token::Open => Symbol::Open,
            Token::Close => Symbol::Close,
            Token::Colon => Symbol::Colon,
        }
    }
}

/// The symbols of a list of tokens.
pub open spec fn symbols(tokens: Seq<Token>) -> Seq<Symbol> {
    tokens.map_values(|token: Token| token@)
}

pub open spec fn is_space(b: u8) -> bool {
    b == 32 || b == 9 || b == 10 || b == 13
}

pub open spec fn is_upper(b: u8) -> bool {
    65 <= b <= 90
}

pub open spec fn is_lower(b: u8) -> bool {
    97 <= b <= 122 || b == 95
}

pub open spec fn is_digit(b: u8) -> bool {
    48 <= b <= 57
}

/// The kinds of characters that tokens are made of.
#[derive(Debug, Clone, Copy, PartialEq, Eq, Structural)]
pub enum Class {
    Upper,
    Lower,
    Digit,
    /// Space, tab and carriage return.
    Blank,
}

impl Class {
    pub open spec fn holds(self, b: u8) -> bool {
        match self {
            Class::Upper => is_upper(b),
            Class::Lower => is_lower(b),
            Class::Digit => is_digit(b),
            Class::Blank => b == 32 || b == 9 || b == 13,
        }
    }

    pub fn has(self, b: u8) -> (r: bool)
        ensures
            r == self.holds(b),
    {
        match self {
            Class::Upper => 65 <= b && b <= 90,
            Class::Lower => (97 <= b && b <= 122) || b == 95,
            Class::Digit => 48 <= b && b <= 57,
            Class::Blank => b == 32 || b == 9 || b == 13,
        }
    }
}

/// Where the characters of `class` that start at `pos` end.
pub open spec fn run_end(bytes: Seq<u8>, pos: int, class: Class) -> int
    decreases bytes.len() - pos,
{
    if 0 <= pos < bytes.len() && class.holds(bytes[pos]) {
        run_end(bytes, pos + 1, class)
    } else {
        pos
    }
}

/// Where the comment that holds `pos` ends: behind the next `]`.
pub open spec fn comment_end(bytes: Seq<u8>, pos: int) -> Option<int>
    decreases bytes.len() - pos,
{
    if pos < 0 || pos >= bytes.len() {
        None
    } else if bytes[pos] == 93 {
        Some(pos + 1)
    } else {
        comment_end(bytes, pos + 1)
    }
}

/// The number that decimal digits stand for.
pub open spec fn digits_value(digits: Seq<u8>) -> nat
    decreases digits.len(),
{
    if digits.len() == 0 {
        0
    } else {
        digits_value(digits.drop_last()) * 10 + (digits.last() - 48) as nat
    }
}

/// The keyword that is spelled `text`.
pub open spec fn keyword_of(text: Seq<char>) -> Option<Word> {
    if text == "DECLARE"@ {
        Some(Word::Declare)
    } else if text == "BEGIN"@ {
        Some(Word::Begin)
    } else if text == "END"@ {
        Some(Word::End)
    } else if text == "IF"@ {
        Some(Word::If)
    } else if text == "THEN"@ {
        Some(Word::Then)
    } else if text == "ELSE"@ {
        Some(Word::Else)
    } else if text == "ENDIF"@ {
        Some(Word::EndIf)
    } else if text == "WHILE"@ {
        Some(Word::While)
    } else if text == "DO"@ {
        Some(Word::Do)
    } else if text == "ENDWHILE"@ {
        Some(Word::EndWhile)
    } else if text == "ENDDO"@ {
        Some(Word::EndDo)
    } else if text == "FOR"@ {
        Some(Word::For)
    } else if text == "FROM"@ {
        Some(Word::From)
    } else if text == "TO"@ {
        Some(Word::To)
    } else if text == "DOWNTO"@ {
        Some(Word::DownTo)
    } else if text == "ENDFOR"@ {
        Some(Word::EndFor)
    } else if text == "READ"@ {
        Some(Word::Read)
    } else if text == "WRITE"@ {
        Some(Word::Write)
    } else if text == "ASSIGN"@ {
        Some(Word::Assign)
    } else if text == "PLUS"@ {
        Some(Word::Plus)
    } else if text == "MINUS"@ {
        Some(Word::Minus)
    } else if text == "TIMES"@ {
        Some(Word::Times)
    } else if text == "DIV"@ {
        Some(Word::Div)
    } else if text == "MOD"@ {
        Some(Word::Mod)
    } else if text == "EQ"@ {
        Some(Word::Eq)
    } else if text == "NEQ"@ {
        Some(Word::Neq)
    } else if text == "LE"@ {
        Some(Word::Le)
    } else if text == "GE"@ {
        Some(Word::Ge)
    } else if text == "LEQ"@ {
        Some(Word::Leq)
    } else if text == "GEQ"@ {
        Some(Word::Geq)
    } else {
        None
    }
}

/// The symbol of a punctuation mark.
pub open spec fn punctuation(b: u8) -> Option<Symbol> {
    if b == 44 {
        Some(Symbol::Comma)
    } else if b == 59 {
        Some(Symbol::Semicolon)
    } else if b == 40 {
        Some(Symbol::Open)
    } else if b == 41 {
        Some(Symbol::Close)
    } else if b == 58 {
        Some(Symbol::Colon)
    } else {
        None
    }
}

/// Whether a number starts at `pos`: a digit, or `-` and a digit.
pub open spec fn number_starts(bytes: Seq<u8>, pos: int) -> bool {
    0 <= pos < bytes.len() && (is_digit(bytes[pos]) || (bytes[pos] == 45 && pos + 1 < bytes.len()
        && is_digit(bytes[pos + 1])))
}

/// The number that starts at `pos`, with the place where it ends; none
/// where no `i64` can hold it.
pub open spec fn number_at(bytes: Seq<u8>, pos: int) -> Option<(i64, int)> {
    let negative = bytes[pos] == 45;
    let start = if negative {
        pos + 1
    } else {
        pos
    };
    let end = run_end(bytes, start, Class::Digit);
    let magnitude = digits_value(bytes.subrange(start, end));
    let value = if negative {
        -magnitude
    } else {
        magnitude as int
    };
    if i64::MIN <= value <= i64::MAX {
        Some((value as i64, end))
    } else {
        None
    }
}

/// The symbols of the text from `pos` on, behind those found before; none
/// where the text holds a character that starts no token, a word in
/// capitals that is no keyword, a number that no `i64` can hold, or a
/// comment that does not end.
pub open spec fn lex_from(bytes: Seq<u8>, pos: int, found: Seq<Symbol>) -> Option<Seq<Symbol>>
    decreases bytes.len() - pos,
{
    if pos < 0 || pos >= bytes.len() {
        Some(found)
    } else if is_space(bytes[pos]) {
        lex_from(bytes, pos + 1, found)
    } else if bytes[pos] == 91 {
        match comment_end(bytes, pos + 1) {
            Some(end) => if pos < end <= bytes.len() {
                lex_from(bytes, end, found)
            } else {
                None
            },
            None => None,
        }
    } else if punctuation(bytes[pos]) is Some {
        lex_from(bytes, pos + 1, found.push(punctuation(bytes[pos]).unwrap()))
    } else if is_upper(bytes[pos]) {
        let end = run_end(bytes, pos, Class::Upper);
        match keyword_of(chars_of(bytes.subrange(pos, end))) {
            Some(word) => if pos < end <= bytes.len() {
                lex_from(bytes, end, found.push(Symbol::Word(word)))
            } else {
                None
            },
            None => None,
        }
    } else if is_lower(bytes[pos]) {
        let end = run_end(bytes, pos, Class::Lower);
        if pos < end <= bytes.len() {
            lex_from(bytes, end, found.push(Symbol::Name(chars_of(bytes.subrange(pos, end)))))
        } else {
            None
        }
    } else if number_starts(bytes, pos) {
        match number_at(bytes, pos) {
            Some((value, end)) => if pos < end <= bytes.len() {
                lex_from(bytes, end, found.push(Symbol::Number(value)))
            } else {
                None
            },
            None => None,
        }
    } else {
        None
    }
}

/// The symbols of a text.
pub open spec fn lex(bytes: Seq<u8>) -> Option<Seq<Symbol>> {
    lex_from(bytes, 0, Seq::empty())
}

pub proof fn lemma_run_end(bytes: Seq<u8>, pos: int, class: Class)
    requires
        0 <= pos <= bytes.len(),
    ensures
        pos <= run_end(bytes, pos, class) <= bytes.len(),
        forall|i: int| pos <= i < run_end(bytes, pos, class) ==> class.holds(#[trigger] bytes[i]),
        run_end(bytes, pos, class) < bytes.len() ==> !class.holds(
            bytes[run_end(bytes, pos, class)],
        ),
    decreases bytes.len() - pos,
{
    if pos < bytes.len() && class.holds(bytes[pos]) {
        lemma_run_end(bytes, pos + 1, class);
    }
}

/// Where a run ends, found from any place inside it.
pub proof fn lemma_run_end_from(bytes: Seq<u8>, pos: int, at: int, class: Class)
    requires
        0 <= pos <= at <= bytes.len(),
        forall|i: int| pos <= i < at ==> class.holds(#[trigger] bytes[i]),
    ensures
        run_end(bytes, pos, class) == run_end(bytes, at, class),
    decreases at - pos,
{
    if pos < at {
        lemma_run_end_from(bytes, pos + 1, at, class);
    }
}

/// Where a comment ends, found from any place inside it.
pub proof fn lemma_comment_end_from(bytes: Seq<u8>, pos: int, at: int)
    requires
        0 <= pos <= at <= bytes.len(),
        forall|i: int| pos <= i < at ==> #[trigger] bytes[i] != 93,
    ensures
        comment_end(bytes, pos) == comment_end(bytes, at),
    decreases at - pos,
{
    if pos < at {
        lemma_comment_end_from(bytes, pos + 1, at);
    }
}

/// What went wrong in a text.
#[derive(Debug, Clone, Copy, PartialEq, Eq, Structural)]
pub enum LexError {
    /// A character that starts no token, at this place.
    UnexpectedCharacter { position: usize },
    /// A word in capitals that is no keyword.
    UnknownKeyword { position: usize },
    /// A number that no `i64` can hold.
    NumberOutOfRange { position: usize },
    /// A comment that does not end.
    UnterminatedComment { position: usize },
}

/// Where the characters of `class` that start at `pos` end.
pub fn scan_run(bytes: &[u8], pos: usize, class: Class) -> (end: usize)
    requires
        pos <= bytes@.len(),
    ensures
        end == run_end(bytes@, pos as int, class),
        pos <= end <= bytes@.len(),
{
    let mut at = pos;
    proof {
        lemma_run_end(bytes@, pos as int, class);
    }
    while at < bytes.len() && class.has(bytes[at])
        invariant
            pos <= at <= bytes@.len(),
            forall|i: int| pos <= i < at ==> class.holds(#[trigger] bytes@[i]),
        decreases bytes@.len() - at,
    {
        at += 1;
    }
    proof {
        lemma_run_end_from(bytes@, pos as int, at as int, class);
    }
    at
}

/// The keyword that is spelled `text`.
pub fn keyword(text: &String) -> (r: Option<Word>)
    ensures
        r == keyword_of(text@),
{
    if text.eq(&"DECLARE".to_owned()) {
        Some(Word::Declare)
    } else if text.eq(&"BEGIN".to_owned()) {
        Some(Word::Begin)
    } else if text.eq(&"END".to_owned()) {
        Some(Word::End)
    } else if text.eq(&"IF".to_owned()) {
        Some(Word::If)
    } else if text.eq(&"THEN".to_owned()) {
        Some(Word::Then)
    } else if text.eq(&"ELSE".to_owned()) {
        Some(Word::Else)
    } else if text.eq(&"ENDIF".to_owned()) {
        Some(Word::EndIf)
    } else if text.eq(&"WHILE".to_owned()) {
        Some(Word::While)
    } else if text.eq(&"DO".to_owned()) {
        Some(Word::Do)
    } else if text.eq(&"ENDWHILE".to_owned()) {
        Some(Word::EndWhile)
    } else if text.eq(&"ENDDO".to_owned()) {
        Some(Word::EndDo)
    } else if text.eq(&"FOR".to_owned()) {
        Some(Word::For)
    } else if text.eq(&"FROM".to_owned()) {
        Some(Word::From)
    } else if text.eq(&"TO".to_owned()) {
        Some(Word::To)
    } else if text.eq(&"DOWNTO".to_owned()) {
        Some(Word::DownTo)
    } else if text.eq(&"ENDFOR".to_owned()) {
        Some(Word::EndFor)
    } else if text.eq(&"READ".to_owned()) {
        Some(Word::Read)
    } else if text.eq(&"WRITE".to_owned()) {
        Some(Word::Write)
    } else if text.eq(&"ASSIGN".to_owned()) {
        Some(Word::Assign)
    } else if text.eq(&"PLUS".to_owned()) {
        Some(Word::Plus)
    } else if text.eq(&"MINUS".to_owned()) {
        Some(Word::Minus)
    } else if text.eq(&"TIMES".to_owned()) {
        Some(Word::Times)
    } else if text.eq(&"DIV".to_owned()) {
        Some(Word::Div)
    } else if text.eq(&"MOD".to_owned()) {
        Some(Word::Mod)
    } else if text.eq(&"EQ".to_owned()) {
        Some(Word::Eq)
    } else if text.eq(&"NEQ".to_owned()) {
        Some(Word::Neq)
    } else if text.eq(&"LE".to_owned()) {
        Some(Word::Le)
    } else if text.eq(&"GE".to_owned()) {
        Some(Word::Ge)
    } else if text.eq(&"LEQ".to_owned()) {
        Some(Word::Leq)
    } else if text.eq(&"GEQ".to_owned()) {
        Some(Word::Geq)
    } else {
        None
    }
}

/// The text between two places, as a string.
fn run_text(bytes: &[u8], start: usize, end: usize, Ghost(class): Ghost<Class>) -> (r: String)
    requires
        start <= end <= bytes@.len(),
        forall|i: int| start <= i < end ==> class.holds(#[trigger] bytes@[i]),
    ensures
        r@ == chars_of(bytes@.subrange(start as int, end as int)),
{
    let mut run: Vec<u8> = Vec::new();
    let mut i = start;
    while i < end
        invariant
            start <= i <= end <= bytes@.len(),
            run@ == bytes@.subrange(start as int, i as int),
        decreases end - i,
    {
        run.push(bytes[i]);
        assert(run@ =~= bytes@.subrange(start as int, i + 1));
        i += 1;
    }
    assert forall|k: int| 0 <= k < run@.len() implies #[trigger] run@[k] < 128 by {
        assert(class.holds(bytes@[start + k]));
    }
    ascii_string(run.as_slice())
}

/// The number whose digits stand between two places, up to the largest
/// magnitude that an `i64` holds.
fn scan_digits(bytes: &[u8], start: usize, end: usize) -> (r: Option<u64>)
    requires
        start <= end <= bytes@.len(),
        forall|i: int| start <= i < end ==> is_digit(#[trigger] bytes@[i]),
    ensures
        match r {
            Some(value) => value == digits_value(bytes@.subrange(start as int, end as int))
                && value <= 9223372036854775808,
            None => digits_value(bytes@.subrange(start as int, end as int)) > 9223372036854775808,
        },
{
    let mut value: u64 = 0;
    let mut i = start;
    assert(bytes@.subrange(start as int, start as int).len() == 0);
    while i < end
        invariant
            start <= i <= end <= bytes@.len(),
            forall|k: int| start <= k < end ==> is_digit(#[trigger] bytes@[k]),
            value == digits_value(bytes@.subrange(start as int, i as int)),
            value <= 9223372036854775808,
        decreases end - i,
    {
        let digit: u64 = (bytes[i] - 48) as u64;
        proof {
            assert(bytes@.subrange(start as int, i + 1).drop_last() =~= bytes@.subrange(
                start as int,
                i as int,
            ));
            assert(bytes@.subrange(start as int, i + 1).last() == bytes@[i as int]);
        }
        if value > 922337203685477580 || value * 10 + digit > 9223372036854775808 {
            proof {
                lemma_digits_grow(bytes@, start as int, i + 1, end as int);
            }
            return None;
        }
        value = value * 10 + digit;
        i += 1;
    }
    Some(value)
}

/// More digits never make a number smaller.
pub proof fn lemma_digits_grow(bytes: Seq<u8>, start: int, middle: int, end: int)
    requires
        0 <= start <= middle <= end <= bytes.len(),
        forall|i: int| start <= i < end ==> is_digit(#[trigger] bytes[i]),
    ensures
        digits_value(bytes.subrange(start, middle)) <= digits_value(bytes.subrange(start, end)),
    decreases end - middle,
{
    if middle < end {
        lemma_digits_grow(bytes, start, middle, end - 1);
        assert(bytes.subrange(start, end).drop_last() =~= bytes.subrange(start, end - 1));
    }
}

/// The tokens of a text: see [`lex`].
pub fn tokenize(bytes: &[u8]) -> (r: Result<Vec<Token>, LexError>)
    ensures
        match r {
            Ok(tokens) => lex(bytes@) == Some(symbols(tokens@)),
            Err(_) => lex(bytes@) is None,
        },
{
    let mut tokens: Vec<Token> = Vec::new();
    let mut pos: usize = 0;
    let n = bytes.len();
    assert(symbols(tokens@) =~= Seq::<Symbol>::empty());
    while pos < n
        invariant
            n == bytes@.len(),
            pos <= n,
            lex(bytes@) == lex_from(bytes@, pos as int, symbols(tokens@)),
        decreases n - pos,
    {
        let b = bytes[pos];
        let ghost before = symbols(tokens@);
        if b == 32 || b == 9 || b == 10 || b == 13 {
            pos += 1;
        } else if b == 91 {
            let mut at = pos + 1;
            while at < n && bytes[at] != 93
                invariant
                    n == bytes@.len(),
                    pos < at <= n,
                    forall|i: int| pos + 1 <= i < at ==> #[trigger] bytes@[i] != 93,
                decreases n - at,
            {
                at += 1;
            }
            proof {
                lemma_comment_end_from(bytes@, pos + 1, at as int);
            }
            if at >= n {
                return Err(LexError::UnterminatedComment { position: pos });
            }
            pos = at + 1;
        } else if b == 44 {
            tokens.push(Token::Comma);
            assert(symbols(tokens@) =~= before.push(Symbol::Comma));
            pos += 1;
        } else if b == 59 {
            tokens.push(Token::Semicolon);
            assert(symbols(tokens@) =~= before.push(Symbol::Semicolon));
            pos += 1;
        } else if b == 40 {
            tokens.push(Token::Open);
            assert(symbols(tokens@) =~= before.push(Symbol::Open));
            pos += 1;
        } else if b == 41 {
            tokens.push(Token::Close);
            assert(symbols(tokens@) =~= before.push(Symbol::Close));
            pos += 1;
        } else if b == 58 {
            tokens.push(Token::Colon);
            assert(symbols(tokens@) =~= before.push(Symbol::Colon));
            pos += 1;
        } else if Class::Upper.has(b) {
            let end = scan_run(bytes, pos, Class::Upper);
            proof {
                lemma_run_end(bytes@, pos as int, Class::Upper);
            }
            let text = run_text(bytes, pos, end, Ghost(Class::Upper));
            match keyword(&text) {
                Some(word) => {
                    tokens.push(Token::Word(word));
                    assert(symbols(tokens@) =~= before.push(Symbol::Word(word)));
                },
                None => {
                    return Err(LexError::UnknownKeyword { position: pos });
                },
            }
            pos = end;
        } else if Class::Lower.has(b) {
            let end = scan_run(bytes, pos, Class::Lower);
            proof {
                lemma_run_end(bytes@, pos as int, Class::Lower);
            }
            let text = run_text(bytes, pos, end, Ghost(Class::Lower));
            tokens.push(Token::Name(text));
            assert(symbols(tokens@) =~= before.push(
                Symbol::Name(chars_of(bytes@.subrange(pos as int, end as int))),
            ));
            pos = end;
        } else if Class::Digit.has(b) || (b == 45 && pos + 1 < n && Class::Digit.has(bytes[pos + 1])) {
            let negative = b == 45;
            let start = if negative {
                pos + 1
            } else {
                pos
            };
            let end = scan_run(bytes, start, Class::Digit);
            proof {
                lemma_run_end(bytes@, start as int, Class::Digit);
            }
            let value: i64 = match scan_digits(bytes, start, end) {
                Some(magnitude) => {
                    if negative {
                        if magnitude == 9223372036854775808 {
                            i64::MIN
                        } else {
                            -(magnitude as i64)
                        }
                    } else {
                        if magnitude == 9223372036854775808 {
                            return Err(LexError::NumberOutOfRange { position: pos });
                        }
                        magnitude as i64
                    }
                },
                None => {
                    return Err(LexError::NumberOutOfRange { position: pos });
                },
            };
            tokens.push(Token::Number(value));
            assert(symbols(tokens@) =~= before.push(Symbol::Number(value)));
            pos = end;
        } else {
            return Err(LexError::UnexpectedCharacter { position: pos });
        }
    }
    Ok(tokens)
}

} // verus!
