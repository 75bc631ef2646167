//! The textual form of target programs, read back.
//!
//! A listing has one instruction on each line: the mnemonic in capitals
//! and, for an instruction with an operand, the operand in decimal behind
//! it. Spaces, tabs and carriage returns may stand around mnemonic and
//! operand, and lines may be empty. `MUL`, `DIV` and `MOD` are not part of
//! the format.

use crate::instruction::{decimal, listing, Instruction};
use crate::parser::lexer::{digits_value, is_digit, lemma_digits_grow, lemma_run_end, run_end};
use crate::parser::lexer::{scan_run, Class};
use vstd::prelude::*;
use vstd::string::StringSliceAdditionalSpecFns;

verus! {

/// Which of the three-letter words `word` is.
pub open spec fn is3(word: Seq<u8>, a: u8, b: u8, c: u8) -> bool {
    word.len() == 3 && word[0] == a && word[1] == b && word[2] == c
}

pub open spec fn is4(word: Seq<u8>, a: u8, b: u8, c: u8, d: u8) -> bool {
    word.len() == 4 && word[0] == a && word[1] == b && word[2] == c && word[3] == d
}

pub open spec fn is5(word: Seq<u8>, a: u8, b: u8, c: u8, d: u8, e: u8) -> bool {
    word.len() == 5 && word[0] == a && word[1] == b && word[2] == c && word[3] == d && word[4]
        == e
}

pub open spec fn is6(word: Seq<u8>, a: u8, b: u8, c: u8, d: u8, e: u8, f: u8) -> bool {
    word.len() == 6 && word[0] == a && word[1] == b && word[2] == c && word[3] == d && word[4]
        == e && word[5] == f
}

/// The instruction without operand that `word` names.
pub open spec fn nullary(word: Seq<u8>) -> Option<Instruction> {
    if is3(word, 71, 69, 84) {
        Some(Instruction::Get)
    } else if is3(word, 80, 85, 84) {
        Some(Instruction::Put)
    } else if is3(word, 73, 78, 67) {
        Some(Instruction::Inc)
    } else if is3(word, 68, 69, 67) {
        Some(Instruction::Dec)
    } else if is4(word, 72, 65, 76, 84) {
        Some(Instruction::Halt)
    } else {
        None
    }
}

/// The instruction with the operand `k` that `word` names.
pub open spec fn unary(word: Seq<u8>, k: u64) -> Option<Instruction> {
    if is4(word, 76, 79, 65, 68) {
        Some(Instruction::Load(k))
    } else if is5(word, 76, 79, 65, 68, 73) {
        Some(Instruction::Loadi(k))
    } else if is5(word, 83, 84, 79, 82, 69) {
        Some(Instruction::Store(k))
    } else if is6(word, 83, 84, 79, 82, 69, 73) {
        Some(Instruction::Storei(k))
    } else if is3(word, 65, 68, 68) {
        Some(Instruction::Add(k))
    } else if is3(word, 83, 85, 66) {
        Some(Instruction::Sub(k))
    } else if is5(word, 83, 72, 73, 70, 84) {
        Some(Instruction::Shift(k))
    } else if is4(word, 74, 85, 77, 80) {
        Some(Instruction::Jump(k))
    } else if is4(word, 74, 80, 79, 83) {
        Some(Instruction::Jpos(k))
    } else if is5(word, 74, 90, 69, 82, 79) {
        Some(Instruction::Jzero(k))
    } else if is4(word, 74, 78, 69, 71) {
        Some(Instruction::Jneg(k))
    } else {
        None
    }
}

/// What a line holds.
pub enum Line {
    Empty,
    Instruction(Instruction),
    Invalid,
}

/// What a line holds: nothing but blanks; a mnemonic; or a mnemonic, at
/// least one blank, and an operand that a `u64` can hold.
pub open spec fn parse_line(line: Seq<u8>) -> Line {
    let start = run_end(line, 0, Class::Blank);
    if start >= line.len() {
        Line::Empty
    } else {
        let word_end = run_end(line, start, Class::Upper);
        let word = line.subrange(start, word_end);
        let operand_start = run_end(line, word_end, Class::Blank);
        if operand_start >= line.len() {
            match nullary(word) {
                Some(instruction) => Line::Instruction(instruction),
                None => Line::Invalid,
            }
        } else if operand_start == word_end {
            Line::Invalid
        } else {
            let operand_end = run_end(line, operand_start, Class::Digit);
            let value = digits_value(line.subrange(operand_start, operand_end));
            if operand_end > operand_start && run_end(line, operand_end, Class::Blank)
                >= line.len() && value <= u64::MAX {
                match unary(word, value as u64) {
                    Some(instruction) => Line::Instruction(instruction),
                    None => Line::Invalid,
                }
            } else {
                Line::Invalid
            }
        }
    }
}

/// Where the line that starts at `pos` ends: at the next line feed or at
/// the end of the text.
pub open spec fn line_end(text: Seq<u8>, pos: int) -> int
    decreases text.len() - pos,
{
    if 0 <= pos < text.len() && text[pos] != 10 {
        line_end(text, pos + 1)
    } else {
        pos
    }
}

/// The instructions of the lines from `pos` on, behind those found before;
/// none where a line is invalid.
pub open spec fn parse_from(text: Seq<u8>, pos: int, found: Seq<Instruction>) -> Option<
    Seq<Instruction>,
>
    decreases text.len() - pos,
{
    if pos < 0 || pos >= text.len() {
        Some(found)
    } else {
        let end = line_end(text, pos);
        let next = if end < text.len() {
            end + 1
        } else {
            end
        };
        if pos <= end <= text.len() {
            match parse_line(text.subrange(pos, end)) {
                Line::Empty => parse_from(text, next, found),
                Line::Instruction(instruction) => parse_from(text, next, found.push(instruction)),
                Line::Invalid => None,
            }
        } else {
            None
        }
    }
}

/// The program that a listing holds.
pub open spec fn parse(text: Seq<u8>) -> Option<Seq<Instruction>> {
    parse_from(text, 0, Seq::empty())
}

/// Where a line ends, found from any place inside it.
pub proof fn lemma_line_end_from(text: Seq<u8>, pos: int, at: int)
    requires
        0 <= pos <= at <= text.len(),
        forall|i: int| pos <= i < at ==> #[trigger] text[i] != 10,
    ensures
        line_end(text, pos) == line_end(text, at),
    decreases at - pos,
{
    if pos < at {
        lemma_line_end_from(text, pos + 1, at);
    }
}

/// Why a text is no listing.
#[derive(Debug, Clone, Copy, PartialEq, Eq, Structural)]
pub enum Error {
    /// The line that starts at this place of the text is no instruction.
    InvalidLine { position: usize },
}

fn has3(word: &[u8], a: u8, b: u8, c: u8) -> (r: bool)
    ensures
        r == is3(word@, a, b, c),
{
    word.len() == 3 && word[0] == a && word[1] == b && word[2] == c
}

fn has4(word: &[u8], a: u8, b: u8, c: u8, d: u8) -> (r: bool)
    ensures
        r == is4(word@, a, b, c, d),
{
    word.len() == 4 && word[0] == a && word[1] == b && word[2] == c && word[3] == d
}

fn has5(word: &[u8], a: u8, b: u8, c: u8, d: u8, e: u8) -> (r: bool)
    ensures
        r == is5(word@, a, b, c, d, e),
{
    word.len() == 5 && word[0] == a && word[1] == b && word[2] == c && word[3] == d && word[4]
        == e
}

fn has6(word: &[u8], a: u8, b: u8, c: u8, d: u8, e: u8, f: u8) -> (r: bool)
    ensures
        r == is6(word@, a, b, c, d, e, f),
{
    word.len() == 6 && word[0] == a && word[1] == b && word[2] == c && word[3] == d && word[4]
        == e && word[5] == f
}

fn instruction_without_operand(word: &[u8]) -> (r: Option<Instruction>)
    ensures
        r == nullary(word@),
{
    if has3(word, 71, 69, 84) {
        Some(Instruction::Get)
    } else if has3(word, 80, 85, 84) {
        Some(Instruction::Put)
    } else if has3(word, 73, 78, 67) {
        Some(Instruction::Inc)
    } else if has3(word, 68, 69, 67) {
        Some(Instruction::Dec)
    } else if has4(word, 72, 65, 76, 84) {
        Some(Instruction::Halt)
    } else {
        None
    }
}

fn instruction_with_operand(word: &[u8], k: u64) -> (r: Option<Instruction>)
    ensures
        r == unary(word@, k),
{
    if has4(word, 76, 79, 65, 68) {
        Some(Instruction::Load(k))
    } else if has5(word, 76, 79, 65, 68, 73) {
        Some(Instruction::Loadi(k))
    } else if has5(word, 83, 84, 79, 82, 69) {
        Some(Instruction::Store(k))
    } else if has6(word, 83, 84, 79, 82, 69, 73) {
        Some(Instruction::Storei(k))
    } else if has3(word, 65, 68, 68) {
        Some(Instruction::Add(k))
    } else if has3(word, 83, 85, 66) {
        Some(Instruction::Sub(k))
    } else if has5(word, 83, 72, 73, 70, 84) {
        Some(Instruction::Shift(k))
    } else if has4(word, 74, 85, 77, 80) {
        Some(Instruction::Jump(k))
    } else if has4(word, 74, 80, 79, 83) {
        Some(Instruction::Jpos(k))
    } else if has5(word, 74, 90, 69, 82, 79) {
        Some(Instruction::Jzero(k))
    } else if has4(word, 74, 78, 69, 71) {
        Some(Instruction::Jneg(k))
    } else {
        None
    }
}

/// The part of `bytes` between two places.
fn part(bytes: &[u8], start: usize, end: usize) -> (r: Vec<u8>)
    requires
        start <= end <= bytes@.len(),
    ensures
        r@ == bytes@.subrange(start as int, end as int),
{
    let mut r: Vec<u8> = Vec::new();
    let mut i = start;
    while i < end
        invariant
            start <= i <= end <= bytes@.len(),
            r@ == bytes@.subrange(start as int, i as int),
        decreases end - i,
    {
        r.push(bytes[i]);
        assert(r@ =~= bytes@.subrange(start as int, i + 1));
        i += 1;
    }
    r
}

/// The number whose digits stand between two places, where a `u64` can
/// hold it.
fn scan_operand(bytes: &[u8], start: usize, end: usize) -> (r: Option<u64>)
    requires
        start <= end <= bytes@.len(),
        forall|i: int| start <= i < end ==> is_digit(#[trigger] bytes@[i]),
    ensures
        match r {
            Some(value) => value == digits_value(bytes@.subrange(start as int, end as int)),
            None => digits_value(bytes@.subrange(start as int, end as int)) > u64::MAX,
        },
{
    let mut value: u64 = 0;
    let mut i = start;
    assert(bytes@.subrange(start as int, start as int).len() == 0);
    while i < end
        invariant
            start <= i <= end <= bytes@.len(),
            forall|k: int| start <= k < end ==> is_digit(#[trigger] bytes@[k]),
            value == digits_value(bytes@.subrange(start as int, i as int)),
        decreases end - i,
    {
        let digit: u64 = (bytes[i] - 48) as u64;
        proof {
            assert(bytes@.subrange(start as int, i + 1).drop_last() =~= bytes@.subrange(
                start as int,
                i as int,
            ));
            assert(bytes@.subrange(start as int, i + 1).last() == bytes@[i as int]);
        }
        if value > 1844674407370955161 || (value == 1844674407370955161 && digit > 5) {
            proof {
                lemma_digits_grow(bytes@, start as int, i + 1, end as int);
            }
            return None;
        }
        value = value * 10 + digit;
        i += 1;
    }
    Some(value)
}

/// What a line holds: see [`parse_line`].
fn read_line(line: &[u8]) -> (r: Option<Option<Instruction>>)
    ensures
        match r {
            Some(Some(instruction)) => parse_line(line@) == Line::Instruction(instruction),
            Some(None) => parse_line(line@) == Line::Empty,
            None => parse_line(line@) == Line::Invalid,
        },
{
    let n = line.len();
    let start = scan_run(line, 0, Class::Blank);
    if start >= n {
        return Some(None);
    }
    let word_end = scan_run(line, start, Class::Upper);
    let word = part(line, start, word_end);
    let operand_start = scan_run(line, word_end, Class::Blank);
    if operand_start >= n {
        return match instruction_without_operand(word.as_slice()) {
            Some(instruction) => Some(Some(instruction)),
            None => None,
        };
    }
    if operand_start == word_end {
        return None;
    }
    let operand_end = scan_run(line, operand_start, Class::Digit);
    if operand_end == operand_start {
        return None;
    }
    if scan_run(line, operand_end, Class::Blank) < n {
        return None;
    }
    proof {
        lemma_run_end(line@, operand_start as int, Class::Digit);
    }
    match scan_operand(line, operand_start, operand_end) {
        Some(value) => match instruction_with_operand(word.as_slice(), value) {
            Some(instruction) => Some(Some(instruction)),
            None => None,
        },
        None => None,
    }
}

/// The program that a listing holds: see [`parse`].
pub fn parse_listing(text: &[u8]) -> (r: Result<Vec<Instruction>, Error>)
    ensures
        match r {
            Ok(program) => parse(text@) == Some(program@),
            Err(_) => parse(text@) is None,
        },
{
    let mut program: Vec<Instruction> = Vec::new();
    let n = text.len();
    let mut pos: usize = 0;
    while pos < n
        invariant
            n == text@.len(),
            pos <= n,
            parse(text@) == parse_from(text@, pos as int, program@),
        decreases n - pos,
    {
        let mut end = pos;
        while end < n && text[end] != 10
            invariant
                n == text@.len(),
                pos <= end <= n,
                forall|i: int| pos <= i < end ==> #[trigger] text@[i] != 10,
            decreases n - end,
        {
            end += 1;
        }
        proof {
            lemma_line_end_from(text@, pos as int, end as int);
        }
        let line = part(text, pos, end);
        match read_line(line.as_slice()) {
            Some(Some(instruction)) => {
                program.push(instruction);
            },
            Some(None) => {},
            None => {
                return Err(Error::InvalidLine { position: pos });
            },
        }
        pos = if end < n {
            end + 1
        } else {
            end
        };
    }
    Ok(program)
}

/// The program that a listing holds: see [`parse`].
pub fn create_program(text: &str) -> (r: Result<Vec<Instruction>, Error>)
    ensures
        match r {
            Ok(program) => parse(text.spec_bytes()) == Some(program@),
            Err(_) => parse(text.spec_bytes()) is None,
        },
{
    parse_listing(text.as_bytes())
}

/// Where a run ends: at the first character that is not of the class.
pub proof fn lemma_run_exact(bytes: Seq<u8>, pos: int, end: int, class: Class)
    requires
        0 <= pos <= end <= bytes.len(),
        forall|i: int| pos <= i < end ==> class.holds(#[trigger] bytes[i]),
        end < bytes.len() ==> !class.holds(bytes[end]),
    ensures
        run_end(bytes, pos, class) == end,
    decreases end - pos,
{
    if pos < end {
        lemma_run_exact(bytes, pos + 1, end, class);
    }
}

/// Where a line ends: at the first line feed.
pub proof fn lemma_line_exact(text: Seq<u8>, pos: int, end: int)
    requires
        0 <= pos <= end <= text.len(),
        forall|i: int| pos <= i < end ==> #[trigger] text[i] != 10,
        end < text.len() ==> text[end] == 10,
    ensures
        line_end(text, pos) == end,
    decreases end - pos,
{
    if pos < end {
        lemma_line_exact(text, pos + 1, end);
    }
}

/// The decimal digits of a number are digits, at least one, and stand for
/// the number.
pub proof fn lemma_decimal(n: nat)
    ensures
        decimal(n).len() >= 1,
        forall|i: int| 0 <= i < decimal(n).len() ==> is_digit(#[trigger] decimal(n)[i]),
        digits_value(decimal(n)) == n,
    decreases n,
{
    if n < 10 {
        assert(decimal(n).drop_last() =~= Seq::<u8>::empty());
        assert(digits_value(decimal(n).drop_last()) == 0);
    } else {
        lemma_decimal(n / 10);
        assert(decimal(n).drop_last() =~= decimal(n / 10));
    }
}

/// A mnemonic is made of three to six capital letters.
pub proof fn lemma_mnemonic(instruction: Instruction)
    ensures
        3 <= instruction.mnemonic().len() <= 6,
        forall|i: int|
            0 <= i < instruction.mnemonic().len() ==> 65 <= #[trigger] instruction.mnemonic()[i]
                <= 90,
{
}

/// The text of an instruction is read back as the instruction.
pub proof fn lemma_line_round_trip(instruction: Instruction)
    requires
        !instruction.is_extended(),
    ensures
        parse_line(instruction.text()) == Line::Instruction(instruction),
        instruction.text().len() >= 3,
        forall|i: int| 0 <= i < instruction.text().len() ==> #[trigger] instruction.text()[i] != 10,
{
    let line = instruction.text();
    let word = instruction.mnemonic();
    let m = word.len() as int;
    lemma_mnemonic(instruction);
    match instruction.operand() {
        Some(k) => {
            let digits = decimal(k as nat);
            lemma_decimal(k as nat);
            assert(line =~= word.push(32u8) + digits);
            assert forall|i: int| 0 <= i < line.len() implies #[trigger] line[i] != 10 by {
                if i < m {
                    assert(line[i] == word[i]);
                } else if i > m {
                    assert(line[i] == digits[i - m - 1]);
                }
            }
            assert forall|i: int| 0 <= i < m implies Class::Upper.holds(#[trigger] line[i]) by {
                assert(line[i] == word[i]);
            }
            assert(line[m] == 32);
            assert forall|i: int| m + 1 <= i < line.len() implies Class::Digit.holds(
                #[trigger] line[i],
            ) by {
                assert(line[i] == digits[i - m - 1]);
            }
            assert(line[0] == word[0]);
            assert(line[m + 1] == digits[0]);
            lemma_run_exact(line, 0, 0, Class::Blank);
            lemma_run_exact(line, 0, m, Class::Upper);
            lemma_run_exact(line, m, m + 1, Class::Blank);
            lemma_run_exact(line, m + 1, line.len() as int, Class::Digit);
            lemma_run_exact(line, line.len() as int, line.len() as int, Class::Blank);
            assert(line.subrange(0, m) =~= word);
            assert(line.subrange(m + 1, line.len() as int) =~= digits);
            assert(unary(word, k) == Some(instruction));
        },
        None => {
            assert(line == word);
            assert forall|i: int| 0 <= i < m implies Class::Upper.holds(#[trigger] line[i]) by {}
            lemma_run_exact(line, 0, 0, Class::Blank);
            lemma_run_exact(line, 0, m, Class::Upper);
            lemma_run_exact(line, m, m, Class::Blank);
            assert(line.subrange(0, m) =~= word);
            assert(nullary(word) == Some(instruction));
        },
    }
}

/// A listing, from its first line on.
pub proof fn lemma_listing_front(program: Seq<Instruction>)
    requires
        program.len() > 0,
    ensures
        listing(program) == program[0].text().push(10u8) + listing(program.skip(1)),
    decreases program.len(),
{
    if program.len() == 1 {
        assert(program.drop_last() =~= Seq::<Instruction>::empty());
        assert(program.skip(1) =~= Seq::<Instruction>::empty());
        assert(listing(program.drop_last()) =~= Seq::<u8>::empty());
        assert(listing(program) =~= program[0].text().push(10u8) + listing(program.skip(1)));
    } else {
        let front = program.drop_last();
        lemma_listing_front(front);
        assert(front.skip(1) =~= program.skip(1).drop_last());
        assert(front[0] == program[0]);
        assert(program.skip(1).last() == program.last());
        assert(listing(program) =~= program[0].text().push(10u8) + listing(program.skip(1)));
    }
}

/// Reading a text that ends with a listing, from the start of the listing
/// on, finds the listed program.
pub proof fn lemma_parse_listing(prefix: Seq<u8>, program: Seq<Instruction>, found: Seq<Instruction>)
    requires
        forall|i: int| 0 <= i < program.len() ==> !(#[trigger] program[i]).is_extended(),
    ensures
        parse_from(prefix + listing(program), prefix.len() as int, found) == Some(found + program),
    decreases program.len(),
{
    let text = prefix + listing(program);
    let pos = prefix.len() as int;
    if program.len() == 0 {
        assert(text =~= prefix);
        assert(found + program =~= found);
    } else {
        let first = program[0];
        let rest = program.skip(1);
        let line = first.text();
        let end = pos + line.len();
        lemma_listing_front(program);
        lemma_line_round_trip(first);
        assert(text =~= (prefix + line.push(10u8)) + listing(rest));
        assert forall|i: int| pos <= i < end implies #[trigger] text[i] != 10 by {
            assert(text[i] == line[i - pos]);
        }
        assert(text[end] == 10);
        lemma_line_exact(text, pos, end);
        assert(text.subrange(pos, end) =~= line);
        lemma_parse_listing(prefix + line.push(10u8), rest, found.push(first));
        assert(found.push(first) + rest =~= found + program);
    }
}

/// Printing a program and reading the listing back yields the program, for
/// every program without `Mul`, `Div` and `Mod`, which have no place in the
/// textual form.
pub proof fn lemma_round_trip(program: Seq<Instruction>)
    requires
        forall|i: int| 0 <= i < program.len() ==> !(#[trigger] program[i]).is_extended(),
    ensures
        parse(listing(program)) == Some(program),
{
    lemma_parse_listing(Seq::empty(), program, Seq::empty());
    assert(Seq::<u8>::empty() + listing(program) =~= listing(program));
    assert(Seq::<Instruction>::empty() + program =~= program);
}

} // verus!
