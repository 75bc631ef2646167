//! The instruction set of the virtual machine, its cost table and its
//! textual form.

use vstd::prelude::*;

verus! {

/// One instruction of the accumulator machine. Operands are cell addresses or,
/// for the jumps, instruction offsets.
#[allow(dead_code)]
#[derive(Debug, Clone, Copy, PartialEq, Eq, Structural)]
pub enum Instruction {
    Get,
    Put,
    Load(u64),
    Loadi(u64),
    Store(u64),
    Storei(u64),
    Add(u64),
    Sub(u64),
    Shift(u64),
    Mul(u64),
    Div(u64),
    Mod(u64),
    Inc,
    Dec,
    Jump(u64),
    Jpos(u64),
    Jzero(u64),
    Jneg(u64),
    Halt,
}

impl Instruction {
    /// The cost table.
    pub open spec fn spec_cost(self) -> nat {
        match self {
            Instruction::Get => 100,
            Instruction::Put => 100,
            Instruction::Load(_) => 10,
            Instruction::Loadi(_) => 20,
            Instruction::Store(_) => 10,
            Instruction::Storei(_) => 20,
            Instruction::Add(_) => 10,
            Instruction::Sub(_) => 10,
            Instruction::Shift(_) => 5,
            Instruction::Mul(_) => 50,
            Instruction::Div(_) => 50,
            Instruction::Mod(_) => 50,
            Instruction::Inc => 1,
            Instruction::Dec => 1,
            Instruction::Jump(_) => 1,
            Instruction::Jpos(_) => 1,
            Instruction::Jzero(_) => 1,
            Instruction::Jneg(_) => 1,
            Instruction::Halt => 0,
        }
    }

    /// `Mul`, `Div` and `Mod` exist only in the extended instruction set.
    pub open spec fn is_extended(self) -> bool {
        self is Mul || self is Div || self is Mod
    }

    /// The operand, for the instructions that have one.
    pub open spec fn operand(self) -> Option<u64> {
        match self {
            Instruction::Load(k)
            | Instruction::Loadi(k)
            | Instruction::Store(k)
            | Instruction::Storei(k)
            | Instruction::Add(k)
            | Instruction::Sub(k)
            | Instruction::Shift(k)
            | Instruction::Mul(k)
            | Instruction::Div(k)
            | Instruction::Mod(k)
            | Instruction::Jump(k)
            | Instruction::Jpos(k)
            | Instruction::Jzero(k)
            | Instruction::Jneg(k) => Some(k),
            _ => None,
        }
    }

    /// Whether this is one of the four jumps.
    pub open spec fn is_jump(self) -> bool {
        self is Jump || self is Jpos || self is Jzero || self is Jneg
    }

    /// The upper-case mnemonic, as ASCII bytes.
    pub open spec fn mnemonic(self) -> Seq<u8> {
        match self {
            Instruction::Get => seq![71u8, 69, 84],
            Instruction::Put => seq![80u8, 85, 84],
            Instruction::Load(_) => seq![76u8, 79, 65, 68],
            Instruction::Loadi(_) => seq![76u8, 79, 65, 68, 73],
            Instruction::Store(_) => seq![83u8, 84, 79, 82, 69],
            Instruction::Storei(_) => seq![83u8, 84, 79, 82, 69, 73],
            Instruction::Add(_) => seq![65u8, 68, 68],
            Instruction::Sub(_) => seq![83u8, 85, 66],
            Instruction::Shift(_) => seq![83u8, 72, 73, 70, 84],
            Instruction::Mul(_) => seq![77u8, 85, 76],
            Instruction::Div(_) => seq![68u8, 73, 86],
            Instruction::Mod(_) => seq![77u8, 79, 68],
            Instruction::Inc => seq![73u8, 78, 67],
            Instruction::Dec => seq![68u8, 69, 67],
            Instruction::Jump(_) => seq![74u8, 85, 77, 80],
            Instruction::Jpos(_) => seq![74u8, 80, 79, 83],
            Instruction::Jzero(_) => seq![74u8, 90, 69, 82, 79],
            Instruction::Jneg(_) => seq![74u8, 78, 69, 71],
            Instruction::Halt => seq![72u8, 65, 76, 84],
        }
    }

    /// The instruction as it is written on a line: the mnemonic, then, where
    /// there is an operand, one space and the operand in decimal.
    pub open spec fn text(self) -> Seq<u8> {
        match self.operand() {
            Some(k) => self.mnemonic().push(32u8) + decimal(k as nat),
            None => self.mnemonic(),
        }
    }

    /// What executing the instruction once is charged.
    pub fn cost(&self) -> (c: u64)
        ensures
            c == self.spec_cost(),
    {
        match self {
            Instruction::Get => 100,
            Instruction::Put => 100,
            Instruction::Load(_) => 10,
            Instruction::Loadi(_) => 20,
            Instruction::Store(_) => 10,
            Instruction::Storei(_) => 20,
            Instruction::Add(_) => 10,
            Instruction::Sub(_) => 10,
            Instruction::Shift(_) => 5,
            Instruction::Mul(_) => 50,
            Instruction::Div(_) => 50,
            Instruction::Mod(_) => 50,
            Instruction::Inc => 1,
            Instruction::Dec => 1,
            Instruction::Jump(_) => 1,
            Instruction::Jpos(_) => 1,
            Instruction::Jzero(_) => 1,
            Instruction::Jneg(_) => 1,
            Instruction::Halt => 0,
        }
    }

    /// Appends the mnemonic to `out`.
    fn push_mnemonic(&self, out: &mut Vec<u8>)
        ensures
            final(out)@ == old(out)@ + self.mnemonic(),
    {
        let ghost before = out@;
        match self {
            Instruction::Get => {
                out.push(71);
                out.push(69);
                out.push(84);
            },
            Instruction::Put => {
                out.push(80);
                out.push(85);
                out.push(84);
            },
            Instruction::Load(_) => {
                out.push(76);
                out.push(79);
                out.push(65);
                out.push(68);
            },
            Instruction::Loadi(_) => {
                out.push(76);
                out.push(79);
                out.push(65);
                out.push(68);
                out.push(73);
            },
            Instruction::Store(_) => {
                out.push(83);
                out.push(84);
                out.push(79);
                out.push(82);
                out.push(69);
            },
            Instruction::Storei(_) => {
                out.push(83);
                out.push(84);
                out.push(79);
                out.push(82);
                out.push(69);
                out.push(73);
            },
            Instruction::Add(_) => {
                out.push(65);
                out.push(68);
                out.push(68);
            },
            Instruction::Sub(_) => {
                out.push(83);
                out.push(85);
                out.push(66);
            },
            Instruction::Shift(_) => {
                out.push(83);
                out.push(72);
                out.push(73);
                out.push(70);
                out.push(84);
            },
            Instruction::Mul(_) => {
                out.push(77);
                out.push(85);
                out.push(76);
            },
            Instruction::Div(_) => {
                out.push(68);
                out.push(73);
                out.push(86);
            },
            Instruction::Mod(_) => {
                out.push(77);
                out.push(79);
                out.push(68);
            },
            Instruction::Inc => {
                out.push(73);
                out.push(78);
                out.push(67);
            },
            Instruction::Dec => {
                out.push(68);
                out.push(69);
                out.push(67);
            },
            Instruction::Jump(_) => {
                out.push(74);
                out.push(85);
                out.push(77);
                out.push(80);
            },
            Instruction::Jpos(_) => {
                out.push(74);
                out.push(80);
                out.push(79);
                out.push(83);
            },
            Instruction::Jzero(_) => {
                out.push(74);
                out.push(90);
                out.push(69);
                out.push(82);
                out.push(79);
            },
            Instruction::Jneg(_) => {
                out.push(74);
                out.push(78);
                out.push(69);
                out.push(71);
            },
            Instruction::Halt => {
                out.push(72);
                out.push(65);
                out.push(76);
                out.push(84);
            },
        }
        assert(out@ =~= before + self.mnemonic());
    }

    /// The operand, for the instructions that have one.
    pub fn argument(&self) -> (r: Option<u64>)
        ensures
            r == self.operand(),
    {
        match self {
            Instruction::Load(k)
            | Instruction::Loadi(k)
            | Instruction::Store(k)
            | Instruction::Storei(k)
            | Instruction::Add(k)
            | Instruction::Sub(k)
            | Instruction::Shift(k)
            | Instruction::Mul(k)
            | Instruction::Div(k)
            | Instruction::Mod(k)
            | Instruction::Jump(k)
            | Instruction::Jpos(k)
            | Instruction::Jzero(k)
            | Instruction::Jneg(k) => Some(*k),
            _ => None,
        }
    }

    /// Appends [`Instruction::text`] to `out`.
    pub fn write_text(&self, out: &mut Vec<u8>)
        ensures
            final(out)@ == old(out)@ + self.text(),
    {
        let ghost before = out@;
        self.push_mnemonic(out);
        match self.argument() {
            Some(k) => {
                out.push(32);
                push_decimal(out, k);
                assert(out@ =~= before + self.text());
            },
            None => {},
        }
    }
}

/// Decimal digits of `n`, most significant first, as ASCII bytes; no leading
/// zero except for `0` itself.
pub open spec fn decimal(n: nat) -> Seq<u8>
    decreases n,
{
    if n < 10 {
        seq![(48 + n) as u8]
    } else {
        decimal(n / 10).push((48 + n % 10) as u8)
    }
}

/// Appends the decimal digits of `n` to `out`.
pub fn push_decimal(out: &mut Vec<u8>, n: u64)
    ensures
        final(out)@ == old(out)@ + decimal(n as nat),
    decreases n,
{
    let ghost before = out@;
    if n >= 10 {
        push_decimal(out, n / 10);
    }
    let digit: u8 = (n % 10) as u8;
    out.push(48 + digit);
    assert(out@ =~= before + decimal(n as nat));
}

/// The listing of a program: each instruction's text followed by a line feed.
pub open spec fn listing(program: Seq<Instruction>) -> Seq<u8>
    decreases program.len(),
{
    if program.len() == 0 {
        Seq::empty()
    } else {
        listing(program.drop_last()) + program.last().text().push(10u8)
    }
}

/// Prints a program in the textual assembly format.
pub struct InstructionListPrinter<'a>(pub &'a [Instruction]);

impl<'a> InstructionListPrinter<'a> {
    /// The listing as ASCII bytes.
    pub fn to_bytes(&self) -> (out: Vec<u8>)
        ensures
            out@ == listing(self.0@),
    {
        let mut out: Vec<u8> = Vec::new();
        let n = self.0.len();
        let mut i: usize = 0;
        while i < n
            invariant
                n == self.0@.len(),
                i <= n,
                out@ == listing(self.0@.take(i as int)),
            decreases n - i,
        {
            let ghost before = out@;
            self.0[i].write_text(&mut out);
            out.push(10);
            proof {
                let next = self.0@.take(i + 1);
                assert(next.drop_last() =~= self.0@.take(i as int));
                assert(next.last() == self.0@[i as int]);
                assert(out@ =~= before + self.0@[i as int].text().push(10u8));
            }
            i += 1;
        }
        assert(self.0@.take(n as int) =~= self.0@);
        out
    }
}

} // verus!
