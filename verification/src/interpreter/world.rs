//! The interpreter's boundary for input, output and logging.

use crate::value::{copy, int_value, int_values};
use num_bigint::BigInt;
use vstd::prelude::*;

verus! {

#[derive(Debug, Clone, Copy, PartialEq, Eq, Structural)]
pub enum Error {
    /// No input is left, or what was read is no integer.
    InvalidInput,
}

impl Error {
    /// The message for the user.
    pub fn message(&self) -> (r: &'static str)
        ensures
            r@ == "invalid input"@,
    {
        match self {
            Error::InvalidInput => "invalid input",
        }
    }
}

/// A world in memory: the inputs are given beforehand, the outputs and the
/// log lines are kept.
#[derive(Debug)]
pub struct MemoryWorld {
    inputs: Vec<BigInt>,
    outputs: Vec<BigInt>,
    logs: Vec<String>,
}

impl MemoryWorld {
    /// The inputs that are left, in the order in which they will be
    /// delivered.
    pub closed spec fn pending(&self) -> Seq<int> {
        Seq::new(
            self.inputs@.len(),
            |i: int| int_value(self.inputs@[self.inputs@.len() - 1 - i]),
        )
    }

    /// The outputs so far, oldest first.
    pub closed spec fn emitted(&self) -> Seq<int> {
        int_values(self.outputs@)
    }

    /// The log lines so far, oldest first.
    pub closed spec fn log_lines(&self) -> Seq<String> {
        self.logs@
    }

    /// A world that will deliver `inputs`, first element first.
    pub fn new(inputs: Vec<BigInt>) -> (world: MemoryWorld)
        ensures
            world.pending() == int_values(inputs@),
            world.emitted() == Seq::<int>::empty(),
            world.log_lines() == Seq::<String>::empty(),
    {
        let mut inputs = inputs;
        let ghost original = inputs@;
        let mut reversed: Vec<BigInt> = Vec::new();
        let n = inputs.len();
        while inputs.len() > 0
            invariant
                inputs@.len() + reversed@.len() == n,
                n == original.len(),
                inputs@ == original.take(inputs@.len() as int),
                forall|k: int|
                    0 <= k < reversed@.len() ==> #[trigger] reversed@[k] == original[n - 1 - k],
            decreases inputs@.len(),
        {
            let last = inputs.pop();
            match last {
                Some(value) => {
                    reversed.push(value);
                },
                None => {},
            }
        }
        let world = MemoryWorld { inputs: reversed, outputs: Vec::new(), logs: Vec::new() };
        assert(world.pending() =~= int_values(original));
        assert(world.emitted() =~= Seq::<int>::empty());
        world
    }

    /// Appends an input, to be delivered after those that are left.
    pub fn push_input(&mut self, value: BigInt)
        ensures
            final(self).pending() == old(self).pending().push(int_value(value)),
            final(self).emitted() == old(self).emitted(),
            final(self).log_lines() == old(self).log_lines(),
    {
        self.inputs.insert(0, value);
        assert(self.pending() =~= old(self).pending().push(int_value(value)));
    }

    /// Whether an input is left.
    pub fn has_input(&self) -> (r: bool)
        ensures
            r == (self.pending().len() > 0),
    {
        self.inputs.len() > 0
    }

    /// The outputs so far, oldest first.
    pub fn output(&self) -> (r: &[BigInt])
        ensures
            int_values(r@) == self.emitted(),
    {
        self.outputs.as_slice()
    }

    /// The outputs, oldest first.
    pub fn into_output(self) -> (r: Vec<BigInt>)
        ensures
            int_values(r@) == self.emitted(),
    {
        self.outputs
    }

    /// The log lines so far, oldest first.
    pub fn logs(&self) -> (r: &[String])
        ensures
            r@ == self.log_lines(),
    {
        self.logs.as_slice()
    }

    /// The next input, or `InvalidInput` where none is left.
    pub fn get(&mut self) -> (r: Result<BigInt, Error>)
        ensures
            final(self).emitted() == old(self).emitted(),
            final(self).log_lines() == old(self).log_lines(),
            match r {
                Ok(value) => {
                    &&& old(self).pending().len() > 0
                    &&& int_value(value) == old(self).pending()[0]
                    &&& final(self).pending() == old(self).pending().skip(1)
                },
                Err(error) => {
                    &&& error == Error::InvalidInput
                    &&& old(self).pending().len() == 0
                    &&& final(self).pending() == old(self).pending()
                },
            },
    {
        match self.inputs.pop() {
            Some(val) => {
                assert(self.pending() =~= old(self).pending().skip(1));
                Ok(val)
            },
            None => Err(Error::InvalidInput),
        }
    }

    /// Appends an output.
    pub fn put(&mut self, val: &BigInt)
        ensures
            final(self).pending() == old(self).pending(),
            final(self).emitted() == old(self).emitted().push(int_value(*val)),
            final(self).log_lines() == old(self).log_lines(),
    {
        self.outputs.push(copy(val));
        assert(self.emitted() =~= old(self).emitted().push(int_value(*val)));
    }

    /// Appends a log line.
    pub fn log(&mut self, message: String)
        ensures
            final(self).pending() == old(self).pending(),
            final(self).emitted() == old(self).emitted(),
            final(self).log_lines() == old(self).log_lines().push(message),
    {
        self.logs.push(message);
    }
}

} // verus!
