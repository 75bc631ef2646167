//! The memory of the virtual machine: a map from addresses to integers that
//! grows on demand.

use crate::value::int_value;
use num_bigint::BigInt;
use std::collections::BTreeMap;
use vstd::prelude::*;

verus! {

broadcast use vstd::std_specs::btree::group_btree_axioms;

/// The cells that have been stored in.
#[derive(Debug)]
pub struct Memory {
    cells: BTreeMap<i64, BigInt>,
}

impl View for Memory {
    type V = Map<int, int>;

    closed spec fn view(&self) -> Map<int, int> {
        Map::new(
            |a: int| i64::MIN <= a <= i64::MAX && self.cells@.contains_key(a as i64),
            |a: int| int_value(self.cells@[a as i64]),
        )
    }
}

impl Memory {
    /// The memory with nothing in it but `accumulator` at cell 0.
    pub fn new(accumulator: BigInt) -> (memory: Memory)
        ensures
            memory@ == Map::<int, int>::empty().insert(0, int_value(accumulator)),
    {
        let mut cells: BTreeMap<i64, BigInt> = BTreeMap::new();
        cells.insert(0, accumulator);
        let memory = Memory { cells };
        assert(memory@ =~= Map::<int, int>::empty().insert(0, int_value(accumulator)));
        memory
    }

    /// The value of a cell, if it was stored in.
    pub fn get(&self, address: i64) -> (r: Option<&BigInt>)
        ensures
            match r {
                Some(value) => self@.contains_key(address as int) && int_value(*value)
                    == self@[address as int],
                None => !self@.contains_key(address as int),
            },
    {
        self.cells.get(&address)
    }

    /// Stores `value` in a cell.
    pub fn insert(&mut self, address: i64, value: BigInt)
        ensures
            final(self)@ == old(self)@.insert(address as int, int_value(value)),
    {
        self.cells.insert(address, value);
        assert(self@ =~= old(self)@.insert(address as int, int_value(value)));
    }
}

} // verus!
