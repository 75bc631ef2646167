//! Memory layout: which cell each variable gets.
//!
//! Cell `0` is the accumulator, and the first variable of every context is its
//! mirror. The elements of the arrays come next, from cell `1` on, array after
//! array in the order of declaration. Then every array gets one more cell,
//! which holds the array's base address, and last come the scalars, in the
//! order of their indices. Arrays thus precede all scalars.

use crate::intermediate::variable::{shapes, Shape, UniqueVariable, Variable, VariableIndex};
use vstd::prelude::*;

verus! {

/// The address of a cell.
#[derive(Debug, Clone, Copy, PartialEq, Eq, PartialOrd, Ord, Structural)]
pub struct MemoryLocation(pub u64);

/// A range of cells, both ends included.
#[derive(Debug, Clone, Copy, PartialEq, Eq, PartialOrd, Ord, Structural)]
pub struct MemoryRange(pub MemoryLocation, pub MemoryLocation);

impl MemoryRange {
    pub fn new(start: u64, end: u64) -> (r: Self)
        ensures
            r == MemoryRange(MemoryLocation(start), MemoryLocation(end)),
    {
        MemoryRange(MemoryLocation(start), MemoryLocation(end))
    }
}

/// The parts of the memory that are in use.
#[derive(Debug, Clone, Copy, PartialEq, Eq, PartialOrd, Ord, Structural)]
pub struct Segments {
    /// The elements of all arrays.
    pub arrays: Option<MemoryRange>,
    /// The cells of the arrays' bases and of the scalars.
    pub variables: Option<MemoryRange>,
}

/// The parts of the memory that the layout of `variables` uses: the
/// elements of the arrays from cell 1 on, where there are any, and behind
/// them the cells of the bases and of the scalars, where there are any.
pub open spec fn segments_of(variables: Seq<Shape>) -> Segments {
    let elements = array_cells(variables);
    let next = elements + array_count(variables) + unit_count(variables);
    Segments {
        arrays: if elements > 0 {
            Some(MemoryRange(MemoryLocation(1), MemoryLocation(elements as u64)))
        } else {
            None
        },
        variables: if next > elements + 1 {
            Some(
                MemoryRange(
                    MemoryLocation((elements + 1) as u64),
                    MemoryLocation((next - 1) as u64),
                ),
            )
        } else {
            None
        },
    }
}

impl Segments {
    /// The parts with one more scalar, at `cell`: it is the last of the
    /// scalars, and the first where there was none.
    pub open spec fn with_scalar(self, cell: MemoryLocation) -> Segments {
        Segments {
            variables: match self.variables {
                Some(MemoryRange(first, _)) => Some(MemoryRange(first, cell)),
                None => Some(MemoryRange(cell, cell)),
            },
            ..self
        }
    }
}

/// What is known of one variable: its cell and, for the base of an array or a
/// literal, the value that the cell holds when the program proper starts.
#[derive(Debug, Clone, Copy, PartialEq, Eq, Structural)]
pub struct Slot {
    pub location: MemoryLocation,
    pub value: Option<i64>,
}

/// Number of cells that the arrays among `variables` take.
pub open spec fn array_cells(variables: Seq<Shape>) -> nat
    decreases variables.len(),
{
    if variables.len() == 0 {
        0
    } else {
        array_cells(variables.drop_last()) + if variables.last() is Array {
            variables.last().size()
        } else {
            0
        }
    }
}

/// Number of arrays among `variables`.
pub open spec fn array_count(variables: Seq<Shape>) -> nat
    decreases variables.len(),
{
    if variables.len() == 0 {
        0
    } else {
        array_count(variables.drop_last()) + if variables.last() is Array {
            1nat
        } else {
            0nat
        }
    }
}

/// Number of units among `variables`.
pub open spec fn unit_count(variables: Seq<Shape>) -> nat
    decreases variables.len(),
{
    if variables.len() == 0 {
        0
    } else {
        unit_count(variables.drop_last()) + if variables.last() is Unit {
            1nat
        } else {
            0nat
        }
    }
}

/// The cell of the variable at position `i`: `0` for the accumulator's
/// mirror; for an array the cell that holds its base; for a scalar its one
/// cell.
pub open spec fn cell_of(variables: Seq<Shape>, i: int) -> int
    recommends
        0 <= i < variables.len(),
{
    if i == 0 {
        0
    } else if variables[i] is Array {
        (1 + array_cells(variables) + array_count(variables.take(i))) as int
    } else {
        (array_cells(variables) + array_count(variables) + unit_count(variables.take(i))) as int
    }
}

/// First cell of the elements of the array at position `i`.
pub open spec fn segment_start(variables: Seq<Shape>, i: int) -> int
    recommends
        0 <= i < variables.len(),
{
    (1 + array_cells(variables.take(i))) as int
}

/// The base of the array at position `i`: what added to an index gives the
/// element's cell.
pub open spec fn base_of(variables: Seq<Shape>, i: int) -> int
    recommends
        0 <= i < variables.len(),
        variables[i] is Array,
{
    segment_start(variables, i) - variables[i]->start
}

/// The cell of element `k` of the array at position `i`.
pub open spec fn element_cell(variables: Seq<Shape>, i: int, k: int) -> int
    recommends
        0 <= i < variables.len(),
        variables[i] is Array,
{
    base_of(variables, i) + k
}

/// The value that the cell of the variable at position `i` is given before
/// the program proper starts, as far as the layout decides it: an array's
/// cell holds the array's base.
pub open spec fn slot_of(variables: Seq<Shape>, i: int) -> Slot
    recommends
        0 <= i < variables.len(),
{
    Slot {
        location: MemoryLocation(cell_of(variables, i) as u64),
        value: if variables[i] is Array {
            Some(base_of(variables, i) as i64)
        } else {
            None
        },
    }
}

/// The slots of all variables.
pub open spec fn layout(variables: Seq<Shape>) -> Seq<Slot> {
    Seq::new(variables.len(), |i: int| slot_of(variables, i))
}

/// The first variable is a unit and no array has an empty range.
pub open spec fn layout_input(variables: Seq<Shape>) -> bool {
    &&& variables.len() > 0
    &&& variables[0] is Unit
    &&& forall|i: int| 0 <= i < variables.len() ==> (#[trigger] variables[i]).well_formed()
}

/// Every cell and every array base can be written as a machine address:
/// the arrays, one cell for each variable, and `reserve` cells more fit below
/// `i64::MAX`, and so does every array's base.
pub open spec fn layout_fits(variables: Seq<Shape>, reserve: nat) -> bool {
    &&& array_cells(variables) + variables.len() + reserve <= i64::MAX
    &&& forall|i: int|
        0 <= i < variables.len() && (#[trigger] variables[i]) is Array ==> base_of(
            variables,
            i,
        ) <= i64::MAX
}

pub proof fn lemma_counts_take(variables: Seq<Shape>, i: int)
    requires
        0 <= i <= variables.len(),
    ensures
        array_cells(variables.take(i)) <= array_cells(variables),
        array_count(variables.take(i)) <= array_count(variables),
        unit_count(variables.take(i)) <= unit_count(variables),
        array_count(variables.take(i)) + unit_count(variables.take(i)) == i,
        i < variables.len() ==> array_cells(variables.take(i + 1)) == array_cells(
            variables.take(i),
        ) + if variables[i] is Array {
            variables[i].size()
        } else {
            0
        },
        i < variables.len() ==> array_count(variables.take(i + 1)) == array_count(
            variables.take(i),
        ) + if variables[i] is Array {
            1nat
        } else {
            0nat
        },
        i < variables.len() ==> unit_count(variables.take(i + 1)) == unit_count(
            variables.take(i),
        ) + if variables[i] is Unit {
            1nat
        } else {
            0nat
        },
    decreases variables.len() - i,
{
    if i < variables.len() {
        lemma_counts_take(variables, i + 1);
        assert(variables.take(i + 1).drop_last() =~= variables.take(i));
        assert(variables.take(i + 1).last() == variables[i]);
    } else {
        assert(variables.take(i) =~= variables);
        lemma_counts_total(variables);
    }
}

pub proof fn lemma_counts_total(variables: Seq<Shape>)
    ensures
        array_count(variables) + unit_count(variables) == variables.len(),
    decreases variables.len(),
{
    if variables.len() > 0 {
        lemma_counts_total(variables.drop_last());
    }
}

/// Counting up to `i` gives no more than counting up to `j`, and where an
/// array (a unit) stands at `i < j`, strictly less by its size (by one).
pub proof fn lemma_counts_monotone(variables: Seq<Shape>, i: int, j: int)
    requires
        0 <= i <= j <= variables.len(),
    ensures
        array_cells(variables.take(i)) <= array_cells(variables.take(j)),
        array_count(variables.take(i)) <= array_count(variables.take(j)),
        unit_count(variables.take(i)) <= unit_count(variables.take(j)),
        i < j && variables[i] is Array ==> array_cells(variables.take(i))
            + variables[i].size() <= array_cells(variables.take(j)),
        i < j && variables[i] is Array ==> array_count(variables.take(i)) < array_count(
            variables.take(j),
        ),
        i < j && variables[i] is Unit ==> unit_count(variables.take(i)) < unit_count(
            variables.take(j),
        ),
    decreases j - i,
{
    if i < j {
        lemma_counts_monotone(variables, i, j - 1);
        lemma_counts_take(variables, j - 1);
        lemma_counts_take(variables, i);
    }
}

/// Every cell lies below the number of array cells and variables.
pub proof fn lemma_cell_bound(variables: Seq<Shape>, i: int)
    requires
        0 <= i < variables.len(),
    ensures
        0 <= cell_of(variables, i) <= array_cells(variables) + variables.len(),
{
    lemma_counts_take(variables, i);
    lemma_counts_monotone(variables, i, variables.len() as int);
    lemma_counts_total(variables);
    assert(variables.take(variables.len() as int) =~= variables);
}

/// `k` is an index of the array at position `i`.
pub open spec fn is_element(variables: Seq<Shape>, i: int, k: int) -> bool {
    &&& 0 <= i < variables.len()
    &&& variables[i] is Array
    &&& variables[i]->start <= k <= variables[i]->end
}

/// The cells of the layout are distinct, and only the accumulator's mirror is
/// at cell `0`.
///
/// Two different variables have different cells; the cell of every variable
/// but the first lies above the array cells; every element of an array lies
/// among the array cells, at the cell of the array's first element plus the
/// distance of the indices; and two elements of arrays share a cell only if
/// they are the same element of the same array.
pub proof fn lemma_layout_distinct(variables: Seq<Shape>)
    requires
        layout_input(variables),
    ensures
        forall|i: int, j: int|
            0 <= i < j < variables.len() ==> cell_of(variables, i) != cell_of(variables, j),
        forall|i: int| 1 <= i < variables.len() ==> cell_of(variables, i) > array_cells(variables),
        forall|i: int, k: int| #[trigger]
            is_element(variables, i, k) ==> {
                &&& 1 <= element_cell(variables, i, k) <= array_cells(variables)
                &&& element_cell(variables, i, k) == element_cell(
                    variables,
                    i,
                    variables[i]->start as int,
                ) + (k - variables[i]->start)
            },
        forall|i: int, k: int, j: int, l: int|
            #![trigger is_element(variables, i, k), is_element(variables, j, l)]
            is_element(variables, i, k) && is_element(variables, j, l) && element_cell(
                variables,
                i,
                k,
            ) == element_cell(variables, j, l) ==> i == j && k == l,
{
    assert forall|i: int, j: int| 0 <= i < j < variables.len() implies cell_of(variables, i)
        != cell_of(variables, j) by {
        lemma_counts_monotone(variables, i, j);
        lemma_counts_take(variables, i);
        lemma_counts_take(variables, j);
        lemma_counts_monotone(variables, 0, i);
        lemma_counts_monotone(variables, 0, j);
        lemma_counts_take(variables, 0);
        lemma_counts_monotone(variables, i, variables.len() as int);
        lemma_counts_monotone(variables, j, variables.len() as int);
        assert(variables.take(variables.len() as int) =~= variables);
        assert(variables.take(0).len() == 0);
    }
    assert forall|i: int| 1 <= i < variables.len() implies cell_of(variables, i) > array_cells(
        variables,
    ) by {
        lemma_counts_monotone(variables, 0, i);
        lemma_counts_take(variables, 0);
        lemma_counts_take(variables, i);
        lemma_counts_monotone(variables, i, variables.len() as int);
        assert(variables.take(variables.len() as int) =~= variables);
        assert(variables.take(0).len() == 0);
    }
    assert forall|i: int, k: int| #[trigger] is_element(variables, i, k) implies {
        &&& 1 <= element_cell(variables, i, k) <= array_cells(variables)
        &&& element_cell(variables, i, k) == element_cell(
            variables,
            i,
            variables[i]->start as int,
        ) + (k - variables[i]->start)
    } by {
        lemma_counts_monotone(variables, i, variables.len() as int);
        assert(variables.take(variables.len() as int) =~= variables);
    }
    assert forall|i: int, k: int, j: int, l: int|
        #![trigger is_element(variables, i, k), is_element(variables, j, l)]
        is_element(variables, i, k) && is_element(variables, j, l) && element_cell(variables, i, k)
            == element_cell(variables, j, l) implies i == j && k == l by {
        if i < j {
            lemma_counts_monotone(variables, i, j);
        } else if j < i {
            lemma_counts_monotone(variables, j, i);
        }
    }
}

/// The layout of a program's variables, as the translator holds it.
#[derive(Debug)]
pub struct Memory {
    storage: Vec<Slot>,
    segments: Segments,
    next: u64,
}

impl Memory {
    /// The slots of the variables, by index.
    pub closed spec fn slots(&self) -> Seq<Slot> {
        self.storage@
    }

    /// The cell that the next scalar gets.
    pub closed spec fn next_cell(&self) -> u64 {
        self.next
    }

    /// The parts of the memory that are in use.
    pub closed spec fn parts(&self) -> Segments {
        self.segments
    }

    /// The parts of the memory that are in use.
    pub fn segments(&self) -> (r: Segments)
        ensures
            r == self.parts(),
    {
        self.segments
    }

    /// The memory holds the layout of `variables`: every variable has its
    /// slot, at the cell that [`cell_of`] gives, and the next scalar will get
    /// the cell after the last.
    pub open spec fn describes(&self, variables: Seq<Shape>) -> bool {
        &&& self.slots().len() == variables.len()
        &&& forall|i: int|
            0 <= i < variables.len() ==> (#[trigger] self.slots()[i]).location.0 == cell_of(
                variables,
                i,
            )
        &&& self.next_cell() == array_cells(variables) + array_count(variables) + unit_count(
            variables,
        )
    }

    /// No variable has a cell yet.
    pub fn new() -> (memory: Memory)
        ensures
            memory.slots().len() == 0,
            memory.parts() == (Segments { arrays: None, variables: None }),
    {
        Memory { storage: Vec::new(), segments: Segments { arrays: None, variables: None }, next: 0 }
    }

    /// Whether the layout of `variables` and `reserve` further scalars fits
    /// the machine's addresses.
    pub fn fits(variables: &[UniqueVariable], reserve: u64) -> (r: bool)
        requires
            layout_input(shapes(variables@)),
        ensures
            r == layout_fits(shapes(variables@), reserve as nat),
    {
        let ghost sh = shapes(variables@);
        let n = variables.len();
        let limit: u128 = 9223372036854775807u128;
        let mut total: u128 = 0;
        let mut i: usize = 0;
        let mut bases_fit = true;
        while i < n
            invariant
                n == variables@.len(),
                sh == shapes(variables@),
                i <= n,
                limit == i64::MAX,
                total == array_cells(sh.take(i as int)),
                total <= limit,
                layout_input(sh),
                bases_fit <==> forall|j: int|
                    0 <= j < i && (#[trigger] sh[j]) is Array ==> base_of(sh, j) <= i64::MAX,
            decreases n - i,
        {
            proof {
                lemma_counts_take(sh, i as int);
            }
            match variables[i].variable() {
                Variable::Array { start, .. } => {
                    let base: i128 = 1 + total as i128 - *start as i128;
                    if base > 9223372036854775807i128 {
                        bases_fit = false;
                    }
                    let size = variables[i].variable().size();
                    if size > limit - total {
                        proof {
                            lemma_counts_monotone(sh, i + 1, n as int);
                            assert(sh.take(n as int) =~= sh);
                        }
                        return false;
                    }
                    total = total + size;
                },
                Variable::Unit { .. } => {},
            }
            i += 1;
        }
        assert(sh.take(n as int) =~= sh);
        bases_fit && (n as u128) <= limit - total && (reserve as u128) <= limit - total
            - n as u128
    }

    /// Lays the variables out: see [`cell_of`] and [`slot_of`].
    pub fn allocate(&mut self, variables: &[UniqueVariable])
        requires
            layout_input(shapes(variables@)),
            layout_fits(shapes(variables@), 0),
        ensures
            final(self).describes(shapes(variables@)),
            final(self).slots() == layout(shapes(variables@)),
            final(self).parts() == segments_of(shapes(variables@)),
    {
        let ghost sh = shapes(variables@);
        let n = variables.len();
        let mut total: u64 = 0;
        let mut arrays: u64 = 0;
        let mut i: usize = 0;
        while i < n
            invariant
                n == variables@.len(),
                sh == shapes(variables@),
                i <= n,
                total == array_cells(sh.take(i as int)),
                arrays == array_count(sh.take(i as int)),
                layout_fits(sh, 0),
            decreases n - i,
        {
            proof {
                lemma_counts_take(sh, i as int);
                lemma_counts_monotone(sh, i + 1, n as int);
                assert(sh.take(n as int) =~= sh);
            }
            match variables[i].variable() {
                Variable::Array { .. } => {
                    let size = variables[i].variable().size();
                    total = total + size as u64;
                    arrays = arrays + 1;
                },
                Variable::Unit { .. } => {},
            }
            i += 1;
        }
        assert(sh.take(n as int) =~= sh);
        proof {
            lemma_counts_total(sh);
        }
        let mut storage: Vec<Slot> = Vec::new();
        let mut start: u64 = 1;
        let mut holder: u64 = total + 1;
        let mut scalar: u64 = total + arrays;
        let mut j: usize = 0;
        while j < n
            invariant
                n == variables@.len(),
                sh == shapes(variables@),
                j <= n,
                total == array_cells(sh),
                arrays == array_count(sh),
                start == 1 + array_cells(sh.take(j as int)),
                holder == 1 + total + array_count(sh.take(j as int)),
                scalar == total + arrays + unit_count(sh.take(j as int)),
                layout_fits(sh, 0),
                layout_input(sh),
                storage@.len() == j,
                forall|k: int| 0 <= k < j ==> #[trigger] storage@[k] == slot_of(sh, k),
                forall|k: int| 0 <= k < j ==> (#[trigger] storage@[k]).location.0 == cell_of(sh, k),
            decreases n - j,
        {
            proof {
                lemma_counts_take(sh, j as int);
                lemma_counts_monotone(sh, j + 1, n as int);
                lemma_counts_total(sh);
                assert(sh.take(n as int) =~= sh);
                assert(sh.take(0).len() == 0);
            }
            match variables[j].variable() {
                Variable::Array { start: low, .. } => {
                    let size = variables[j].variable().size();
                    let base: i64 = (start as i128 - *low as i128) as i64;
                    let location = if j == 0 {
                        0
                    } else {
                        holder
                    };
                    storage.push(Slot { location: MemoryLocation(location), value: Some(base) });
                    start = start + size as u64;
                    holder = holder + 1;
                },
                Variable::Unit { .. } => {
                    let location = if j == 0 {
                        0
                    } else {
                        scalar
                    };
                    storage.push(Slot { location: MemoryLocation(location), value: None });
                    scalar = scalar + 1;
                },
            }
            j += 1;
        }
        assert(sh.take(n as int) =~= sh);
        assert(storage@ =~= layout(sh));
        self.storage = storage;
        self.next = scalar;
        self.segments = Segments {
            arrays: if total > 0 {
                Some(MemoryRange::new(1, total))
            } else {
                None
            },
            variables: if scalar > total + 1 {
                Some(MemoryRange::new(total + 1, scalar - 1))
            } else {
                None
            },
        };
    }

    /// The slot of the variable at `index`.
    pub fn slot(&self, index: VariableIndex) -> (r: Slot)
        requires
            index.value() < self.slots().len(),
        ensures
            r == self.slots()[index.value() as int],
    {
        self.storage[index.value()]
    }

    /// The cell of the variable at `index`.
    pub fn get_location(&self, index: VariableIndex) -> (r: MemoryLocation)
        requires
            index.value() < self.slots().len(),
        ensures
            r == self.slots()[index.value() as int].location,
    {
        self.storage[index.value()].location
    }

    /// Gives the next scalar its cell. `index` is the scalar's index: the
    /// number of variables laid out so far.
    pub fn add_variable(&mut self, index: VariableIndex, value: Option<i64>) -> (r: MemoryLocation)
        requires
            index.value() == old(self).slots().len(),
            old(self).next_cell() < u64::MAX,
        ensures
            r.0 == old(self).next_cell(),
            final(self).next_cell() == old(self).next_cell() + 1,
            final(self).slots() == old(self).slots().push(Slot { location: r, value }),
            final(self).parts() == old(self).parts().with_scalar(r),
    {
        let last = MemoryLocation(self.next);
        self.storage.push(Slot { location: last, value });
        self.next = self.next + 1;
        self.segments.variables = match self.segments.variables {
            Some(MemoryRange(first, _)) => Some(MemoryRange(first, last)),
            None => Some(MemoryRange(last, last)),
        };
        last
    }

    /// Records the value that the cell of the variable at `index` is to hold.
    pub fn set_value(&mut self, index: VariableIndex, value: i64)
        requires
            index.value() < old(self).slots().len(),
        ensures
            final(self).next_cell() == old(self).next_cell(),
            final(self).parts() == old(self).parts(),
            final(self).slots() == old(self).slots().update(
                index.value() as int,
                Slot { location: old(self).slots()[index.value() as int].location, value: Some(value) },
            ),
    {
        let location = self.storage[index.value()].location;
        self.storage[index.value()] = Slot { location, value: Some(value) };
    }
}

} // verus!
