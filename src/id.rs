use vstd::prelude::*;

verus! {

/// Identifies one task (a unit of computation). Ordered by its number, which
/// gives the total order used when two tasks are locked together.
#[derive(Clone, Copy, Debug, PartialEq, Eq, Structural, Hash, PartialOrd, Ord)]
pub struct TaskId(pub u32);

/// Identifies one value slot of a task's output: a value type and an index
/// among the cells of that type.
#[derive(Clone, Copy, Debug, PartialEq, Eq, Structural, Hash)]
pub struct CellId {
    pub type_id: u32,
    pub index: u32,
}

} // verus!
