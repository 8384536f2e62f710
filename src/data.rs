use vstd::prelude::*;

use crate::id::{CellId, TaskId};

verus! {

/// The grouping of a record key: the kind of record it belongs to.
#[derive(Clone, Copy, Debug, PartialEq, Eq, Structural, Hash)]
pub enum CachedDataItemIndex {
    CellData,
    InProgressCell,
    CellDependent,
    Dirty,
}

/// The key of a task record. It is unique within its kind for one task.
#[derive(Clone, Copy, Debug, PartialEq, Eq, Structural, Hash)]
pub enum CachedDataItemKey {
    /// The content of a cell.
    CellData { cell: CellId },
    /// A computation of a cell that is in flight.
    InProgressCell { cell: CellId },
    /// The dependent `task` has used the value of `cell`.
    CellDependent { cell: CellId, task: TaskId },
    /// The task's output is known to be stale.
    Dirty,
}

/// The payload of a task record.
#[derive(Clone, Copy, Debug, PartialEq, Eq, Structural, Hash)]
pub enum CachedDataItemValue {
    /// A handle of the shared value stored in the cell.
    CellData { value: u64 },
    /// A handle of the event that readers waiting for the cell block on.
    InProgressCell { event: u64 },
    CellDependent,
    Dirty,
}

/// One record: a key with its payload.
#[derive(Clone, Copy, Debug, PartialEq, Eq, Structural, Hash)]
pub enum CachedDataItem {
    CellData { cell: CellId, value: u64 },
    InProgressCell { cell: CellId, event: u64 },
    CellDependent { cell: CellId, task: TaskId },
    Dirty,
}

impl CachedDataItemKey {
    /// The group a key falls into: the kind of its record.
    pub open spec fn spec_index(&self) -> CachedDataItemIndex {
        match self {
            CachedDataItemKey::CellData { .. } => CachedDataItemIndex::CellData,
            CachedDataItemKey::InProgressCell { .. } => CachedDataItemIndex::InProgressCell,
            CachedDataItemKey::CellDependent { .. } => CachedDataItemIndex::CellDependent,
            CachedDataItemKey::Dirty => CachedDataItemIndex::Dirty,
        }
    }

    pub fn index(&self) -> (r: CachedDataItemIndex)
        ensures
            r == self.spec_index(),
    {
        match self {
            CachedDataItemKey::CellData { .. } => CachedDataItemIndex::CellData,
            CachedDataItemKey::InProgressCell { .. } => CachedDataItemIndex::InProgressCell,
            CachedDataItemKey::CellDependent { .. } => CachedDataItemIndex::CellDependent,
            CachedDataItemKey::Dirty => CachedDataItemIndex::Dirty,
        }
    }
}

impl CachedDataItem {
    pub open spec fn spec_key(self) -> CachedDataItemKey {
        match self {
            CachedDataItem::CellData { cell, .. } => CachedDataItemKey::CellData { cell },
            CachedDataItem::InProgressCell { cell, .. } => CachedDataItemKey::InProgressCell { cell },
            CachedDataItem::CellDependent { cell, task } => CachedDataItemKey::CellDependent {
                cell,
                task,
            },
            CachedDataItem::Dirty => CachedDataItemKey::Dirty,
        }
    }

    pub open spec fn spec_value(self) -> CachedDataItemValue {
        match self {
            CachedDataItem::CellData { value, .. } => CachedDataItemValue::CellData { value },
            CachedDataItem::InProgressCell { event, .. } => CachedDataItemValue::InProgressCell {
                event,
            },
            CachedDataItem::CellDependent { .. } => CachedDataItemValue::CellDependent,
            CachedDataItem::Dirty => CachedDataItemValue::Dirty,
        }
    }

    /// Whether a value may stand under a key: both name the same kind of record.
    pub open spec fn kinds_match(key: CachedDataItemKey, value: CachedDataItemValue) -> bool {
        match (key, value) {
            (CachedDataItemKey::CellData { .. }, CachedDataItemValue::CellData { .. }) => true,
            (
                CachedDataItemKey::InProgressCell { .. },
                CachedDataItemValue::InProgressCell { .. },
            ) => true,
            (CachedDataItemKey::CellDependent { .. }, CachedDataItemValue::CellDependent) => true,
            (CachedDataItemKey::Dirty, CachedDataItemValue::Dirty) => true,
            _ => false,
        }
    }

    /// Splits a record into its key and its payload.
    pub fn into_key_and_value(self) -> (r: (CachedDataItemKey, CachedDataItemValue))
        ensures
            r.0 == self.spec_key(),
            r.1 == self.spec_value(),
            Self::kinds_match(r.0, r.1),
    {
        match self {
            CachedDataItem::CellData { cell, value } => (
                CachedDataItemKey::CellData { cell },
                CachedDataItemValue::CellData { value },
            ),
            CachedDataItem::InProgressCell { cell, event } => (
                CachedDataItemKey::InProgressCell { cell },
                CachedDataItemValue::InProgressCell { event },
            ),
            CachedDataItem::CellDependent { cell, task } => (
                CachedDataItemKey::CellDependent { cell, task },
                CachedDataItemValue::CellDependent,
            ),
            CachedDataItem::Dirty => (CachedDataItemKey::Dirty, CachedDataItemValue::Dirty),
        }
    }

    /// Joins a key and a payload of the same kind into a record.
    pub fn from_key_and_value(key: CachedDataItemKey, value: CachedDataItemValue) -> (r: Self)
        requires
            Self::kinds_match(key, value),
        ensures
            r.spec_key() == key,
            r.spec_value() == value,
    {
        match (key, value) {
            (CachedDataItemKey::CellData { cell }, CachedDataItemValue::CellData { value }) => {
                CachedDataItem::CellData { cell, value }
            },
            (
                CachedDataItemKey::InProgressCell { cell },
                CachedDataItemValue::InProgressCell { event },
            ) => CachedDataItem::InProgressCell { cell, event },
            (CachedDataItemKey::CellDependent { cell, task }, _) => CachedDataItem::CellDependent {
                cell,
                task,
            },
            _ => CachedDataItem::Dirty,
        }
    }
}

} // verus!
