//! Storage and invalidation core of an incremental computation cache.
//!
//! Each task keeps its records (cell contents, in-progress markers, dependents,
//! dirty flag) in an adaptive store that is flat while small and grouped by a
//! record index once it grows. The cell-update operation writes a cell and
//! decides which dependent tasks must be invalidated.

pub mod assoc;
pub mod data;
pub mod id;
pub mod registry;
pub mod storage;
pub mod update_cell;

pub use data::{CachedDataItem, CachedDataItemIndex, CachedDataItemKey, CachedDataItemValue};
pub use id::{CellId, TaskId};
pub use registry::register;
pub use storage::{pair_lock_order, update_count, InnerStorage, INDEX_THRESHOLD};
pub use update_cell::{UpdateCellOperation, UpdateCellOutcome};
