//! Writing a cell, and deciding which dependent tasks that write invalidates.
use vstd::prelude::*;

use crate::assoc::distinct_keys;
use crate::data::{CachedDataItem, CachedDataItemIndex, CachedDataItemKey, CachedDataItemValue};
use crate::id::{CellId, TaskId};
use crate::storage::{set_key, InnerStorage};

verus! {

/// The tasks that recorded a read of `cell`.
pub open spec fn dependents_of(
    m: Map<CachedDataItemKey, CachedDataItemValue>,
    cell: CellId,
) -> Set<TaskId> {
    Set::new(|t: TaskId| m.contains_key(CachedDataItemKey::CellDependent { cell, task: t }))
}

/// The event of the in-progress marker of `cell`, if there is one.
pub open spec fn waiting_event(
    m: Map<CachedDataItemKey, CachedDataItemValue>,
    cell: CellId,
) -> Option<u64> {
    match m.get(CachedDataItemKey::InProgressCell { cell }) {
        Some(CachedDataItemValue::InProgressCell { event }) => Some(event),
        _ => None,
    }
}

/// The cell held nothing and the task is not marked dirty: the write is the
/// first computation of a pure task, and nothing observable changed.
pub open spec fn is_first_computation(
    m: Map<CachedDataItemKey, CachedDataItemValue>,
    cell: CellId,
) -> bool {
    !m.contains_key(CachedDataItemKey::CellData { cell }) && !m.contains_key(CachedDataItemKey::Dirty)
}

/// The records after `cell` was given `content` and its in-progress marker
/// was taken out.
pub open spec fn after_cell_update(
    m: Map<CachedDataItemKey, CachedDataItemValue>,
    cell: CellId,
    content: Option<u64>,
) -> Map<CachedDataItemKey, CachedDataItemValue> {
    let stored = match content {
        Some(value) => Some(CachedDataItemValue::CellData { value }),
        None => None,
    };
    set_key(m, CachedDataItemKey::CellData { cell }, stored).remove(
        CachedDataItemKey::InProgressCell { cell },
    )
}

/// What a cell update leaves to its caller, once the task's store is released.
pub struct UpdateCellOutcome {
    /// The event of the in-progress marker that was taken out: every reader
    /// waiting on it is to be woken.
    pub notify: Option<u64>,
    /// The dependent tasks to invalidate, each once; `None` when the write
    /// cannot have changed anything observable.
    pub invalidate: Option<Vec<TaskId>>,
}

/// Writes a new (or no) content into a task's cell.
pub struct UpdateCellOperation;

impl UpdateCellOperation {
    /// Stores `content` in `cell` of the task whose records are `task` (takes
    /// the content out on `None`), takes out the cell's in-progress marker,
    /// and decides whether the readers of the cell are to be invalidated.
    pub fn run(task: &mut InnerStorage, cell: CellId, content: Option<u64>) -> (r: UpdateCellOutcome)
        requires
            old(task).wf(),
        ensures
            final(task).wf(),
            final(task)@ == after_cell_update(old(task)@, cell, content),
            r.notify == waiting_event(old(task)@, cell),
            r.invalidate is None <==> is_first_computation(old(task)@, cell),
            r.invalidate matches Some(d) ==> d@.no_duplicates() && d@.to_set() == dependents_of(
                old(task)@,
                cell,
            ),
    {
        let ghost start = task@;
        let old_content = match content {
            Some(value) => task.insert(CachedDataItem::CellData { cell, value }),
            None => task.remove(&CachedDataItemKey::CellData { cell }),
        };
        let notify = match task.remove(&CachedDataItemKey::InProgressCell { cell }) {
            Some(CachedDataItemValue::InProgressCell { event }) => Some(event),
            _ => None,
        };
        assert(task@ =~= after_cell_update(start, cell, content));
        let recomputed = old_content.is_none() && !task.has_key(&CachedDataItemKey::Dirty);
        if recomputed {
            return UpdateCellOutcome { notify, invalidate: None };
        }
        let dependent = Self::dependents(task, cell);
        proof {
            assert(dependents_of(task@, cell) =~= dependents_of(start, cell));
        }
        UpdateCellOutcome { notify, invalidate: Some(dependent) }
    }

    /// The tasks recorded as readers of `cell`, each once.
    fn dependents(task: &InnerStorage, cell: CellId) -> (r: Vec<TaskId>)
        requires
            task.wf(),
        ensures
            r@.no_duplicates(),
            r@.to_set() == dependents_of(task@, cell),
    {
        let records = task.iter(CachedDataItemIndex::CellDependent);
        let mut r: Vec<TaskId> = Vec::new();
        let mut i: usize = 0;
        while i < records.len()
            invariant
                i <= records@.len(),
                distinct_keys(records@),
                r@.no_duplicates(),
                forall|t: TaskId|
                    #[trigger] r@.contains(t) <==> exists|m: int|
                        0 <= m < i && (#[trigger] records@[m]).0 == (CachedDataItemKey::CellDependent {
                            cell,
                            task: t,
                        }),
            decreases records@.len() - i,
        {
            match records[i].0 {
                CachedDataItemKey::CellDependent { cell: dependent_cell, task: t } => {
                    if dependent_cell == cell {
                        proof {
                            assert forall|m: int| 0 <= m < r@.len() implies r@[m] != t by {
                                let u = r@[m];
                                assert(r@.contains(u));
                                if u == t {
                                    let n = choose|n: int|
                                        0 <= n < i && (#[trigger] records@[n]).0 == (
                                        CachedDataItemKey::CellDependent { cell, task: u });
                                    assert(records@[n].0 == records@[i as int].0);
                                }
                            }
                        }
                        let ghost r0 = r@;
                        r.push(t);
                        proof {
                            assert forall|p: int, q: int|
                                0 <= p < q < r@.len() implies r@[p] != r@[q] by {
                                if q == r0.len() {
                                    assert(r@[p] == r0[p]);
                                }
                            }
                            assert forall|u: TaskId| #[trigger]
                                r@.contains(u) <==> exists|m: int|
                                    0 <= m < i + 1 && (#[trigger] records@[m]).0 == (
                                    CachedDataItemKey::CellDependent { cell, task: u }) by {
                                if r0.contains(u) {
                                    let n = choose|n: int| 0 <= n < r0.len() && r0[n] == u;
                                    assert(r@[n] == u);
                                }
                                if r@.contains(u) && u != t {
                                    let n = choose|n: int| 0 <= n < r@.len() && r@[n] == u;
                                    assert(r0[n] == u);
                                }
                                assert(r@[r0.len() as int] == t);
                            }
                        }
                    }
                },
                _ => {},
            }
            i = i + 1;
        }
        proof {
            assert forall|t: TaskId| #[trigger]
                r@.to_set().contains(t) <==> dependents_of(task@, cell).contains(t) by {
                let k = CachedDataItemKey::CellDependent { cell, task: t };
                if task@.contains_key(k) {
                    let p = (k, task@[k]);
                    assert(records@.contains(p));
                    let n = choose|n: int| 0 <= n < records@.len() && records@[n] == p;
                    assert(records@[n].0 == k);
                }
                if r@.contains(t) {
                    let n = choose|n: int| 0 <= n < records@.len() && (#[trigger] records@[n]).0 == k;
                    assert(records@.contains(records@[n]));
                }
            }
            assert(r@.to_set() =~= dependents_of(task@, cell));
        }
        r
    }
}

} // verus!
