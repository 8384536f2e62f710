use std::collections::HashSet;

use turbo_tasks_backend::{
    CachedDataItem, CachedDataItemKey, CachedDataItemValue, CellId, InnerStorage, TaskId,
    UpdateCellOperation, INDEX_THRESHOLD,
};

fn cell(index: u32) -> CellId {
    CellId { type_id: 2, index }
}

fn set(v: Vec<TaskId>) -> HashSet<TaskId> {
    let n = v.len();
    let s: HashSet<TaskId> = v.into_iter().collect();
    assert_eq!(s.len(), n);
    s
}

#[test]
fn first_write_without_dirty_flag_invalidates_nothing() {
    let mut t = InnerStorage::new();
    let c = cell(0);
    t.insert(CachedDataItem::CellDependent { cell: c, task: TaskId(7) });
    let out = UpdateCellOperation::run(&mut t, c, Some(100));
    assert!(out.invalidate.is_none());
    assert_eq!(out.notify, None);
    assert_eq!(
        t.get(&CachedDataItemKey::CellData { cell: c }),
        Some(&CachedDataItemValue::CellData { value: 100 })
    );
}

#[test]
fn first_write_on_dirty_task_invalidates_dependents() {
    let mut t = InnerStorage::new();
    let c = cell(0);
    t.insert(CachedDataItem::Dirty);
    t.insert(CachedDataItem::CellDependent { cell: c, task: TaskId(7) });
    let out = UpdateCellOperation::run(&mut t, c, Some(100));
    assert_eq!(set(out.invalidate.unwrap()), HashSet::from([TaskId(7)]));
}

#[test]
fn changed_content_invalidates_exactly_the_cell_dependents() {
    let mut t = InnerStorage::new();
    let c = cell(0);
    let other = cell(1);
    t.insert(CachedDataItem::CellData { cell: c, value: 1 });
    t.insert(CachedDataItem::CellDependent { cell: c, task: TaskId(1) });
    t.insert(CachedDataItem::CellDependent { cell: c, task: TaskId(2) });
    t.insert(CachedDataItem::CellDependent { cell: other, task: TaskId(3) });
    let out = UpdateCellOperation::run(&mut t, c, Some(2));
    assert_eq!(set(out.invalidate.unwrap()), HashSet::from([TaskId(1), TaskId(2)]));
    assert_eq!(
        t.get(&CachedDataItemKey::CellData { cell: c }),
        Some(&CachedDataItemValue::CellData { value: 2 })
    );
}

#[test]
fn clearing_content_removes_it_and_invalidates() {
    let mut t = InnerStorage::new();
    let c = cell(0);
    t.insert(CachedDataItem::CellData { cell: c, value: 1 });
    t.insert(CachedDataItem::CellDependent { cell: c, task: TaskId(5) });
    let out = UpdateCellOperation::run(&mut t, c, None);
    assert!(!t.has_key(&CachedDataItemKey::CellData { cell: c }));
    assert_eq!(set(out.invalidate.unwrap()), HashSet::from([TaskId(5)]));
}

#[test]
fn clearing_empty_cell_is_a_no_op() {
    let mut t = InnerStorage::new();
    let c = cell(0);
    let out = UpdateCellOperation::run(&mut t, c, None);
    assert!(out.invalidate.is_none());
    assert_eq!(out.notify, None);
    assert!(t.iter_all().is_empty());
}

#[test]
fn in_progress_marker_is_released() {
    let mut t = InnerStorage::new();
    let c = cell(0);
    t.insert(CachedDataItem::InProgressCell { cell: c, event: 42 });
    let out = UpdateCellOperation::run(&mut t, c, Some(3));
    assert_eq!(out.notify, Some(42));
    assert!(out.invalidate.is_none());
    assert!(!t.has_key(&CachedDataItemKey::InProgressCell { cell: c }));

    t.insert(CachedDataItem::InProgressCell { cell: c, event: 43 });
    let out = UpdateCellOperation::run(&mut t, c, Some(4));
    assert_eq!(out.notify, Some(43));
    assert_eq!(out.invalidate, Some(vec![]));
}

#[test]
fn dependents_found_in_indexed_store() {
    let mut t = InnerStorage::new();
    let c = cell(0);
    for i in 0..(INDEX_THRESHOLD as u32) {
        t.insert(CachedDataItem::CellDependent { cell: cell(i % 4), task: TaskId(i) });
    }
    t.insert(CachedDataItem::CellData { cell: c, value: 1 });
    assert!(t.is_indexed());
    let out = UpdateCellOperation::run(&mut t, c, Some(2));
    let expected: HashSet<TaskId> = (0..(INDEX_THRESHOLD as u32))
        .filter(|i| i % 4 == 0)
        .map(TaskId)
        .collect();
    assert_eq!(set(out.invalidate.unwrap()), expected);
}
