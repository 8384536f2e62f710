use std::collections::HashSet;

use turbo_tasks_backend::{
    pair_lock_order, register, update_count, CachedDataItem, CachedDataItemIndex,
    CachedDataItemKey, CachedDataItemValue, CellId, InnerStorage, TaskId, INDEX_THRESHOLD,
};

fn cell(index: u32) -> CellId {
    CellId { type_id: 1, index }
}

fn all_pairs(s: &InnerStorage) -> HashSet<(CachedDataItemKey, CachedDataItemValue)> {
    s.iter_all().into_iter().collect()
}

#[test]
fn new_store_is_empty_and_flat() {
    let s = InnerStorage::new();
    assert!(!s.is_indexed());
    assert!(s.iter_all().is_empty());
    assert!(!s.has_key(&CachedDataItemKey::Dirty));
}

#[test]
fn insert_returns_previous_value() {
    let mut s = InnerStorage::new();
    let c = cell(0);
    assert_eq!(s.insert(CachedDataItem::CellData { cell: c, value: 1 }), None);
    assert_eq!(
        s.insert(CachedDataItem::CellData { cell: c, value: 2 }),
        Some(CachedDataItemValue::CellData { value: 1 })
    );
    assert_eq!(
        s.get(&CachedDataItemKey::CellData { cell: c }),
        Some(&CachedDataItemValue::CellData { value: 2 })
    );
}

#[test]
fn add_only_when_absent() {
    let mut s = InnerStorage::new();
    assert!(s.add(CachedDataItem::Dirty));
    assert!(!s.add(CachedDataItem::Dirty));
    let c = cell(3);
    assert!(s.add(CachedDataItem::CellData { cell: c, value: 7 }));
    assert!(!s.add(CachedDataItem::CellData { cell: c, value: 8 }));
    assert_eq!(
        s.get(&CachedDataItemKey::CellData { cell: c }),
        Some(&CachedDataItemValue::CellData { value: 7 })
    );
}

#[test]
fn remove_returns_value_once() {
    let mut s = InnerStorage::new();
    let c = cell(1);
    s.insert(CachedDataItem::InProgressCell { cell: c, event: 9 });
    let k = CachedDataItemKey::InProgressCell { cell: c };
    assert_eq!(s.remove(&k), Some(CachedDataItemValue::InProgressCell { event: 9 }));
    assert_eq!(s.remove(&k), None);
    assert!(!s.has_key(&k));
}

#[test]
fn insert_then_remove_round_trip() {
    let mut s = InnerStorage::new();
    s.insert(CachedDataItem::Dirty);
    s.insert(CachedDataItem::CellData { cell: cell(0), value: 5 });
    let before = all_pairs(&s);
    let item = CachedDataItem::CellDependent { cell: cell(0), task: TaskId(4) };
    let k = CachedDataItemKey::CellDependent { cell: cell(0), task: TaskId(4) };
    s.insert(item);
    s.remove(&k);
    assert_eq!(s.get(&k), None);
    assert!(!s.has_key(&k));
    assert_eq!(all_pairs(&s), before);
}

#[test]
fn conversion_keeps_every_record() {
    let mut s = InnerStorage::new();
    let n = INDEX_THRESHOLD as u32;
    for i in 0..(n - 1) {
        s.insert(CachedDataItem::CellDependent { cell: cell(i % 7), task: TaskId(i) });
    }
    s.insert(CachedDataItem::Dirty);
    assert!(!s.is_indexed());
    let before = all_pairs(&s);
    assert_eq!(before.len(), INDEX_THRESHOLD);
    s.insert(CachedDataItem::CellData { cell: cell(2), value: 11 });
    assert!(s.is_indexed());
    let mut expected = before.clone();
    expected.insert((
        CachedDataItemKey::CellData { cell: cell(2) },
        CachedDataItemValue::CellData { value: 11 },
    ));
    assert_eq!(all_pairs(&s), expected);
    assert_eq!(s.iter_all().len(), INDEX_THRESHOLD + 1);
    s.remove(&CachedDataItemKey::CellData { cell: cell(2) });
    assert!(s.is_indexed());
    assert_eq!(all_pairs(&s), before);
}

#[test]
fn indexed_iteration_is_scoped() {
    let mut s = InnerStorage::new();
    for i in 0..(INDEX_THRESHOLD as u32) {
        s.insert(CachedDataItem::CellDependent { cell: cell(i), task: TaskId(i) });
    }
    s.insert(CachedDataItem::CellData { cell: cell(0), value: 1 });
    s.insert(CachedDataItem::Dirty);
    assert!(s.is_indexed());
    let deps = s.iter(CachedDataItemIndex::CellDependent);
    assert_eq!(deps.len(), INDEX_THRESHOLD);
    assert!(deps.iter().all(|(k, _)| k.index() == CachedDataItemIndex::CellDependent));
    let data = s.iter(CachedDataItemIndex::CellData);
    assert_eq!(
        data,
        vec![(
            CachedDataItemKey::CellData { cell: cell(0) },
            CachedDataItemValue::CellData { value: 1 }
        )]
    );
    assert!(s.iter(CachedDataItemIndex::InProgressCell).is_empty());
}

#[test]
fn flat_iteration_gives_all_records() {
    let mut s = InnerStorage::new();
    s.insert(CachedDataItem::Dirty);
    s.insert(CachedDataItem::CellData { cell: cell(0), value: 1 });
    assert_eq!(s.iter(CachedDataItemIndex::Dirty).len(), 2);
}

#[test]
fn has_compares_key_and_value() {
    let mut s = InnerStorage::new();
    s.insert(CachedDataItem::CellData { cell: cell(0), value: 1 });
    let mut same = CachedDataItem::CellData { cell: cell(0), value: 1 };
    let mut other = CachedDataItem::CellData { cell: cell(0), value: 2 };
    let mut missing = CachedDataItem::CellData { cell: cell(1), value: 1 };
    assert!(s.has(&mut same));
    assert!(!s.has(&mut other));
    assert!(!s.has(&mut missing));
    assert_eq!(other, CachedDataItem::CellData { cell: cell(0), value: 2 });
}

#[test]
fn update_applies_each_increment() {
    let mut s = InnerStorage::new();
    let k = CachedDataItemKey::CellData { cell: cell(0) };
    for _ in 0..10 {
        s.update(&k, |old| match old {
            Some(CachedDataItemValue::CellData { value }) => {
                Some(CachedDataItemValue::CellData { value: value + 1 })
            }
            _ => Some(CachedDataItemValue::CellData { value: 1 }),
        });
    }
    assert_eq!(s.get(&k), Some(&CachedDataItemValue::CellData { value: 10 }));
    s.update(&k, |_| None);
    assert!(!s.has_key(&k));
}

#[test]
fn pair_lock_order_is_total() {
    assert_eq!(pair_lock_order(TaskId(3), TaskId(5)), (TaskId(3), Some(TaskId(5))));
    assert_eq!(pair_lock_order(TaskId(5), TaskId(3)), (TaskId(3), Some(TaskId(5))));
    assert_eq!(pair_lock_order(TaskId(4), TaskId(4)), (TaskId(4), None));
}

#[test]
fn update_count_detects_sign_change() {
    assert_eq!(update_count(None, 2), (Some(2), true));
    assert_eq!(update_count(None, -1), (Some(-1), false));
    assert_eq!(update_count(None, 0), (None, false));
    assert_eq!(update_count(Some(2), -2), (None, true));
    assert_eq!(update_count(Some(2), 3), (Some(5), false));
    assert_eq!(update_count(Some(-1), 3), (Some(2), true));
    assert_eq!(update_count(Some(-3), 1), (Some(-2), false));
}

#[test]
fn register_lists_record_kinds() {
    assert_eq!(
        register(),
        vec![
            CachedDataItemIndex::CellData,
            CachedDataItemIndex::InProgressCell,
            CachedDataItemIndex::CellDependent,
            CachedDataItemIndex::Dirty,
        ]
    );
}
