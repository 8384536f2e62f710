use vstd::prelude::*;

use crate::data::CachedDataItemIndex;

verus! {

/// Registers the record kinds that a task store holds, in the order in
/// which their groups are listed.
pub fn register() -> (r: Vec<CachedDataItemIndex>)
    ensures
        r@ == seq![
            CachedDataItemIndex::CellData,
            CachedDataItemIndex::InProgressCell,
            CachedDataItemIndex::CellDependent,
            CachedDataItemIndex::Dirty,
        ],
{
    let mut r: Vec<CachedDataItemIndex> = Vec::new();
    r.push(CachedDataItemIndex::CellData);
    r.push(CachedDataItemIndex::InProgressCell);
    r.push(CachedDataItemIndex::CellDependent);
    r.push(CachedDataItemIndex::Dirty);
    assert(r@ =~= seq![
        CachedDataItemIndex::CellData,
        CachedDataItemIndex::InProgressCell,
        CachedDataItemIndex::CellDependent,
        CachedDataItemIndex::Dirty,
    ]);
    r
}

} // verus!
