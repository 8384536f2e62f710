//! The per-task record store: flat while small, grouped by record index once
//! it has reached `INDEX_THRESHOLD` records.
use vstd::prelude::*;

use crate::assoc::{
    distinct_keys, find, has_key_in, lemma_contains_iff_find, lemma_find_at, lemma_find_is_some,
    lemma_push, lemma_remove, lemma_update,
};
use crate::data::{CachedDataItem, CachedDataItemIndex, CachedDataItemKey, CachedDataItemValue};
use crate::id::TaskId;

verus! {

/// The record count from which a flat store is regrouped by index.
pub const INDEX_THRESHOLD: usize = 1024;

/// Records of one group, each under a distinct key.
pub type Entries = Vec<(CachedDataItemKey, CachedDataItemValue)>;

/// Groups of records, each under a distinct index.
pub type Groups = Vec<(CachedDataItemIndex, Entries)>;

/// All records of one task.
#[allow(inconsistent_fields)]
pub enum InnerStorage {
    /// One list of all records.
    Plain { map: Entries },
    /// The records split by the index of their key. Never turns back to `Plain`.
    Indexed { map: Groups },
}

/// Every record of `s` has a key whose index is `index`.
pub open spec fn all_indexed_by(
    s: Seq<(CachedDataItemKey, CachedDataItemValue)>,
    index: CachedDataItemIndex,
) -> bool {
    forall|j: int| 0 <= j < s.len() ==> (#[trigger] s[j]).0.spec_index() == index
}

/// Groups under distinct indices, each a list of distinct keys of that index.
pub open spec fn groups_wf(g: Seq<(CachedDataItemIndex, Entries)>) -> bool {
    &&& distinct_keys(g)
    &&& forall|i: int|
        0 <= i < g.len() ==> distinct_keys((#[trigger] g[i]).1@) && all_indexed_by(g[i].1@, g[i].0)
}

/// The payload under `k` in grouped records: looked up in the group of `k`'s index.
pub open spec fn grouped_find(
    g: Seq<(CachedDataItemIndex, Entries)>,
    k: CachedDataItemKey,
) -> Option<CachedDataItemValue> {
    match find(g, k.spec_index()) {
        Some(e) => find(e@, k),
        None => None,
    }
}

/// A map after `k` was given `new`: stored when `Some`, taken out when `None`.
pub open spec fn set_key(
    m: Map<CachedDataItemKey, CachedDataItemValue>,
    k: CachedDataItemKey,
    new: Option<CachedDataItemValue>,
) -> Map<CachedDataItemKey, CachedDataItemValue> {
    match new {
        Some(v) => m.insert(k, v),
        None => m.remove(k),
    }
}

/// Position of the entry under `k`, if any.
fn position(entries: &Entries, k: &CachedDataItemKey) -> (r: Option<usize>)
    ensures
        match r {
            Some(i) => i < entries@.len() && entries@[i as int].0 == *k,
            None => !has_key_in(entries@, *k),
        },
{
    let mut i: usize = 0;
    while i < entries.len()
        invariant
            i <= entries@.len(),
            forall|j: int| 0 <= j < i ==> entries@[j].0 != *k,
        decreases entries@.len() - i,
    {
        if entries[i].0 == *k {
            return Some(i);
        }
        i = i + 1;
    }
    None
}

/// Position of the group of `index`, if any.
fn group_position(groups: &Groups, index: CachedDataItemIndex) -> (r: Option<usize>)
    ensures
        match r {
            Some(i) => i < groups@.len() && groups@[i as int].0 == index,
            None => !has_key_in(groups@, index),
        },
{
    let mut i: usize = 0;
    while i < groups.len()
        invariant
            i <= groups@.len(),
            forall|j: int| 0 <= j < i ==> groups@[j].0 != index,
        decreases groups@.len() - i,
    {
        if groups[i].0 == index {
            return Some(i);
        }
        i = i + 1;
    }
    None
}

/// Gives `k` the payload `new` in a list (stores it, or takes the entry out
/// when `None`), and returns the payload it had.
fn set_in_entries(
    entries: &mut Entries,
    k: CachedDataItemKey,
    new: Option<CachedDataItemValue>,
) -> (r: Option<CachedDataItemValue>)
    requires
        distinct_keys(old(entries)@),
    ensures
        r == find(old(entries)@, k),
        distinct_keys(final(entries)@),
        forall|a: CachedDataItemKey|
            #[trigger] find(final(entries)@, a) == if a == k {
                new
            } else {
                find(old(entries)@, a)
            },
        all_indexed_by(old(entries)@, k.spec_index()) ==> all_indexed_by(
            final(entries)@,
            k.spec_index(),
        ),
{
    match position(entries, &k) {
        Some(i) => {
            let prev = entries[i].1;
            proof {
                lemma_find_at(entries@, i as int);
            }
            match new {
                Some(v) => {
                    proof {
                        lemma_update(entries@, i as int, v);
                    }
                    entries.set(i, (k, v));
                },
                None => {
                    proof {
                        lemma_remove(entries@, i as int);
                    }
                    entries.remove(i);
                    proof {
                        let o = old(entries)@;
                        assert forall|j: int| 0 <= j < entries@.len() implies (
                        #[trigger] entries@[j]).0.spec_index() == if all_indexed_by(o, k.spec_index()) {
                            k.spec_index()
                        } else {
                            entries@[j].0.spec_index()
                        } by {
                            if j < i {
                                assert(entries@[j] == o[j]);
                            } else {
                                assert(entries@[j] == o[j + 1]);
                            }
                        }
                    }
                },
            }
            Some(prev)
        },
        None => {
            match new {
                Some(v) => {
                    proof {
                        lemma_push(entries@, k, v);
                    }
                    entries.push((k, v));
                },
                None => {
                    assert forall|a: CachedDataItemKey| #[trigger]
                        find(entries@, a) == if a == k {
                            new
                        } else {
                            find(entries@, a)
                        } by {
                        lemma_find_is_some(entries@, a);
                    }
                },
            }
            None
        },
    }
}

/// Gives `k` the payload `new` in grouped records, and returns the payload it had.
fn set_in_groups(groups: &mut Groups, k: CachedDataItemKey, new: Option<CachedDataItemValue>) -> (r:
    Option<CachedDataItemValue>)
    requires
        groups_wf(old(groups)@),
    ensures
        r == grouped_find(old(groups)@, k),
        groups_wf(final(groups)@),
        forall|a: CachedDataItemKey|
            #[trigger] grouped_find(final(groups)@, a) == if a == k {
                new
            } else {
                grouped_find(old(groups)@, a)
            },
{
    let index = k.index();
    match group_position(groups, index) {
        Some(gi) => {
            proof {
                lemma_find_at(groups@, gi as int);
            }
            let (g, mut entries) = groups.remove(gi);
            let r = set_in_entries(&mut entries, k, new);
            groups.insert(gi, (g, entries));
            proof {
                let o = old(groups)@;
                lemma_update(o, gi as int, entries);
                assert(groups@ =~= o.update(gi as int, (o[gi as int].0, entries)));
                assert forall|a: CachedDataItemKey| #[trigger]
                    grouped_find(groups@, a) == if a == k {
                        new
                    } else {
                        grouped_find(o, a)
                    } by {}
            }
            r
        },
        None => {
            proof {
                lemma_find_is_some(groups@, index);
            }
            match new {
                Some(v) => {
                    let mut entries: Entries = Vec::new();
                    entries.push((k, v));
                    proof {
                        lemma_push(groups@, index, entries);
                        lemma_find_at(entries@, 0);
                        assert forall|a: CachedDataItemKey|
                            a != k implies #[trigger] find(entries@, a) == None::<CachedDataItemValue> by {
                            lemma_find_is_some(entries@, a);
                        }
                    }
                    groups.push((index, entries));
                    proof {
                        assert forall|a: CachedDataItemKey| #[trigger]
                            grouped_find(groups@, a) == if a == k {
                                new
                            } else {
                                grouped_find(old(groups)@, a)
                            } by {
                            lemma_find_is_some(old(groups)@, a.spec_index());
                        }
                    }
                },
                None => {},
            }
            None
        },
    }
}

/// Groups a list of records by the index of their keys.
fn index_entries(entries: &Entries) -> (groups: Groups)
    requires
        distinct_keys(entries@),
    ensures
        groups_wf(groups@),
        forall|a: CachedDataItemKey| #[trigger] grouped_find(groups@, a) == find(entries@, a),
{
    let mut groups: Groups = Vec::new();
    let mut i: usize = 0;
    while i < entries.len()
        invariant
            i <= entries@.len(),
            distinct_keys(entries@),
            groups_wf(groups@),
            forall|a: CachedDataItemKey| #[trigger]
                grouped_find(groups@, a) == find(entries@.take(i as int), a),
        decreases entries@.len() - i,
    {
        let (k, v) = entries[i];
        proof {
            let t = entries@.take(i as int);
            assert(entries@.take(i as int + 1) =~= t.push((k, v)));
            assert(distinct_keys(t));
            assert(!has_key_in(t, k));
            lemma_push(t, k, v);
        }
        set_in_groups(&mut groups, k, Some(v));
        i = i + 1;
    }
    assert(entries@.take(i as int) =~= entries@);
    groups
}

/// A record is in some group exactly when a grouped lookup of its key gives its payload.
proof fn lemma_grouped_contains(
    g: Seq<(CachedDataItemIndex, Entries)>,
    p: (CachedDataItemKey, CachedDataItemValue),
)
    requires
        groups_wf(g),
    ensures
        (exists|i: int| 0 <= i < g.len() && (#[trigger] g[i]).1@.contains(p)) <==> grouped_find(g, p.0)
            == Some(p.1),
{
    lemma_find_is_some(g, p.0.spec_index());
    if exists|i: int| 0 <= i < g.len() && (#[trigger] g[i]).1@.contains(p) {
        let i = choose|i: int| 0 <= i < g.len() && (#[trigger] g[i]).1@.contains(p);
        let j = choose|j: int| 0 <= j < g[i].1@.len() && g[i].1@[j] == p;
        assert(g[i].1@[j].0.spec_index() == g[i].0);
        lemma_find_at(g, i);
        lemma_contains_iff_find(g[i].1@, p);
    }
    if grouped_find(g, p.0) == Some(p.1) {
        let i = choose|i: int|
            0 <= i < g.len() && g[i].0 == p.0.spec_index() && find(g, p.0.spec_index()) == Some(
                g[i].1,
            );
        lemma_contains_iff_find(g[i].1@, p);
    }
}

/// A copy of a list of records.
fn copy_entries(e: &Entries) -> (r: Entries)
    ensures
        r@ == e@,
{
    let mut r: Entries = Vec::new();
    let mut i: usize = 0;
    while i < e.len()
        invariant
            i <= e@.len(),
            r@ == e@.take(i as int),
        decreases e@.len() - i,
    {
        r.push(e[i]);
        i = i + 1;
        assert(r@ =~= e@.take(i as int));
    }
    assert(e@.take(i as int) =~= e@);
    r
}

/// All records of all groups, one after the other.
fn flatten_groups(groups: &Groups) -> (r: Entries)
    requires
        groups_wf(groups@),
    ensures
        distinct_keys(r@),
        forall|p: (CachedDataItemKey, CachedDataItemValue)|
            #[trigger] r@.contains(p) <==> grouped_find(groups@, p.0) == Some(p.1),
{
    let mut r: Entries = Vec::new();
    let mut gi: usize = 0;
    while gi < groups.len()
        invariant
            gi <= groups@.len(),
            groups_wf(groups@),
            distinct_keys(r@),
            forall|p: (CachedDataItemKey, CachedDataItemValue)|
                #[trigger] r@.contains(p) <==> exists|g: int|
                    0 <= g < gi && (#[trigger] groups@[g]).1@.contains(p),
        decreases groups@.len() - gi,
    {
        let entries = &groups[gi].1;
        let ghost gs = groups@;
        let mut j: usize = 0;
        while j < entries.len()
            invariant
                gi < gs.len(),
                gs == groups@,
                groups_wf(gs),
                *entries == gs[gi as int].1,
                j <= entries@.len(),
                distinct_keys(r@),
                forall|p: (CachedDataItemKey, CachedDataItemValue)|
                    #[trigger] r@.contains(p) <==> ((exists|g: int|
                        0 <= g < gi && (#[trigger] gs[g]).1@.contains(p)) || entries@.take(
                        j as int,
                    ).contains(p)),
            decreases entries@.len() - j,
        {
            let e = entries[j];
            proof {
                assert forall|m: int| 0 <= m < r@.len() implies r@[m].0 != e.0 by {
                    let q = r@[m];
                    assert(r@.contains(q));
                    assert(e.0.spec_index() == gs[gi as int].0);
                    if exists|g: int| 0 <= g < gi && (#[trigger] gs[g]).1@.contains(q) {
                        let g = choose|g: int| 0 <= g < gi && (#[trigger] gs[g]).1@.contains(q);
                        let n = choose|n: int| 0 <= n < gs[g].1@.len() && gs[g].1@[n] == q;
                        assert(gs[g].1@[n].0.spec_index() == gs[g].0);
                        assert(gs[g].0 != gs[gi as int].0);
                    } else {
                        let t0 = entries@.take(j as int);
                        let n = choose|n: int| 0 <= n < t0.len() && t0[n] == q;
                        assert(entries@[n] == q);
                        assert(n != j);
                    }
                }
                assert(entries@.take(j as int + 1) =~= entries@.take(j as int).push(e));
            }
            let ghost r0 = r@;
            r.push(e);
            proof {
                assert forall|p: int, q: int| 0 <= p < q < r@.len() implies r@[p].0 != r@[q].0 by {
                    if q == r0.len() {
                        assert(r@[p] == r0[p]);
                    }
                }
                assert forall|p: (CachedDataItemKey, CachedDataItemValue)|
                    #[trigger] r@.contains(p) <==> ((exists|g: int|
                        0 <= g < gi && (#[trigger] gs[g]).1@.contains(p)) || entries@.take(
                        j as int + 1,
                    ).contains(p)) by {
                    if r@.contains(p) && p != e {
                        let n = choose|n: int| 0 <= n < r@.len() && r@[n] == p;
                        assert(r0[n] == p);
                        assert(r0.contains(p));
                    }
                    if r0.contains(p) {
                        let n = choose|n: int| 0 <= n < r0.len() && r0[n] == p;
                        assert(r@[n] == p);
                    }
                    let t0 = entries@.take(j as int);
                    let t1 = entries@.take(j as int + 1);
                    if t0.contains(p) {
                        let n = choose|n: int| 0 <= n < t0.len() && t0[n] == p;
                        assert(t1[n] == p);
                    }
                    if t1.contains(p) && p != e {
                        let n = choose|n: int| 0 <= n < t1.len() && t1[n] == p;
                        assert(t0[n] == p);
                    }
                    assert(r@[r0.len() as int] == e);
                    assert(t1[j as int] == e);
                    if p == e {
                        assert(r@.contains(p));
                        assert(t1.contains(p));
                    }
                    if r0.contains(p) {
                        assert(r@.contains(p));
                    }
                    if t0.contains(p) {
                        assert(t1.contains(p));
                    }
                }
            }
            j = j + 1;
        }
        proof {
            assert(entries@.take(j as int) =~= entries@);
            assert forall|p: (CachedDataItemKey, CachedDataItemValue)|
                #[trigger] r@.contains(p) <==> exists|g: int|
                    0 <= g < gi + 1 && (#[trigger] groups@[g]).1@.contains(p) by {
                if r@.contains(p) && !(exists|g: int| 0 <= g < gi && (#[trigger] gs[g]).1@.contains(p)) {
                    assert(gs[gi as int].1@.contains(p));
                }
            }
        }
        gi = gi + 1;
    }
    proof {
        assert forall|p: (CachedDataItemKey, CachedDataItemValue)|
            #[trigger] r@.contains(p) <==> grouped_find(groups@, p.0) == Some(p.1) by {
            lemma_grouped_contains(groups@, p);
        }
    }
    r
}

/// Inserting a record under a key that the store does not hold, then
/// removing that key, gives back exactly the records the store had: `get`,
/// `has_key` and `iter_all` cannot tell the two stores apart.
pub proof fn lemma_insert_remove_round_trip(s: InnerStorage, item: CachedDataItem)
    requires
        s.wf(),
        !s@.contains_key(item.spec_key()),
    ensures
        s@.insert(item.spec_key(), item.spec_value()).remove(item.spec_key()) == s@,
{
    assert(s@.insert(item.spec_key(), item.spec_value()).remove(item.spec_key()) =~= s@);
}

/// The order in which two tasks are locked together: the smaller identifier
/// first. Equal identifiers name one store, locked once (`None` second).
pub fn pair_lock_order(a: TaskId, b: TaskId) -> (r: (TaskId, Option<TaskId>))
    ensures
        a == b ==> r == (a, None::<TaskId>),
        a.0 < b.0 ==> r == (a, Some(b)),
        b.0 < a.0 ==> r == (b, Some(a)),
{
    if a.0 == b.0 {
        (a, None)
    } else if a.0 < b.0 {
        (a, Some(b))
    } else {
        (b, Some(a))
    }
}

/// Adds `delta` to a count (absent meaning zero). Returns the new count,
/// absent when it is zero, and whether the count crossed between positive and
/// not positive.
pub fn update_count(old: Option<i32>, delta: i32) -> (r: (Option<i32>, bool))
    requires
        old matches Some(o) ==> i32::MIN <= o + delta <= i32::MAX,
    ensures
        ({
            let o: int = match old {
                Some(o) => o as int,
                None => 0,
            };
            let n = o + delta;
            &&& r.0 == if n == 0 {
                None
            } else {
                Some(n as i32)
            }
            &&& r.1 == ((o <= 0 && n > 0) || (o > 0 && n <= 0))
        }),
{
    match old {
        Some(o) => {
            let n = o + delta;
            let state_change = (o <= 0 && n > 0) || (o > 0 && n <= 0);
            (
                if n != 0 {
                    Some(n)
                } else {
                    None
                },
                state_change,
            )
        },
        None => (
            if delta != 0 {
                Some(delta)
            } else {
                None
            },
            delta > 0,
        ),
    }
}

impl InnerStorage {
    pub open spec fn wf(&self) -> bool {
        match self {
            InnerStorage::Plain { map } => distinct_keys(map@),
            InnerStorage::Indexed { map } => groups_wf(map@),
        }
    }

    /// The payload stored under `k`, if any.
    pub open spec fn spec_get(&self, k: CachedDataItemKey) -> Option<CachedDataItemValue> {
        match self {
            InnerStorage::Plain { map } => find(map@, k),
            InnerStorage::Indexed { map } => grouped_find(map@, k),
        }
    }

    /// The records as a map from key to payload, whatever the representation.
    pub open spec fn view(&self) -> Map<CachedDataItemKey, CachedDataItemValue> {
        Map::new(|k: CachedDataItemKey| self.spec_get(k) is Some, |k: CachedDataItemKey| self.spec_get(k)->0)
    }

    pub open spec fn spec_is_indexed(&self) -> bool {
        self is Indexed
    }

    /// Whether the next mutation regroups the records by index.
    pub open spec fn due_for_index(&self) -> bool {
        match self {
            InnerStorage::Plain { map } => map@.len() >= INDEX_THRESHOLD,
            InnerStorage::Indexed { .. } => false,
        }
    }

    /// An empty, flat store.
    pub fn new() -> (r: Self)
        ensures
            r.wf(),
            r@ == Map::<CachedDataItemKey, CachedDataItemValue>::empty(),
            !r.spec_is_indexed(),
    {
        let r = InnerStorage::Plain { map: Vec::new() };
        assert(r@ =~= Map::<CachedDataItemKey, CachedDataItemValue>::empty());
        r
    }

    /// Stores `item` only when its key holds nothing yet; returns whether it did.
    pub fn add(&mut self, item: CachedDataItem) -> (r: bool)
        requires
            old(self).wf(),
        ensures
            final(self).wf(),
            r == !old(self)@.contains_key(item.spec_key()),
            final(self)@ == if r {
                old(self)@.insert(item.spec_key(), item.spec_value())
            } else {
                old(self)@
            },
            final(self).spec_is_indexed() == (old(self).spec_is_indexed() || old(self).due_for_index()),
    {
        let (key, value) = item.into_key_and_value();
        self.check_threshold();
        if self.has_key(&key) {
            false
        } else {
            self.set_entry(key, Some(value));
            true
        }
    }

    /// Stores `item`, replacing what its key held; returns the payload replaced.
    pub fn insert(&mut self, item: CachedDataItem) -> (r: Option<CachedDataItemValue>)
        requires
            old(self).wf(),
        ensures
            final(self).wf(),
            r == old(self)@.get(item.spec_key()),
            final(self)@ == old(self)@.insert(item.spec_key(), item.spec_value()),
            final(self).spec_is_indexed() == (old(self).spec_is_indexed() || old(self).due_for_index()),
    {
        let (key, value) = item.into_key_and_value();
        self.set_entry(key, Some(value))
    }

    /// Takes out the record under `key`; returns its payload.
    pub fn remove(&mut self, key: &CachedDataItemKey) -> (r: Option<CachedDataItemValue>)
        requires
            old(self).wf(),
        ensures
            final(self).wf(),
            r == old(self)@.get(*key),
            final(self)@ == old(self)@.remove(*key),
            final(self).spec_is_indexed() == (old(self).spec_is_indexed() || old(self).due_for_index()),
    {
        self.set_entry(*key, None)
    }

    /// The payload stored under `key`, if any.
    pub fn get(&self, key: &CachedDataItemKey) -> (r: Option<&CachedDataItemValue>)
        requires
            self.wf(),
        ensures
            r is Some == self@.contains_key(*key),
            r is Some ==> *(r->0) == self@[*key],
    {
        let entries = match self {
            InnerStorage::Plain { map } => map,
            InnerStorage::Indexed { map } => {
                match group_position(map, key.index()) {
                    Some(gi) => {
                        proof {
                            lemma_find_at(map@, gi as int);
                        }
                        &map[gi].1
                    },
                    None => {
                        proof {
                            lemma_find_is_some(map@, key.spec_index());
                        }
                        return None;
                    },
                }
            },
        };
        proof {
            lemma_find_is_some(entries@, *key);
        }
        match position(entries, key) {
            Some(i) => {
                proof {
                    lemma_find_at(entries@, i as int);
                }
                Some(&entries[i].1)
            },
            None => None,
        }
    }

    /// Whether a record is stored under `key`.
    pub fn has_key(&self, key: &CachedDataItemKey) -> (r: bool)
        requires
            self.wf(),
        ensures
            r == self@.contains_key(*key),
    {
        self.get(key).is_some()
    }

    /// Whether the records have been regrouped by index.
    pub fn is_indexed(&self) -> (r: bool)
        ensures
            r == self.spec_is_indexed(),
    {
        match self {
            InnerStorage::Plain { .. } => false,
            InnerStorage::Indexed { .. } => true,
        }
    }

    /// Whether exactly `item` (its key with its payload) is stored. `item` is
    /// handed back as it was.
    pub fn has(&self, item: &mut CachedDataItem) -> (r: bool)
        requires
            self.wf(),
        ensures
            *final(item) == *old(item),
            r == (self@.contains_key(old(item).spec_key()) && self@[old(item).spec_key()]
                == old(item).spec_value()),
    {
        let (key, value) = item.into_key_and_value();
        match self.get(&key) {
            Some(stored) => *stored == value,
            None => false,
        }
    }

    /// Every record, each once.
    pub fn iter_all(&self) -> (r: Vec<(CachedDataItemKey, CachedDataItemValue)>)
        requires
            self.wf(),
        ensures
            distinct_keys(r@),
            forall|p: (CachedDataItemKey, CachedDataItemValue)|
                #[trigger] r@.contains(p) <==> (self@.contains_key(p.0) && self@[p.0] == p.1),
    {
        match self {
            InnerStorage::Plain { map } => {
                let r = copy_entries(map);
                proof {
                    assert forall|p: (CachedDataItemKey, CachedDataItemValue)|
                        #[trigger] r@.contains(p) <==> (self@.contains_key(p.0) && self@[p.0] == p.1) by {
                        lemma_contains_iff_find(map@, p);
                    }
                }
                r
            },
            InnerStorage::Indexed { map } => flatten_groups(map),
        }
    }

    /// The records whose key has index `index`, each once. A store that is
    /// still flat has not grouped its records: it gives all of them.
    pub fn iter(&self, index: CachedDataItemIndex) -> (r: Vec<(CachedDataItemKey, CachedDataItemValue)>)
        requires
            self.wf(),
        ensures
            distinct_keys(r@),
            forall|p: (CachedDataItemKey, CachedDataItemValue)|
                #[trigger] r@.contains(p) <==> (self@.contains_key(p.0) && self@[p.0] == p.1 && (
                self.spec_is_indexed() ==> p.0.spec_index() == index)),
    {
        match self {
            InnerStorage::Plain { .. } => self.iter_all(),
            InnerStorage::Indexed { map } => {
                match group_position(map, index) {
                    Some(gi) => {
                        let r = copy_entries(&map[gi].1);
                        proof {
                            lemma_find_at(map@, gi as int);
                            assert forall|p: (CachedDataItemKey, CachedDataItemValue)|
                                #[trigger] r@.contains(p) <==> (self@.contains_key(p.0) && self@[p.0]
                                    == p.1 && p.0.spec_index() == index) by {
                                lemma_contains_iff_find(r@, p);
                                if r@.contains(p) {
                                    let n = choose|n: int| 0 <= n < r@.len() && r@[n] == p;
                                    assert(r@[n].0.spec_index() == index);
                                }
                            }
                        }
                        r
                    },
                    None => {
                        proof {
                            lemma_find_is_some(map@, index);
                        }
                        Vec::new()
                    },
                }
            },
        }
    }

    /// Reads the payload under `key`, hands it to `update` once, and stores
    /// what it returns (taking the record out on `None`).
    pub fn update<F: FnOnce(Option<CachedDataItemValue>) -> Option<CachedDataItemValue>>(
        &mut self,
        key: &CachedDataItemKey,
        update: F,
    )
        requires
            old(self).wf(),
            update.requires((old(self)@.get(*key),)),
        ensures
            final(self).wf(),
            exists|new: Option<CachedDataItemValue>|
                update.ensures((old(self)@.get(*key),), new) && final(self)@ == set_key(
                    old(self)@,
                    *key,
                    new,
                ),
            final(self).spec_is_indexed() == (old(self).spec_is_indexed() || old(self).due_for_index()),
    {
        let current = match self.get(key) {
            Some(v) => Some(*v),
            None => None,
        };
        let new = update(current);
        self.set_entry(*key, new);
    }

    /// Regroups a flat store by index once it holds `INDEX_THRESHOLD` records.
    /// The records themselves stay as they are.
    fn check_threshold(&mut self)
        requires
            old(self).wf(),
        ensures
            final(self).wf(),
            final(self)@ == old(self)@,
            final(self).spec_is_indexed() == (old(self).spec_is_indexed() || old(self).due_for_index()),
            !final(self).due_for_index(),
    {
        let regrouped = match &*self {
            InnerStorage::Plain { map } => {
                if map.len() >= INDEX_THRESHOLD {
                    Some(index_entries(map))
                } else {
                    None
                }
            },
            InnerStorage::Indexed { .. } => None,
        };
        if let Some(groups) = regrouped {
            let ghost before = *self;
            *self = InnerStorage::Indexed { map: groups };
            assert(self@ =~= before@);
        }
    }

    /// Gives `key` the payload `new` (stores it, or takes the record out when
    /// `None`), after regrouping if due, and returns the payload it had.
    fn set_entry(&mut self, key: CachedDataItemKey, new: Option<CachedDataItemValue>) -> (r: Option<
        CachedDataItemValue,
    >)
        requires
            old(self).wf(),
        ensures
            final(self).wf(),
            r == old(self)@.get(key),
            final(self)@ == set_key(old(self)@, key, new),
            final(self).spec_is_indexed() == (old(self).spec_is_indexed() || old(self).due_for_index()),
    {
        self.check_threshold();
        let ghost before = *self;
        let r = match self {
            InnerStorage::Plain { map } => set_in_entries(map, key, new),
            InnerStorage::Indexed { map } => set_in_groups(map, key, new),
        };
        assert(self@ =~= set_key(before@, key, new));
        r
    }
}

} // verus!
