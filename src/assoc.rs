//! Association lists: sequences of pairs whose first components are distinct,
//! read as finite maps.
use vstd::prelude::*;

verus! {

/// No two entries share a key.
pub open spec fn distinct_keys<A, B>(s: Seq<(A, B)>) -> bool {
    forall|i: int, j: int| 0 <= i < j < s.len() ==> s[i].0 != s[j].0
}

/// Some entry has key `a`.
pub open spec fn has_key_in<A, B>(s: Seq<(A, B)>, a: A) -> bool {
    exists|i: int| 0 <= i < s.len() && s[i].0 == a
}

/// The payload stored under `a`, if any.
pub open spec fn find<A, B>(s: Seq<(A, B)>, a: A) -> Option<B> {
    if has_key_in(s, a) {
        Some(s[choose|i: int| 0 <= i < s.len() && s[i].0 == a].1)
    } else {
        None
    }
}

/// The map that an association list stands for.
pub open spec fn to_map<A, B>(s: Seq<(A, B)>) -> Map<A, B> {
    Map::new(|a: A| has_key_in(s, a), |a: A| find(s, a)->0)
}

pub proof fn lemma_find_at<A, B>(s: Seq<(A, B)>, i: int)
    requires
        distinct_keys(s),
        0 <= i < s.len(),
    ensures
        find(s, s[i].0) == Some(s[i].1),
{
    let a = s[i].0;
    assert(has_key_in(s, a));
    let j = choose|j: int| 0 <= j < s.len() && s[j].0 == a;
    assert(i == j);
}

pub proof fn lemma_find_is_some<A, B>(s: Seq<(A, B)>, a: A)
    requires
        distinct_keys(s),
    ensures
        find(s, a) is Some <==> has_key_in(s, a),
        has_key_in(s, a) ==> exists|i: int|
            0 <= i < s.len() && s[i].0 == a && find(s, a) == Some(s[i].1),
{
    if has_key_in(s, a) {
        let i = choose|i: int| 0 <= i < s.len() && s[i].0 == a;
        lemma_find_at(s, i);
    }
}

/// An entry is in the list exactly when its key looks up its payload.
pub proof fn lemma_contains_iff_find<A, B>(s: Seq<(A, B)>, p: (A, B))
    requires
        distinct_keys(s),
    ensures
        s.contains(p) <==> find(s, p.0) == Some(p.1),
{
    lemma_find_is_some(s, p.0);
    if s.contains(p) {
        let i = choose|i: int| 0 <= i < s.len() && s[i] == p;
        lemma_find_at(s, i);
    }
    if find(s, p.0) == Some(p.1) {
        let i = choose|i: int| 0 <= i < s.len() && s[i].0 == p.0 && find(s, p.0) == Some(s[i].1);
        assert(s[i] == p);
    }
}

/// Replacing the payload of entry `i`.
pub proof fn lemma_update<A, B>(s: Seq<(A, B)>, i: int, b: B)
    requires
        distinct_keys(s),
        0 <= i < s.len(),
    ensures
        distinct_keys(s.update(i, (s[i].0, b))),
        forall|a: A|
            #[trigger] find(s.update(i, (s[i].0, b)), a) == if a == s[i].0 {
                Some(b)
            } else {
                find(s, a)
            },
{
    let t = s.update(i, (s[i].0, b));
    assert(distinct_keys(t));
    assert forall|a: A| #[trigger]
        find(t, a) == if a == s[i].0 {
            Some(b)
        } else {
            find(s, a)
        } by {
        lemma_find_is_some(s, a);
        lemma_find_is_some(t, a);
        if has_key_in(t, a) {
            let j = choose|j: int| 0 <= j < t.len() && t[j].0 == a;
            lemma_find_at(t, j);
            if a != s[i].0 {
                lemma_find_at(s, j);
            }
        } else {
            if has_key_in(s, a) {
                let j = choose|j: int| 0 <= j < s.len() && s[j].0 == a;
                assert(t[j].0 == a);
            }
        }
    }
}

/// Appending an entry under a new key.
pub proof fn lemma_push<A, B>(s: Seq<(A, B)>, a0: A, b: B)
    requires
        distinct_keys(s),
        !has_key_in(s, a0),
    ensures
        distinct_keys(s.push((a0, b))),
        forall|a: A|
            #[trigger] find(s.push((a0, b)), a) == if a == a0 {
                Some(b)
            } else {
                find(s, a)
            },
{
    let t = s.push((a0, b));
    assert forall|i: int, j: int| 0 <= i < j < t.len() implies t[i].0 != t[j].0 by {
        if j == s.len() {
            assert(s[i].0 == t[i].0);
        }
    }
    assert forall|a: A| #[trigger]
        find(t, a) == if a == a0 {
            Some(b)
        } else {
            find(s, a)
        } by {
        lemma_find_is_some(s, a);
        lemma_find_is_some(t, a);
        if a == a0 {
            lemma_find_at(t, s.len() as int);
        } else if has_key_in(s, a) {
            let j = choose|j: int| 0 <= j < s.len() && s[j].0 == a;
            lemma_find_at(s, j);
            lemma_find_at(t, j);
        } else if has_key_in(t, a) {
            let j = choose|j: int| 0 <= j < t.len() && t[j].0 == a;
            assert(s[j].0 == a);
        }
    }
}

/// Taking out entry `i`.
pub proof fn lemma_remove<A, B>(s: Seq<(A, B)>, i: int)
    requires
        distinct_keys(s),
        0 <= i < s.len(),
    ensures
        distinct_keys(s.remove(i)),
        forall|a: A|
            #[trigger] find(s.remove(i), a) == if a == s[i].0 {
                None
            } else {
                find(s, a)
            },
{
    let t = s.remove(i);
    assert forall|p: int, q: int| 0 <= p < q < t.len() implies t[p].0 != t[q].0 by {
        let pp = if p < i { p } else { p + 1 };
        let qq = if q < i { q } else { q + 1 };
        assert(t[p] == s[pp]);
        assert(t[q] == s[qq]);
    }
    assert forall|a: A| #[trigger]
        find(t, a) == if a == s[i].0 {
            None
        } else {
            find(s, a)
        } by {
        lemma_find_is_some(s, a);
        lemma_find_is_some(t, a);
        if has_key_in(t, a) {
            let j = choose|j: int| 0 <= j < t.len() && t[j].0 == a;
            let jj = if j < i { j } else { j + 1 };
            assert(t[j] == s[jj]);
            lemma_find_at(t, j);
            lemma_find_at(s, jj);
        } else if has_key_in(s, a) && a != s[i].0 {
            let j = choose|j: int| 0 <= j < s.len() && s[j].0 == a;
            let jt = if j < i { j } else { j - 1 };
            assert(t[jt] == s[j]);
        }
    }
}

} // verus!
