//! Association lists: sequences of key-value pairs, read as ordered mappings.
//!
//! Story metadata, passage metadata and element attributes are all ordered
//! mappings keyed by text.  These are their mathematical operations.

use vstd::prelude::*;

verus! {

/// The position of the first entry of `m` with key `k`.
pub open spec fn find_key<V>(m: Seq<(Seq<char>, V)>, k: Seq<char>) -> Option<int>
    decreases m.len(),
{
    if m.len() == 0 {
        None
    } else if m.last().0 != k && find_key(m.drop_last(), k) is None {
        None
    } else if find_key(m.drop_last(), k) is Some {
        find_key(m.drop_last(), k)
    } else {
        Some(m.len() - 1)
    }
}

/// The value that `m` maps `k` to.
pub open spec fn lookup<V>(m: Seq<(Seq<char>, V)>, k: Seq<char>) -> Option<V> {
    match find_key(m, k) {
        Some(i) => Some(m[i].1),
        None => None,
    }
}

/// `m` with `k` mapped to `v`: in place where `k` is already a key, at the
/// end where it is not.
pub open spec fn upsert<V>(m: Seq<(Seq<char>, V)>, k: Seq<char>, v: V) -> Seq<(Seq<char>, V)> {
    match find_key(m, k) {
        Some(i) => m.update(i, (k, v)),
        None => m.push((k, v)),
    }
}

/// `m` without its first entry for `k`; the other entries keep their order.
pub open spec fn without<V>(m: Seq<(Seq<char>, V)>, k: Seq<char>) -> Seq<(Seq<char>, V)> {
    match find_key(m, k) {
        Some(i) => m.remove(i),
        None => m,
    }
}

/// No key occurs twice in `m`.
pub open spec fn unique_keys<V>(m: Seq<(Seq<char>, V)>) -> bool {
    forall|i: int, j: int|
        0 <= i < j < m.len() ==> (#[trigger] m[i]).0 != (#[trigger] m[j]).0
}

/// `find_key` returns the least position that holds the key, and `None`
/// exactly when no position does.
pub proof fn lemma_find_key<V>(m: Seq<(Seq<char>, V)>, k: Seq<char>)
    ensures
        match find_key(m, k) {
            Some(i) => 0 <= i < m.len() && m[i].0 == k && forall|j: int|
                0 <= j < i ==> (#[trigger] m[j]).0 != k,
            None => forall|j: int| 0 <= j < m.len() ==> (#[trigger] m[j]).0 != k,
        },
    decreases m.len(),
{
    if m.len() > 0 {
        lemma_find_key(m.drop_last(), k);
        assert(forall|j: int| 0 <= j < m.len() - 1 ==> m.drop_last()[j] == m[j]);
    }
}

/// A position that holds the key, with no earlier one that does, is what
/// `find_key` returns.
pub proof fn lemma_find_key_is<V>(m: Seq<(Seq<char>, V)>, k: Seq<char>, i: int)
    requires
        0 <= i < m.len(),
        m[i].0 == k,
        forall|j: int| 0 <= j < i ==> (#[trigger] m[j]).0 != k,
    ensures
        find_key(m, k) == Some(i),
{
    lemma_find_key(m, k);
}

/// Where no position holds the key, `find_key` returns `None`.
pub proof fn lemma_find_key_none<V>(m: Seq<(Seq<char>, V)>, k: Seq<char>)
    requires
        forall|j: int| 0 <= j < m.len() ==> (#[trigger] m[j]).0 != k,
    ensures
        find_key(m, k) is None,
{
    lemma_find_key(m, k);
}

/// `upsert` keeps keys unique.
pub proof fn lemma_upsert_unique<V>(m: Seq<(Seq<char>, V)>, k: Seq<char>, v: V)
    requires
        unique_keys(m),
    ensures
        unique_keys(upsert(m, k, v)),
{
    lemma_find_key(m, k);
    let r = upsert(m, k, v);
    assert forall|i: int, j: int| 0 <= i < j < r.len() implies (#[trigger] r[i]).0 != (
    #[trigger] r[j]).0 by {
        match find_key(m, k) {
            Some(p) => {
                assert(r[i].0 == m[i].0);
                assert(r[j].0 == m[j].0);
            },
            None => {
                if j < m.len() {
                    assert(r[i] == m[i] && r[j] == m[j]);
                } else {
                    assert(r[i] == m[i]);
                }
            },
        }
    }
}

/// `without` keeps keys unique, and the key is gone afterwards.
pub proof fn lemma_without_unique<V>(m: Seq<(Seq<char>, V)>, k: Seq<char>)
    requires
        unique_keys(m),
    ensures
        unique_keys(without(m, k)),
        find_key(without(m, k), k) is None,
{
    lemma_find_key(m, k);
    let r = without(m, k);
    match find_key(m, k) {
        Some(p) => {
            assert forall|i: int, j: int| 0 <= i < j < r.len() implies (#[trigger] r[i]).0 != (
            #[trigger] r[j]).0 by {
                let a = if i < p { i } else { i + 1 };
                let b = if j < p { j } else { j + 1 };
                assert(r[i] == m[a] && r[j] == m[b]);
            }
            assert forall|j: int| 0 <= j < r.len() implies (#[trigger] r[j]).0 != k by {
                let b = if j < p { j } else { j + 1 };
                assert(r[j] == m[b]);
                if b < p {
                } else {
                    assert(m[p].0 != m[b].0);
                }
            }
            lemma_find_key_none(r, k);
        },
        None => {},
    }
}

/// After `upsert`, the key maps to the new value and every other key to
/// what it mapped to before.
pub proof fn lemma_lookup_upsert<V>(m: Seq<(Seq<char>, V)>, k: Seq<char>, v: V, q: Seq<char>)
    ensures
        lookup(upsert(m, k, v), q) == if q == k {
            Some(v)
        } else {
            lookup(m, q)
        },
{
    lemma_find_key(m, k);
    lemma_find_key(m, q);
    let r = upsert(m, k, v);
    match find_key(m, k) {
        Some(p) => {
            if q == k {
                assert forall|j: int| 0 <= j < p implies (#[trigger] r[j]).0 != q by {
                    assert(r[j] == m[j]);
                }
                lemma_find_key_is(r, q, p);
            } else {
                match find_key(m, q) {
                    Some(i) => {
                        assert forall|j: int| 0 <= j < i implies (#[trigger] r[j]).0 != q by {
                            assert(r[j].0 == m[j].0);
                        }
                        lemma_find_key_is(r, q, i);
                    },
                    None => {
                        assert forall|j: int| 0 <= j < r.len() implies (#[trigger] r[j]).0
                            != q by {
                            assert(r[j].0 == m[j].0);
                        }
                        lemma_find_key_none(r, q);
                    },
                }
            }
        },
        None => {
            if q == k {
                assert forall|j: int| 0 <= j < m.len() implies (#[trigger] r[j]).0 != q by {
                    assert(r[j] == m[j]);
                }
                lemma_find_key_is(r, q, m.len() as int);
            } else {
                match find_key(m, q) {
                    Some(i) => {
                        assert forall|j: int| 0 <= j < i implies (#[trigger] r[j]).0 != q by {
                            assert(r[j] == m[j]);
                        }
                        assert(r[i] == m[i]);
                        lemma_find_key_is(r, q, i);
                    },
                    None => {
                        assert forall|j: int| 0 <= j < r.len() implies (#[trigger] r[j]).0
                            != q by {
                            if j < m.len() {
                                assert(r[j] == m[j]);
                            }
                        }
                        lemma_find_key_none(r, q);
                    },
                }
            }
        },
    }
}

/// After `without` on a mapping with unique keys, the key maps to nothing
/// and every other key to what it mapped to before.
pub proof fn lemma_lookup_without<V>(m: Seq<(Seq<char>, V)>, k: Seq<char>, q: Seq<char>)
    requires
        unique_keys(m),
    ensures
        lookup(without(m, k), q) == if q == k {
            None
        } else {
            lookup(m, q)
        },
{
    lemma_find_key(m, k);
    lemma_find_key(m, q);
    lemma_without_unique(m, k);
    let r = without(m, k);
    match find_key(m, k) {
        Some(p) => {
            if q != k {
                match find_key(m, q) {
                    Some(i) => {
                        let at = if i < p {
                            i
                        } else {
                            i - 1
                        };
                        assert(r[at] == m[i]);
                        assert forall|j: int| 0 <= j < at implies (#[trigger] r[j]).0 != q by {
                            let b = if j < p {
                                j
                            } else {
                                j + 1
                            };
                            assert(r[j] == m[b]);
                        }
                        lemma_find_key_is(r, q, at);
                    },
                    None => {
                        assert forall|j: int| 0 <= j < r.len() implies (#[trigger] r[j]).0
                            != q by {
                            let b = if j < p {
                                j
                            } else {
                                j + 1
                            };
                            assert(r[j] == m[b]);
                        }
                        lemma_find_key_none(r, q);
                    },
                }
            }
        },
        None => {},
    }
}

/// A key of the first of two lists is found there; any other key is found
/// in the second list or not at all.
pub proof fn lemma_lookup_concat<V>(a: Seq<(Seq<char>, V)>, b: Seq<(Seq<char>, V)>, q: Seq<char>)
    ensures
        lookup(a + b, q) == if lookup(a, q) is Some {
            lookup(a, q)
        } else {
            lookup(b, q)
        },
        find_key(a + b, q) == if find_key(a, q) is Some {
            find_key(a, q)
        } else {
            match find_key(b, q) {
                Some(i) => Some(a.len() + i),
                None => None,
            }
        },
{
    lemma_find_key(a, q);
    lemma_find_key(b, q);
    let r = a + b;
    match find_key(a, q) {
        Some(i) => {
            assert(r[i] == a[i]);
            assert forall|j: int| 0 <= j < i implies (#[trigger] r[j]).0 != q by {
                assert(r[j] == a[j]);
            }
            lemma_find_key_is(r, q, i);
        },
        None => {
            match find_key(b, q) {
                Some(i) => {
                    assert(r[a.len() + i] == b[i]);
                    assert forall|j: int| 0 <= j < a.len() + i implies (#[trigger] r[j]).0
                        != q by {
                        if j < a.len() {
                            assert(r[j] == a[j]);
                        } else {
                            assert(r[j] == b[j - a.len()]);
                        }
                    }
                    lemma_find_key_is(r, q, a.len() + i);
                },
                None => {
                    assert forall|j: int| 0 <= j < r.len() implies (#[trigger] r[j]).0 != q by {
                        if j < a.len() {
                            assert(r[j] == a[j]);
                        } else {
                            assert(r[j] == b[j - a.len()]);
                        }
                    }
                    lemma_find_key_none(r, q);
                },
            }
        },
    }
}

} // verus!
