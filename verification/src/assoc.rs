//! Association sequences: key-value pairs with unique keys, the store's
//! registries. The specs are generic; lookups are pointwise.

use vstd::prelude::*;

verus! {

/// A key occurs in the sequence.
pub open spec fn assoc_has<K, V>(m: Seq<(K, V)>, k: K) -> bool {
    exists|i: int| 0 <= i < m.len() && (#[trigger] m[i]).0 == k
}

/// The index at which a key occurs.
pub open spec fn assoc_idx<K, V>(m: Seq<(K, V)>, k: K) -> int {
    choose|i: int| 0 <= i < m.len() && (#[trigger] m[i]).0 == k
}

/// The value stored under a key, if any.
pub open spec fn assoc_get<K, V>(m: Seq<(K, V)>, k: K) -> Option<V> {
    if assoc_has(m, k) {
        Some(m[assoc_idx(m, k)].1)
    } else {
        None
    }
}

/// No key occurs twice.
pub open spec fn assoc_unique<K, V>(m: Seq<(K, V)>) -> bool {
    forall|i: int, j: int|
        #![trigger m[i], m[j]]
        0 <= i < j < m.len() ==> m[i].0 != m[j].0
}

/// In a unique sequence, an occurrence determines the lookup.
pub proof fn lemma_assoc_found<K, V>(m: Seq<(K, V)>, k: K, i: int)
    requires
        assoc_unique(m),
        0 <= i < m.len(),
        m[i].0 == k,
    ensures
        assoc_has(m, k),
        assoc_idx(m, k) == i,
        assoc_get(m, k) == Some(m[i].1),
{
    assert(assoc_has(m, k));
    let j = assoc_idx(m, k);
    assert(0 <= j < m.len() && m[j].0 == k);
    if i < j {
        assert(m[i].0 != m[j].0);
    }
    if j < i {
        assert(m[j].0 != m[i].0);
    }
}

/// Replacing the pair at the key's index rewrites only that key's value.
pub proof fn lemma_assoc_update<K, V>(m: Seq<(K, V)>, k: K, v: V, i: int)
    requires
        assoc_unique(m),
        0 <= i < m.len(),
        m[i].0 == k,
    ensures
        assoc_unique(m.update(i, (k, v))),
        forall|k2: K|
            #[trigger] assoc_get(m.update(i, (k, v)), k2) == if k2 == k {
                Some(v)
            } else {
                assoc_get(m, k2)
            },
{
    let m2 = m.update(i, (k, v));
    assert forall|a: int, b: int|
        #![trigger m2[a], m2[b]]
        0 <= a < b < m2.len() implies m2[a].0 != m2[b].0 by {
        if a != i && b != i {
            assert(m2[a] == m[a] && m2[b] == m[b]);
        } else if a == i {
            assert(m2[b] == m[b]);
            assert(m[i].0 != m[b].0);
        } else {
            assert(m2[a] == m[a]);
            assert(m[a].0 != m[i].0);
        }
    }
    assert forall|k2: K|
        #[trigger] assoc_get(m2, k2) == (if k2 == k {
            Some(v)
        } else {
            assoc_get(m, k2)
        }) by {
        if k2 == k {
            lemma_assoc_found(m2, k, i);
        } else {
            if assoc_has(m2, k2) {
                let j = assoc_idx(m2, k2);
                assert(0 <= j < m2.len() && m2[j].0 == k2);
                assert(j != i);
                assert(m[j] == m2[j]);
                lemma_assoc_found(m, k2, j);
                lemma_assoc_found(m2, k2, j);
            } else {
                if assoc_has(m, k2) {
                    let j = assoc_idx(m, k2);
                    assert(0 <= j < m.len() && m[j].0 == k2);
                    assert(j != i);
                    assert(m2[j] == m[j]);
                    assert(assoc_has(m2, k2));
                }
            }
        }
    }
}

/// Appending a fresh key adds only that binding.
pub proof fn lemma_assoc_push<K, V>(m: Seq<(K, V)>, k: K, v: V)
    requires
        assoc_unique(m),
        !assoc_has(m, k),
    ensures
        assoc_unique(m.push((k, v))),
        forall|k2: K|
            #[trigger] assoc_get(m.push((k, v)), k2) == if k2 == k {
                Some(v)
            } else {
                assoc_get(m, k2)
            },
{
    let m2 = m.push((k, v));
    assert forall|a: int, b: int|
        #![trigger m2[a], m2[b]]
        0 <= a < b < m2.len() implies m2[a].0 != m2[b].0 by {
        if b < m.len() {
            assert(m2[a] == m[a] && m2[b] == m[b]);
        } else {
            assert(m2[a] == m[a] && m2[b] == (k, v));
            if m[a].0 == k {
                assert(assoc_has(m, k));
            }
        }
    }
    assert forall|k2: K|
        #[trigger] assoc_get(m2, k2) == (if k2 == k {
            Some(v)
        } else {
            assoc_get(m, k2)
        }) by {
        if k2 == k {
            lemma_assoc_found(m2, k, m.len() as int);
        } else {
            if assoc_has(m2, k2) {
                let j = assoc_idx(m2, k2);
                assert(0 <= j < m2.len() && m2[j].0 == k2);
                assert(j != m.len());
                assert(m[j] == m2[j]);
                lemma_assoc_found(m, k2, j);
                lemma_assoc_found(m2, k2, j);
            } else {
                if assoc_has(m, k2) {
                    let j = assoc_idx(m, k2);
                    assert(m2[j] == m[j]);
                    assert(assoc_has(m2, k2));
                }
            }
        }
    }
}

/// Removing the pair at the key's index deletes only that binding.
pub proof fn lemma_assoc_remove<K, V>(m: Seq<(K, V)>, k: K, i: int)
    requires
        assoc_unique(m),
        0 <= i < m.len(),
        m[i].0 == k,
    ensures
        assoc_unique(m.remove(i)),
        forall|k2: K|
            #[trigger] assoc_get(m.remove(i), k2) == if k2 == k {
                None
            } else {
                assoc_get(m, k2)
            },
{
    let m2 = m.remove(i);
    assert forall|a: int, b: int|
        #![trigger m2[a], m2[b]]
        0 <= a < b < m2.len() implies m2[a].0 != m2[b].0 by {
        let a0 = if a < i {
            a
        } else {
            a + 1
        };
        let b0 = if b < i {
            b
        } else {
            b + 1
        };
        assert(m2[a] == m[a0] && m2[b] == m[b0]);
        assert(m[a0].0 != m[b0].0);
    }
    assert forall|k2: K|
        #[trigger] assoc_get(m2, k2) == (if k2 == k {
            None
        } else {
            assoc_get(m, k2)
        }) by {
        if k2 == k {
            if assoc_has(m2, k) {
                let j = assoc_idx(m2, k);
                assert(0 <= j < m2.len() && m2[j].0 == k);
                let j0 = if j < i {
                    j
                } else {
                    j + 1
                };
                assert(m2[j] == m[j0]);
                assert(j0 != i);
                if j0 < i {
                    assert(m[j0].0 != m[i].0);
                } else {
                    assert(m[i].0 != m[j0].0);
                }
            }
        } else {
            if assoc_has(m2, k2) {
                let j = assoc_idx(m2, k2);
                let j0 = if j < i {
                    j
                } else {
                    j + 1
                };
                assert(m2[j] == m[j0]);
                lemma_assoc_found(m, k2, j0);
                lemma_assoc_found(m2, k2, j);
            } else if assoc_has(m, k2) {
                let j0 = assoc_idx(m, k2);
                assert(0 <= j0 < m.len() && m[j0].0 == k2);
                assert(j0 != i);
                let j = if j0 < i {
                    j0
                } else {
                    j0 - 1
                };
                assert(m2[j] == m[j0]);
                assert(assoc_has(m2, k2));
            }
        }
    }
}

/// One step of filtering: what appending one element adds.
pub proof fn lemma_filter_step<A>(s: Seq<A>, pred: spec_fn(A) -> bool, i: int)
    requires
        0 <= i < s.len(),
    ensures
        s.take(i + 1).filter(pred) == if pred(s[i]) {
            s.take(i).filter(pred).push(s[i])
        } else {
            s.take(i).filter(pred)
        },
{
    reveal(Seq::filter);
    assert(s.take(i + 1).drop_last() =~= s.take(i));
    assert(s.take(i + 1).last() == s[i]);
}

/// Membership survives appending.
pub proof fn lemma_push_contains<A>(s: Seq<A>, y: A, x: A)
    requires
        s.contains(x),
    ensures
        s.push(y).contains(x),
{
    let i = choose|i: int| 0 <= i < s.len() && s[i] == x;
    assert(s.push(y)[i] == x);
}

/// Every element of a filtered sequence occurs in the original.
pub proof fn lemma_filter_elements_come_from<A>(s: Seq<A>, pred: spec_fn(A) -> bool, j: int)
    requires
        0 <= j < s.filter(pred).len(),
    ensures
        exists|i: int| 0 <= i < s.len() && s[i] == s.filter(pred)[j],
    decreases s.len(),
{
    reveal(Seq::filter);
    if s.len() > 0 {
        let prev = s.drop_last();
        let fp = prev.filter(pred);
        if j < fp.len() {
            lemma_filter_elements_come_from(prev, pred, j);
            let i = choose|i: int| 0 <= i < prev.len() && prev[i] == fp[j];
            assert(s[i] == prev[i]);
        } else {
            assert(s.filter(pred)[j] == s.last());
            assert(s[s.len() - 1] == s.last());
        }
    }
}

} // verus!
