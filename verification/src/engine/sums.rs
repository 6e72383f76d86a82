//! Adding up the values of a finite map.

use vstd::prelude::*;

verus! {

/// The sum of a map's values.
pub open spec fn sum_values<K>(m: Map<K, int>) -> int
    decreases m.len(),
    when m.dom().finite()
{
    if m.len() == 0 {
        0
    } else {
        let k = m.dom().choose();
        m[k] + sum_values(m.remove(k))
    }
}

/// Any key may be counted first.
pub proof fn lemma_sum_split<K>(m: Map<K, int>, k: K)
    requires
        m.dom().finite(),
        m.contains_key(k),
    ensures
        sum_values(m) == m[k] + sum_values(m.remove(k)),
    decreases m.len(),
{
    let c = m.dom().choose();
    assert(m.dom().contains(k));
    assert(m.len() > 0);
    if c != k {
        lemma_sum_split(m.remove(c), k);
        lemma_sum_split(m.remove(k), c);
        assert(m.remove(c).remove(k) =~= m.remove(k).remove(c));
    }
}

/// Setting one value moves the sum by the change in that value.
pub proof fn lemma_sum_insert<K>(m: Map<K, int>, k: K, v: int)
    requires
        m.dom().finite(),
    ensures
        sum_values(m.insert(k, v)) == sum_values(m) + v - (if m.contains_key(k) {
            m[k]
        } else {
            0
        }),
{
    lemma_sum_split(m.insert(k, v), k);
    if m.contains_key(k) {
        lemma_sum_split(m, k);
        assert(m.insert(k, v).remove(k) =~= m.remove(k));
    } else {
        assert(m.insert(k, v).remove(k) =~= m);
    }
}

/// The sum of the values under the listed keys.
pub open spec fn sum_over<K>(keys: Seq<K>, m: Map<K, int>) -> int
    decreases keys.len(),
{
    if keys.len() == 0 {
        0
    } else {
        sum_over(keys.drop_last(), m) + m[keys.last()]
    }
}

proof fn lemma_sum_over_ignores<K>(keys: Seq<K>, m: Map<K, int>, k: K)
    requires
        !keys.contains(k),
    ensures
        sum_over(keys, m.remove(k)) == sum_over(keys, m),
    decreases keys.len(),
{
    if keys.len() > 0 {
        let front = keys.drop_last();
        assert(keys.contains(keys.last()));
        assert forall|x: K| front.contains(x) implies keys.contains(x) by {
            let i = choose|i: int| 0 <= i < front.len() && front[i] == x;
            assert(keys[i] == x);
        }
        lemma_sum_over_ignores(front, m, k);
    }
}

/// Listing every key once adds up the whole map.
pub proof fn lemma_sum_over<K>(keys: Seq<K>, m: Map<K, int>)
    requires
        m.dom().finite(),
        keys.no_duplicates(),
        keys.to_set() == m.dom(),
    ensures
        sum_over(keys, m) == sum_values(m),
    decreases keys.len(),
{
    if keys.len() == 0 {
        assert(m.dom() =~= Set::empty()) by {
            assert forall|k: K| !m.dom().contains(k) by {
                assert(keys.to_set().contains(k) == m.dom().contains(k));
            }
        }
        assert(m.len() == 0);
    } else {
        let front = keys.drop_last();
        let k = keys.last();
        assert(keys.to_set().contains(k));
        assert(!front.contains(k));
        assert(front.to_set() =~= m.remove(k).dom()) by {
            assert forall|x: K| front.to_set().contains(x) <==> m.remove(k).dom().contains(x) by {
                assert(keys.to_set().contains(x) == m.dom().contains(x));
                if front.contains(x) {
                    let i = choose|i: int| 0 <= i < front.len() && front[i] == x;
                    assert(keys[i] == x);
                }
                if keys.contains(x) && x != k {
                    let i = choose|i: int| 0 <= i < keys.len() && keys[i] == x;
                    assert(front[i] == x);
                }
            }
        }
        lemma_sum_over(front, m.remove(k));
        lemma_sum_over_ignores(front, m, k);
        lemma_sum_split(m, k);
    }
}

} // verus!
