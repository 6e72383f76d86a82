//! A small map keyed by symbol.
//!
//! There are only ever a handful of trading pairs, so a list in order of first
//! appearance is all the structure a lookup needs.

use crate::engine::text;
use crate::engine::types::Symbol;
use vstd::prelude::*;

verus! {

#[derive(Debug)]
pub struct SymbolMap<T> {
    entries: Vec<(Symbol, T)>,
}

/// The place of `key` among the entries, or their number if it is not there.
spec fn slot<T>(s: Seq<(Symbol, T)>, key: Seq<char>) -> int
    decreases s.len(),
{
    if s.len() == 0 {
        0
    } else {
        let at = slot(s.drop_last(), key);
        if at < s.len() - 1 || s.last().0@ == key {
            at
        } else {
            s.len() as int
        }
    }
}

proof fn lemma_slot_is<T>(s: Seq<(Symbol, T)>, key: Seq<char>, k: int)
    requires
        0 <= k <= s.len(),
        k < s.len() ==> s[k].0@ == key,
        forall|i: int| 0 <= i < k ==> (#[trigger] s[i]).0@ != key,
    ensures
        slot(s, key) == k,
    decreases s.len(),
{
    if s.len() > 0 {
        let t = s.drop_last();
        if k < s.len() {
            lemma_slot_is(t, key, k);
        } else {
            lemma_slot_is(t, key, k - 1);
            assert(s[k - 1].0@ != key);
        }
    }
}

proof fn lemma_slot_found<T>(s: Seq<(Symbol, T)>, key: Seq<char>)
    ensures
        0 <= slot(s, key) <= s.len(),
        slot(s, key) < s.len() ==> s[slot(s, key)].0@ == key,
        forall|i: int| 0 <= i < slot(s, key) ==> (#[trigger] s[i]).0@ != key,
    decreases s.len(),
{
    if s.len() > 0 {
        lemma_slot_found(s.drop_last(), key);
        assert forall|i: int| 0 <= i < slot(s, key) implies (#[trigger] s[i]).0@ != key by {
            if i < s.len() - 1 {
                assert(s[i] == s.drop_last()[i]);
            }
        }
    }
}

spec fn as_map<T>(s: Seq<(Symbol, T)>) -> Map<Seq<char>, T> {
    Map::new(|k: Seq<char>| slot(s, k) < s.len(), |k: Seq<char>| s[slot(s, k)].1)
}

spec fn keys<T>(s: Seq<(Symbol, T)>) -> Seq<Seq<char>> {
    s.map_values(|e: (Symbol, T)| e.0@)
}

/// Replacing the value in one entry replaces it under that key alone.
spec fn updated<T>(s: Seq<(Symbol, T)>, i: int, v: T, key: Seq<char>) -> bool {
    let t = s.update(i, (s[i].0, v));
    &&& as_map(t) == as_map(s).insert(key, v)
    &&& keys(t) == keys(s)
}

proof fn lemma_updated<T>(s: Seq<(Symbol, T)>, i: int, v: T, key: Seq<char>)
    requires
        0 <= i < s.len(),
        s[i].0@ == key,
        slot(s, key) == i,
    ensures
        updated(s, i, v, key),
{
    let t = s.update(i, (s[i].0, v));
    assert forall|k: Seq<char>| slot(t, k) == slot(s, k) by {
        lemma_slot_found(s, k);
        lemma_slot_is(t, k, slot(s, k));
    }
    assert forall|k: Seq<char>| k != key implies slot(s, k) != i by {
        lemma_slot_found(s, k);
    }
    assert forall|k: Seq<char>|
        as_map(t).contains_key(k) <==> #[trigger] as_map(s).insert(key, v).contains_key(k) by {
        assert(slot(t, k) == slot(s, k));
    }
    assert forall|k: Seq<char>| #[trigger] as_map(t).contains_key(k) implies as_map(t)[k] == as_map(
        s,
    ).insert(key, v)[k] by {
        assert(slot(t, k) == slot(s, k));
        lemma_slot_found(s, k);
    }
    assert(as_map(t) =~= as_map(s).insert(key, v));
    assert(keys(t) =~= keys(s));
}

impl<T> View for SymbolMap<T> {
    type V = Map<Seq<char>, T>;

    closed spec fn view(&self) -> Map<Seq<char>, T> {
        as_map(self.entries@)
    }
}

impl<T> SymbolMap<T> {
    /// No symbol is entered twice.
    pub closed spec fn wf(&self) -> bool {
        forall|i: int, j: int|
            0 <= i < j < self.entries@.len() ==> (#[trigger] self.entries@[i]).0@ != (
            #[trigger] self.entries@[j]).0@
    }

    /// The symbols, in order of first appearance.
    pub closed spec fn order(&self) -> Seq<Seq<char>> {
        keys(self.entries@)
    }

    /// The order names each key once.
    pub proof fn lemma_order(&self)
        requires
            self.wf(),
        ensures
            self.order().no_duplicates(),
            self.order().to_set() == self@.dom(),
            forall|i: int| 0 <= i < self.order().len() ==> self@.contains_key(#[trigger] self.order()[i]),
            self@.dom().finite(),
            self@.len() == self.order().len(),
    {
        let o = self.order();
        assert forall|i: int| 0 <= i < o.len() implies self@.contains_key(#[trigger] o[i]) by {
            self.lemma_entry(i);
        }
        assert forall|k: Seq<char>| self@.contains_key(k) implies o.to_set().contains(k) by {
            lemma_slot_found(self.entries@, k);
            assert(o[slot(self.entries@, k)] == k);
        }
        assert forall|i: int, j: int| 0 <= i < j < o.len() implies o[i] != o[j] by {
            assert(self.entries@[i].0@ != self.entries@[j].0@);
        }
        assert(o.no_duplicates());
        assert(o.to_set() =~= self@.dom());
        o.unique_seq_to_set();
    }

    proof fn lemma_entry(&self, i: int)
        requires
            self.wf(),
            0 <= i < self.entries@.len(),
        ensures
            self@.contains_key(self.entries@[i].0@),
            self@[self.entries@[i].0@] == self.entries@[i].1,
            slot(self.entries@, self.entries@[i].0@) == i,
    {
        lemma_slot_is(self.entries@, self.entries@[i].0@, i);
    }

    pub fn new() -> (r: Self)
        ensures
            r.wf(),
            r@ == Map::<Seq<char>, T>::empty(),
            r.order() == Seq::<Seq<char>>::empty(),
    {
        let r = SymbolMap { entries: Vec::new() };
        assert(r@ =~= Map::<Seq<char>, T>::empty());
        assert(r.order() =~= Seq::<Seq<char>>::empty());
        r
    }

    fn find(&self, symbol: &str) -> (r: usize)
        ensures
            r == slot(self.entries@, symbol@),
            r <= self.entries@.len(),
            r < self.entries@.len() ==> self.entries@[r as int].0@ == symbol@,
    {
        let mut i: usize = 0;
        while i < self.entries.len()
            invariant
                i <= self.entries@.len(),
                forall|k: int| 0 <= k < i ==> (#[trigger] self.entries@[k]).0@ != symbol@,
            decreases self.entries@.len() - i,
        {
            if text::same(self.entries[i].0, symbol) {
                proof {
                    lemma_slot_is(self.entries@, symbol@, i as int);
                }
                return i;
            }
            i = i + 1;
        }
        proof {
            lemma_slot_is(self.entries@, symbol@, i as int);
        }
        i
    }

    pub fn get(&self, symbol: &str) -> (r: Option<&T>)
        ensures
            match r {
                Some(v) => self@.contains_key(symbol@) && *v == self@[symbol@],
                None => !self@.contains_key(symbol@),
            },
    {
        let i = self.find(symbol);
        if i < self.entries.len() {
            Some(&self.entries[i].1)
        } else {
            None
        }
    }

    pub fn get_mut(&mut self, symbol: &str) -> (r: Option<&mut T>)
        requires
            old(self).wf(),
        ensures
            final(self).wf(),
            final(self).order() == old(self).order(),
            match r {
                Some(v) => {
                    &&& old(self)@.contains_key(symbol@)
                    &&& *v == old(self)@[symbol@]
                    &&& final(self)@ == old(self)@.insert(symbol@, *final(v))
                },
                None => !old(self)@.contains_key(symbol@) && final(self)@ == old(self)@,
            },
    {
        let i = self.find(symbol);
        if i < self.entries.len() {
            let ghost before = self.entries@;
            let value = &mut self.entries[i].1;
            proof {
                lemma_updated(before, i as int, *final(value), symbol@);
            }
            Some(value)
        } else {
            None
        }
    }

    /// Enters a symbol that is not there yet.
    pub fn insert(&mut self, symbol: Symbol, value: T)
        requires
            old(self).wf(),
            !old(self)@.contains_key(symbol@),
        ensures
            final(self).wf(),
            final(self)@ == old(self)@.insert(symbol@, value),
            final(self).order() == old(self).order().push(symbol@),
    {
        let ghost before = self.entries@;
        proof {
            lemma_slot_found(before, symbol@);
        }
        self.entries.push((symbol, value));
        proof {
            let s = self.entries@;
            assert(s.drop_last() =~= before);
            assert forall|k: Seq<char>|
                as_map(s).contains_key(k) <==> #[trigger] as_map(before).insert(
                    symbol@,
                    value,
                ).contains_key(k) by {
                lemma_slot_found(before, k);
            }
            assert forall|k: Seq<char>| #[trigger] as_map(s).contains_key(k) implies as_map(s)[k]
                == as_map(before).insert(symbol@, value)[k] by {
                lemma_slot_found(before, k);
                lemma_slot_found(s, k);
            }
            assert(as_map(s) =~= as_map(before).insert(symbol@, value));
            assert(keys(s) =~= keys(before).push(symbol@));
        }
    }

    /// The symbol and value at one place of the order.
    pub fn at(&self, i: usize) -> (r: (Symbol, &T))
        requires
            self.wf(),
            i < self.order().len(),
        ensures
            r.0@ == self.order()[i as int],
            self@.contains_key(r.0@),
            *r.1 == self@[r.0@],
    {
        proof {
            self.lemma_entry(i as int);
        }
        (self.entries[i].0, &self.entries[i].1)
    }

    pub fn len(&self) -> (r: usize)
        ensures
            r == self.order().len(),
    {
        self.entries.len()
    }
}

} // verus!
