//! The symbols that have a book, in dictionary order.

use crate::engine::matcher::{Engine, EngineView};
use crate::engine::text;
use crate::engine::text::{lemma_precedes_total, lemma_precedes_transitive, precedes};
use crate::engine::types::Symbol;
use vstd::prelude::*;

verus! {

/// Each name stands before all that follow it.
pub open spec fn in_dictionary_order(names: Seq<Seq<char>>) -> bool {
    forall|i: int, j: int|
        0 <= i < j < names.len() ==> precedes(#[trigger] names[i], #[trigger] names[j])
}

/// Whether `names` lists the symbols that have a book, in dictionary order.
pub open spec fn lists_books(v: EngineView, names: Seq<Seq<char>>) -> bool {
    in_dictionary_order(names) && names.to_set() == v.books.dom()
}

/// The symbols that have a book, in dictionary order.
pub open spec fn book_names(v: EngineView) -> Seq<Seq<char>> {
    choose|names: Seq<Seq<char>>| lists_books(v, names)
}

/// Symbols by their characters.
pub open spec fn named(symbols: Seq<Symbol>) -> Seq<Seq<char>> {
    symbols.map_values(|s: Symbol| s@)
}

/// There is one way to put a set of names in dictionary order.
pub proof fn lemma_one_order(a: Seq<Seq<char>>, b: Seq<Seq<char>>)
    requires
        in_dictionary_order(a),
        in_dictionary_order(b),
        a.to_set() == b.to_set(),
    ensures
        a == b,
    decreases a.len(),
{
    if a.len() == 0 {
        if b.len() > 0 {
            assert(b.to_set().contains(b[0]));
            assert(a.to_set().contains(b[0]));
        }
        assert(a =~= b);
    } else {
        assert(a.to_set().contains(a[0]));
        assert(b.contains(a[0]));
        let i = choose|i: int| 0 <= i < b.len() && b[i] == a[0];
        assert(b.to_set().contains(b[0]));
        assert(a.contains(b[0]));
        let j = choose|j: int| 0 <= j < a.len() && a[j] == b[0];
        lemma_precedes_total(a[0], b[0]);
        if i > 0 {
            assert(precedes(b[0], b[i]));
            if j > 0 {
                assert(precedes(a[0], a[j]));
            }
        }
        assert(a[0] == b[0]);
        let (x, y) = (a.drop_first(), b.drop_first());
        assert forall|name: Seq<char>| x.contains(name) <==> y.contains(name) by {
            lemma_rest_of(a, name);
            lemma_rest_of(b, name);
            if a.contains(name) {
                assert(b.to_set().contains(name));
                assert(b.contains(name));
            }
            if b.contains(name) {
                assert(a.to_set().contains(name));
                assert(a.contains(name));
            }
        }
        assert(x.to_set() =~= y.to_set());
        lemma_one_order(x, y);
        assert(a =~= seq![a[0]] + x);
        assert(b =~= seq![b[0]] + y);
    }
}

proof fn lemma_rest_of(a: Seq<Seq<char>>, name: Seq<char>)
    requires
        a.len() > 0,
        in_dictionary_order(a),
    ensures
        a.drop_first().contains(name) <==> a.contains(name) && name != a[0],
        in_dictionary_order(a.drop_first()),
{
    let x = a.drop_first();
    assert forall|i: int, j: int| 0 <= i < j < x.len() implies precedes(
        #[trigger] x[i],
        #[trigger] x[j],
    ) by {
        assert(x[i] == a[i + 1] && x[j] == a[j + 1]);
    }
    if x.contains(name) {
        let i = choose|i: int| 0 <= i < x.len() && x[i] == name;
        assert(a[i + 1] == name);
        lemma_precedes_total(a[0], a[i + 1]);
    }
    if a.contains(name) && name != a[0] {
        let i = choose|i: int| 0 <= i < a.len() && a[i] == name;
        assert(x[i - 1] == name);
    }
}

/// A new name goes behind those that stand before it.
proof fn lemma_placed(before: Seq<Seq<char>>, k: int, name: Seq<char>)
    requires
        in_dictionary_order(before),
        !before.contains(name),
        0 <= k <= before.len(),
        forall|i: int| 0 <= i < k ==> precedes(#[trigger] before[i], name),
        k < before.len() ==> !precedes(before[k], name),
    ensures
        in_dictionary_order(before.insert(k, name)),
        before.insert(k, name).to_set() == before.to_set().insert(name),
{
    let after = before.insert(k, name);
    if k < before.len() {
        assert(before.contains(before[k]));
        lemma_precedes_total(before[k], name);
    }
    assert forall|i: int, j: int| 0 <= i < j < after.len() implies precedes(
        #[trigger] after[i],
        #[trigger] after[j],
    ) by {
        let x = if i < k { i } else { i - 1 };
        let y = if j < k { j } else { j - 1 };
        if i == k {
            assert(after[j] == before[y]);
            if y > k {
                assert(precedes(before[k], before[y]));
                lemma_precedes_transitive(name, before[k], before[y]);
            }
        } else if j == k {
            assert(after[i] == before[i]);
        } else {
            assert(after[i] == before[x] && after[j] == before[y]);
        }
    }
    assert forall|other: Seq<char>| after.contains(other) <==> before.contains(other) || other
        == name by {
        if after.contains(other) {
            let i = choose|i: int| 0 <= i < after.len() && after[i] == other;
            if i < k {
                assert(before[i] == other);
            } else if i > k {
                assert(before[i - 1] == other);
            }
        }
        if before.contains(other) {
            let i = choose|i: int| 0 <= i < before.len() && before[i] == other;
            if i < k {
                assert(after[i] == other);
            } else {
                assert(after[i + 1] == other);
            }
        }
        assert(after[k] == name);
    }
    assert(after.to_set() =~= before.to_set().insert(name));
}

/// How many names of a list stand before `name`, from the front.
proof fn lemma_place_of(before: Seq<Seq<char>>, name: Seq<char>, from: int) -> (k: int)
    requires
        0 <= from <= before.len(),
        forall|i: int| 0 <= i < from ==> precedes(#[trigger] before[i], name),
    ensures
        0 <= k <= before.len(),
        forall|i: int| 0 <= i < k ==> precedes(#[trigger] before[i], name),
        k < before.len() ==> !precedes(before[k], name),
    decreases before.len() - from,
{
    if from < before.len() && precedes(before[from], name) {
        lemma_place_of(before, name, from + 1)
    } else {
        from
    }
}

/// Finitely many names can be put in dictionary order.
proof fn lemma_can_be_ordered(s: Set<Seq<char>>) -> (names: Seq<Seq<char>>)
    requires
        s.finite(),
    ensures
        in_dictionary_order(names),
        names.to_set() == s,
    decreases s.len(),
{
    if s.len() == 0 {
        let names = Seq::<Seq<char>>::empty();
        assert(names.to_set() =~= s);
        names
    } else {
        let name = s.choose();
        let before = lemma_can_be_ordered(s.remove(name));
        if before.contains(name) {
            assert(before.to_set().contains(name));
        }
        let k = lemma_place_of(before, name, 0);
        lemma_placed(before, k, name);
        assert(s.remove(name).insert(name) =~= s);
        before.insert(k, name)
    }
}

/// The books are listed once each, and no other name is; each name stands
/// before all that follow it.
pub proof fn law_every_book_is_listed_once(v: EngineView)
    requires
        v.books.dom().finite(),
    ensures
        forall|i: int|
            0 <= i < book_names(v).len() ==> v.books.contains_key(#[trigger] book_names(v)[i]),
        forall|name: Seq<char>| #[trigger]
            v.books.contains_key(name) ==> book_names(v).contains(name),
        forall|i: int, j: int|
            0 <= i < j < book_names(v).len() ==> precedes(
                #[trigger] book_names(v)[i],
                #[trigger] book_names(v)[j],
            ) && book_names(v)[i] != book_names(v)[j],
{
    let some = lemma_can_be_ordered(v.books.dom());
    assert(lists_books(v, some));
    let names = book_names(v);
    assert(lists_books(v, names));
    assert forall|i: int| 0 <= i < names.len() implies v.books.contains_key(
        #[trigger] names[i],
    ) by {
        assert(names.contains(names[i]));
        assert(names.to_set().contains(names[i]));
    }
    assert forall|name: Seq<char>| #[trigger] v.books.contains_key(name) implies names.contains(
        name,
    ) by {
        assert(names.to_set().contains(name));
    }
    assert forall|i: int, j: int| 0 <= i < j < names.len() implies names[i] != names[j] by {
        lemma_precedes_total(names[i], names[j]);
        assert(precedes(names[i], names[j]));
    }
}

/// Puts a new name where it belongs.
fn place(sorted: &mut Vec<Symbol>, symbol: Symbol)
    requires
        in_dictionary_order(named(old(sorted)@)),
        !named(old(sorted)@).contains(symbol@),
    ensures
        in_dictionary_order(named(final(sorted)@)),
        named(final(sorted)@).to_set() == named(old(sorted)@).to_set().insert(symbol@),
{
    let ghost before = named(sorted@);
    let mut k: usize = 0;
    while k < sorted.len() && text::comes_before(sorted[k], symbol)
        invariant
            k <= sorted@.len(),
            before == named(sorted@),
            forall|i: int| 0 <= i < k ==> precedes(#[trigger] before[i], symbol@),
        decreases sorted@.len() - k,
    {
        assert(before[k as int] == sorted@[k as int]@);
        k = k + 1;
    }
    sorted.insert(k, symbol);
    let ghost after = named(sorted@);
    proof {
        assert(after =~= before.insert(k as int, symbol@));
        lemma_placed(before, k as int, symbol@);
    }
}

/// The symbols that have a book, in dictionary order.
pub fn sorted_symbols(engine: &Engine) -> (r: Vec<Symbol>)
    requires
        engine.wf(),
    ensures
        named(r@) == book_names(engine@),
        lists_books(engine@, named(r@)),
{
    let all = engine.symbols();
    let ghost names = named(all@);
    let mut sorted: Vec<Symbol> = Vec::new();
    let mut i: usize = 0;
    assert(named(sorted@).to_set() =~= names.take(0).to_set());
    while i < all.len()
        invariant
            i <= all@.len(),
            names == named(all@),
            forall|a: int, b: int|
                0 <= a < b < all@.len() ==> (#[trigger] all@[a])@ != (#[trigger] all@[b])@,
            in_dictionary_order(named(sorted@)),
            named(sorted@).to_set() == names.take(i as int).to_set(),
        decreases all@.len() - i,
    {
        proof {
            let (head, next) = (names.take(i as int), names.take(i + 1));
            let name = names[i as int];
            if named(sorted@).contains(name) {
                assert(head.to_set().contains(name));
                let k = choose|k: int| 0 <= k < head.len() && head[k] == name;
                assert(all@[k]@ == all@[i as int]@);
            }
            assert forall|x: Seq<char>| next.contains(x) <==> head.contains(x) || x == name by {
                if next.contains(x) {
                    let k = choose|k: int| 0 <= k < next.len() && next[k] == x;
                    if k < i {
                        assert(head[k] == x);
                    }
                }
                if head.contains(x) {
                    let k = choose|k: int| 0 <= k < head.len() && head[k] == x;
                    assert(next[k] == x);
                }
                assert(next[i as int] == name);
            }
            assert(next.to_set() =~= head.to_set().insert(name));
        }
        place(&mut sorted, all[i]);
        i = i + 1;
    }
    proof {
        assert(names.take(i as int) =~= names);
        assert(names.to_set() =~= engine@.books.dom()) by {
            assert forall|x: Seq<char>| names.contains(x) <==> engine@.books.dom().contains(x) by {
                if names.contains(x) {
                    let k = choose|k: int| 0 <= k < names.len() && names[k] == x;
                    assert(all@[k]@ == x);
                }
                if engine@.books.contains_key(x) {
                    let k = choose|k: int| 0 <= k < all@.len() && (#[trigger] all@[k])@ == x;
                    assert(names[k] == x);
                }
            }
        }
        assert(lists_books(engine@, named(sorted@)));
        lemma_one_order(named(sorted@), book_names(engine@));
    }
    sorted
}

} // verus!
