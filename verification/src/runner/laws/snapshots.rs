//! How a snapshot is put together.

use crate::engine::laws::reading::law_a_rule_is_one_character;
use crate::engine::matcher::EngineView;
use crate::engine::types::{Qty, Symbol};
use crate::feed::{AccountId, OrderId};
use crate::runner::laws::panels::wrongs;
use crate::runner::names::{book_names, law_every_book_is_listed_once};
use crate::runner::report::{
    complaints, counters_row, depth_of, depth_row, is_snapshot, market_row, positions_text,
    snapshot_lines, symbol_lines, symbols_lines, totals_row, LineView,
};
use vstd::prelude::*;

verus! {

/// Whether a line is this text, for the ordinary stream.
pub open spec fn says(l: LineView, text: Seq<char>) -> bool {
    l.text == text && !l.problem
}

/// Whether a line is a rule of so many of one character.
pub open spec fn is_rule(l: LineView, c: char, n: int) -> bool {
    !l.problem && l.text.len() == n && forall|i: int| 0 <= i < n ==> #[trigger] l.text[i] == c
}

/// How many lines the first `k` of these books take: one each for the tape,
/// and one for each row of depth.
pub open spec fn lines_before(v: EngineView, names: Seq<Seq<char>>, k: int) -> int
    decreases k,
{
    if k <= 0 {
        0
    } else {
        lines_before(v, names, k - 1) + 1 + depth_of(v.book(names[k - 1]), 3)
    }
}

proof fn lemma_symbols_lines(v: EngineView, names: Seq<Seq<char>>, k: int)
    requires
        0 <= k < names.len(),
    ensures
        ({
            let all = symbols_lines(v, names);
            let at = lines_before(v, names, k);
            let b = v.book(names[k]);
            &&& all.len() == lines_before(v, names, names.len() as int)
            &&& 0 <= at
            &&& at + depth_of(b, 3) < all.len()
            &&& says(all[at], market_row(v, names[k]))
            &&& forall|d: int|
                0 <= d < depth_of(b, 3) ==> says(#[trigger] all[at + 1 + d], depth_row(b, d))
        }),
    decreases names.len(),
{
    let front = names.drop_last();
    let all = symbols_lines(v, names);
    let one = symbol_lines(v, names.last());
    let b = v.book(names.last());
    lemma_symbols_len(v, front);
    lemma_lines_before(v, names, front, front.len() as int);
    assert(all == symbols_lines(v, front) + one);
    assert(one.len() == 1 + depth_of(b, 3));
    if k < front.len() {
        lemma_symbols_lines(v, front, k);
        lemma_lines_before(v, names, front, k);
        let at = lines_before(v, names, k);
        let c = v.book(names[k]);
        assert(front[k] == names[k]);
        assert forall|d: int| 0 <= d < depth_of(c, 3) implies says(
            #[trigger] all[at + 1 + d],
            depth_row(c, d),
        ) by {
            assert(all[at + 1 + d] == symbols_lines(v, front)[at + 1 + d]);
        }
    } else {
        let at = lines_before(v, names, k);
        assert(at == symbols_lines(v, front).len());
        assert(all[at] == one[0]);
        assert forall|d: int| 0 <= d < depth_of(b, 3) implies says(
            #[trigger] all[at + 1 + d],
            depth_row(b, d),
        ) by {
            assert(all[at + 1 + d] == one[1 + d]);
        }
    }
}

proof fn lemma_lines_before(v: EngineView, a: Seq<Seq<char>>, b: Seq<Seq<char>>, k: int)
    requires
        0 <= k <= a.len(),
        k <= b.len(),
        forall|i: int| 0 <= i < k ==> (#[trigger] a[i]) == b[i],
    ensures
        lines_before(v, a, k) == lines_before(v, b, k),
        lines_before(v, a, k) >= 0,
    decreases k,
{
    if k > 0 {
        lemma_lines_before(v, a, b, k - 1);
        assert(a[k - 1] == b[k - 1]);
    }
}

proof fn lemma_symbols_len(v: EngineView, names: Seq<Seq<char>>)
    ensures
        symbols_lines(v, names).len() == lines_before(v, names, names.len() as int),
    decreases names.len(),
{
    if names.len() > 0 {
        let front = names.drop_last();
        lemma_symbols_len(v, front);
        lemma_lines_before(v, names, front, front.len() as int);
        assert(symbol_lines(v, names.last()).len() == 1 + depth_of(v.book(names.last()), 3));
    }
}

proof fn lemma_no_problem(v: EngineView, names: Seq<Seq<char>>)
    ensures
        forall|i: int|
            0 <= i < symbols_lines(v, names).len() ==> !(#[trigger] symbols_lines(
                v,
                names,
            )[i]).problem,
    decreases names.len(),
{
    if names.len() > 0 {
        let front = symbols_lines(v, names.drop_last());
        let one = symbol_lines(v, names.last());
        lemma_no_problem(v, names.drop_last());
        assert forall|i: int| 0 <= i < symbols_lines(v, names).len() implies !(
        #[trigger] symbols_lines(v, names)[i]).problem by {
            if i < front.len() {
                assert(symbols_lines(v, names)[i] == front[i]);
            } else {
                assert(symbols_lines(v, names)[i] == one[i - front.len()]);
            }
        }
    }
}

/// A snapshot lies between two rules of 84 dashes. The counters and the totals
/// come first, then the books; then the largest positions, at most four, if
/// there are any; then what is wrong, for the error stream and nothing else.
pub proof fn law_a_snapshot_has_its_parts(
    v: EngineView,
    cursor: OrderId,
    skipped: u64,
    lines: Seq<LineView>,
) -> (top: Seq<(AccountId, Symbol, Qty)>)
    requires
        is_snapshot(v, cursor, skipped, lines),
    ensures
        v.market.top(top, 4),
        ({
            let names = book_names(v);
            let books = 3 + lines_before(v, names, names.len() as int);
            let held = books + (if top.len() > 0 {
                1int
            } else {
                0
            });
            let w = wrongs(v).len() as int;
            &&& lines.len() == held + w + 1
            &&& 3 <= books
            &&& is_rule(lines[0], '-', 84)
            &&& says(lines[1], counters_row(v, cursor, skipped))
            &&& says(lines[2], totals_row(v))
            &&& top.len() > 0 ==> says(lines[books], "  positions: "@ + positions_text(top))
            &&& is_rule(lines[held + w], '-', 84)
            &&& forall|i: int| 0 <= i < w ==> #[trigger] lines[held + i] == complaints(v)[i]
            &&& forall|i: int|
                0 <= i < lines.len() ==> (#[trigger] lines[i]).problem == (held <= i < held + w)
        }),
{
    let top = choose|top: Seq<(AccountId, Symbol, Qty)>| #[trigger]
        v.market.top(top, 4) && lines == snapshot_lines(v, cursor, skipped, top);
    let names = book_names(v);
    lemma_symbols_len(v, names);
    lemma_lines_before(v, names, names, names.len() as int);
    lemma_no_problem(v, names);
    law_a_rule_is_one_character('-', 84);
    let all = symbols_lines(v, names);
    let books = 3 + all.len();
    assert forall|i: int| 0 <= i < lines.len() implies (#[trigger] lines[i]).problem == (books + (
    if top.len() > 0 {
        1int
    } else {
        0
    }) <= i < lines.len() - 1) by {
        if 3 <= i < books {
            assert(lines[i] == all[i - 3]);
        }
    }
    top
}

/// Every symbol that has a book is shown: its row of the tape, and right under
/// it each row of its depth. Of two symbols the first in the dictionary is
/// shown first.
pub proof fn law_a_snapshot_shows_every_book(
    v: EngineView,
    cursor: OrderId,
    skipped: u64,
    lines: Seq<LineView>,
    k: int,
)
    requires
        v.books.dom().finite(),
        is_snapshot(v, cursor, skipped, lines),
        0 <= k < book_names(v).len(),
    ensures
        v.books.contains_key(book_names(v)[k]),
        ({
            let names = book_names(v);
            let at = 3 + lines_before(v, names, k);
            let b = v.books[names[k]];
            &&& 3 <= at
            &&& at + depth_of(b, 3) < lines.len()
            &&& says(lines[at], market_row(v, names[k]))
            &&& forall|d: int|
                0 <= d < depth_of(b, 3) ==> says(#[trigger] lines[at + 1 + d], depth_row(b, d))
            &&& lines_before(v, names, k + 1) == lines_before(v, names, k) + 1 + depth_of(b, 3)
        }),
{
    let top = choose|top: Seq<(AccountId, Symbol, Qty)>| #[trigger]
        v.market.top(top, 4) && lines == snapshot_lines(v, cursor, skipped, top);
    let names = book_names(v);
    law_every_book_is_listed_once(v);
    lemma_symbols_lines(v, names, k);
    let all = symbols_lines(v, names);
    let at = lines_before(v, names, k);
    let b = v.book(names[k]);
    assert(v.books.contains_key(names[k]));
    assert(lines[3 + at] == all[at]);
    assert forall|d: int| 0 <= d < depth_of(b, 3) implies says(
        #[trigger] lines[3 + at + 1 + d],
        depth_row(b, d),
    ) by {
        assert(lines[3 + at + 1 + d] == all[at + 1 + d]);
    }
}

/// Each thing that is wrong has its complaint, and there is no other.
pub proof fn law_complaints_name_what_is_wrong(v: EngineView)
    ensures
        complaints(v).len() == wrongs(v).len(),
        v.any_crossed() ==> complaints(v)[0].text
            == "  !! INVARIANT VIOLATED: a book is crossed after matching"@,
        v.routes.len() != v.resting() ==> complaints(v)[if v.any_crossed() {
            1
        } else {
            0
        }].text == "  !! INVARIANT VIOLATED: routing index drifted from the books"@,
        v.market.net() != 0 ==> complaints(v).last().text
            == "  !! INVARIANT VIOLATED: positions do not net to zero"@,
        forall|i: int| 0 <= i < complaints(v).len() ==> (#[trigger] complaints(v)[i]).problem,
{
}

} // verus!
