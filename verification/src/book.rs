//! What the book of a market holds: exactly the bids and asks that the
//! participants' ranges and remaining credit give rise to.

use crate::exposure::ExposureModel;
use crate::ledger::{ContractID, PlayerID, Price};
use crate::market::{lemma_range_lookup, MarketModel, Range};
use crate::offers::{
    book_index, book_wf, has_book, has_slot, quotes_wf, same_slot, slot_index, with_buy,
    with_quote, with_sell, BookEntry, Quote,
};
use crate::session::{
    ask_sound, bid_sound, book, book_of, book_sound, buy_amount, post_ranges, sell_amount,
};
use vstd::prelude::*;

verus! {

/// Whether the book holds the bid `q` on the contract `c`.
pub open spec fn has_bid(book: Seq<BookEntry>, c: ContractID, q: Quote) -> bool {
    exists|i: int, j: int|
        0 <= i < book.len() && 0 <= j < book[i].1.buy.len() && book[i].0 == c
            && #[trigger] book[i].1.buy[j] == q
}

/// Whether the book holds the ask `q` on the contract `c`.
pub open spec fn has_ask(book: Seq<BookEntry>, c: ContractID, q: Quote) -> bool {
    exists|i: int, j: int|
        0 <= i < book.len() && 0 <= j < book[i].1.sell.len() && book[i].0 == c
            && #[trigger] book[i].1.sell[j] == q
}

/// No quote of the book is of the participant `p`.
pub open spec fn without_player(book: Seq<BookEntry>, p: PlayerID) -> bool {
    forall|i: int|
        0 <= i < book.len() ==> {
            &&& forall|j: int|
                0 <= j < (#[trigger] book[i]).1.buy.len() ==> (#[trigger] book[i].1.buy[j]).player_id
                    != p
            &&& forall|j: int|
                0 <= j < book[i].1.sell.len() ==> (#[trigger] book[i].1.sell[j]).player_id != p
        }
}

/// A quote put in its slot is there, every quote of another slot stays in
/// its place, and the quotes stay well formed.
pub proof fn lemma_with_quote_holds(quotes: Seq<Quote>, q: Quote, min: int, max: int)
    requires
        quotes_wf(quotes, min, max),
        min <= q.price <= max,
    ensures
        quotes_wf(with_quote(quotes, q), min, max),
        with_quote(quotes, q).len() >= quotes.len(),
        exists|j: int| 0 <= j < with_quote(quotes, q).len() && with_quote(quotes, q)[j] == q,
        forall|j: int|
            0 <= j < quotes.len() && !same_slot(#[trigger] quotes[j], q) ==> with_quote(
                quotes,
                q,
            )[j] == quotes[j],
        forall|j: int|
            0 <= j < with_quote(quotes, q).len() ==> (#[trigger] with_quote(quotes, q)[j]) == q
                || (j < quotes.len() && quotes[j] == with_quote(quotes, q)[j]),
{
    let t = with_quote(quotes, q);
    if has_slot(quotes, q) {
        let k = slot_index(quotes, q);
        assert(t[k] == q);
        assert forall|a: int, b: int| 0 <= a < t.len() && 0 <= b < t.len() && a != b implies !same_slot(
            t[a],
            t[b],
        ) by {
            assert(!same_slot(quotes[a], quotes[b]));
        }
    } else {
        assert(t[t.len() - 1] == q);
        assert forall|a: int, b: int| 0 <= a < t.len() && 0 <= b < t.len() && a != b implies !same_slot(
            t[a],
            t[b],
        ) by {
            if a < quotes.len() && b < quotes.len() {
                assert(!same_slot(quotes[a], quotes[b]));
            }
        }
    }
}

/// A bid put in the book is there, every other quote stays, and the book
/// stays well formed.
pub proof fn lemma_with_buy_holds(book: Seq<BookEntry>, c: ContractID, q: Quote)
    requires
        book_wf(book),
        0 <= q.price <= 99,
    ensures
        book_wf(with_buy(book, c, q)),
        has_bid(with_buy(book, c, q), c, q),
        forall|c2: ContractID, q2: Quote|
            #![trigger has_bid(with_buy(book, c, q), c2, q2)]
            has_bid(book, c2, q2) && !(c2 == c && same_slot(q2, q)) ==> has_bid(
                with_buy(book, c, q),
                c2,
                q2,
            ),
        forall|c2: ContractID, q2: Quote|
            #![trigger has_ask(with_buy(book, c, q), c2, q2)]
            has_ask(book, c2, q2) ==> has_ask(with_buy(book, c, q), c2, q2),
        forall|q2: Quote, c2: ContractID|
            #![trigger has_bid(with_buy(book, c, q), c2, q2)]
            has_bid(with_buy(book, c, q), c2, q2) ==> has_bid(book, c2, q2) || (c2 == c && q2
                == q),
        forall|q2: Quote, c2: ContractID|
            #![trigger has_ask(with_buy(book, c, q), c2, q2)]
            has_ask(with_buy(book, c, q), c2, q2) ==> has_ask(book, c2, q2),
{
    let t = with_buy(book, c, q);
    if has_book(book, c) {
        let k = book_index(book, c);
        assert(book[k].1.wf());
        lemma_with_quote_holds(book[k].1.buy, q, 0, 99);
        let w = choose|j: int| 0 <= j < t[k].1.buy.len() && t[k].1.buy[j] == q;
        assert(t[k].1.buy[w] == q);
        assert forall|i: int| 0 <= i < t.len() implies (#[trigger] t[i]).1.wf() by {
            assert(book[i].1.wf());
        }
        assert forall|c2: ContractID, q2: Quote|
            #![trigger has_bid(t, c2, q2)]
            has_bid(book, c2, q2) && !(c2 == c && same_slot(q2, q)) implies has_bid(
            t,
            c2,
            q2,
        ) by {
            let (i, j) = choose|i: int, j: int|
                0 <= i < book.len() && 0 <= j < book[i].1.buy.len() && book[i].0 == c2
                    && #[trigger] book[i].1.buy[j] == q2;
            if i == k {
                assert(!same_slot(book[k].1.buy[j], q));
            }
            assert(t[i].1.buy[j] == q2);
        }
        assert forall|c2: ContractID, q2: Quote|
            #![trigger has_ask(t, c2, q2)]
            has_ask(book, c2, q2) implies has_ask(t, c2, q2) by {
            let (i, j) = choose|i: int, j: int|
                0 <= i < book.len() && 0 <= j < book[i].1.sell.len() && book[i].0 == c2
                    && #[trigger] book[i].1.sell[j] == q2;
            assert(t[i].1.sell[j] == q2);
        }
        assert forall|q2: Quote, c2: ContractID|
            #![trigger has_bid(t, c2, q2)]
            has_bid(t, c2, q2) implies has_bid(book, c2, q2) || (c2 == c && q2 == q) by {
            let (i, j) = choose|i: int, j: int|
                0 <= i < t.len() && 0 <= j < t[i].1.buy.len() && t[i].0 == c2
                    && #[trigger] t[i].1.buy[j] == q2;
            if i == k {
                if t[k].1.buy[j] != q {
                    assert(book[k].1.buy[j] == q2);
                }
            } else {
                assert(book[i].1.buy[j] == q2);
            }
        }
        assert forall|q2: Quote, c2: ContractID|
            #![trigger has_ask(t, c2, q2)]
            has_ask(t, c2, q2) implies has_ask(book, c2, q2) by {
            let (i, j) = choose|i: int, j: int|
                0 <= i < t.len() && 0 <= j < t[i].1.sell.len() && t[i].0 == c2
                    && #[trigger] t[i].1.sell[j] == q2;
            assert(book[i].1.sell[j] == q2);
        }
    } else {
        let last = t.len() - 1;
        assert(t[last].1.buy[0] == q);
        assert forall|i: int| 0 <= i < t.len() implies (#[trigger] t[i]).1.wf() by {
            if i < book.len() {
                assert(book[i].1.wf());
            }
        }
        assert forall|c2: ContractID, q2: Quote|
            #![trigger has_bid(t, c2, q2)]
            has_bid(book, c2, q2) && !(c2 == c && same_slot(q2, q)) implies has_bid(
            t,
            c2,
            q2,
        ) by {
            let (i, j) = choose|i: int, j: int|
                0 <= i < book.len() && 0 <= j < book[i].1.buy.len() && book[i].0 == c2
                    && #[trigger] book[i].1.buy[j] == q2;
            assert(t[i].1.buy[j] == q2);
        }
        assert forall|c2: ContractID, q2: Quote|
            #![trigger has_ask(t, c2, q2)]
            has_ask(book, c2, q2) implies has_ask(t, c2, q2) by {
            let (i, j) = choose|i: int, j: int|
                0 <= i < book.len() && 0 <= j < book[i].1.sell.len() && book[i].0 == c2
                    && #[trigger] book[i].1.sell[j] == q2;
            assert(t[i].1.sell[j] == q2);
        }
        assert forall|q2: Quote, c2: ContractID|
            #![trigger has_bid(t, c2, q2)]
            has_bid(t, c2, q2) implies has_bid(book, c2, q2) || (c2 == c && q2 == q) by {
            let (i, j) = choose|i: int, j: int|
                0 <= i < t.len() && 0 <= j < t[i].1.buy.len() && t[i].0 == c2
                    && #[trigger] t[i].1.buy[j] == q2;
            if i < book.len() {
                assert(book[i].1.buy[j] == q2);
            }
        }
        assert forall|q2: Quote, c2: ContractID|
            #![trigger has_ask(t, c2, q2)]
            has_ask(t, c2, q2) implies has_ask(book, c2, q2) by {
            let (i, j) = choose|i: int, j: int|
                0 <= i < t.len() && 0 <= j < t[i].1.sell.len() && t[i].0 == c2
                    && #[trigger] t[i].1.sell[j] == q2;
            if i < book.len() {
                assert(book[i].1.sell[j] == q2);
            }
        }
    }
}

/// An ask put in the book is there, every other quote stays, and the book
/// stays well formed.
pub proof fn lemma_with_sell_holds(book: Seq<BookEntry>, c: ContractID, q: Quote)
    requires
        book_wf(book),
        1 <= q.price <= 100,
    ensures
        book_wf(with_sell(book, c, q)),
        has_ask(with_sell(book, c, q), c, q),
        forall|c2: ContractID, q2: Quote|
            #![trigger has_ask(with_sell(book, c, q), c2, q2)]
            has_ask(book, c2, q2) && !(c2 == c && same_slot(q2, q)) ==> has_ask(
                with_sell(book, c, q),
                c2,
                q2,
            ),
        forall|c2: ContractID, q2: Quote|
            #![trigger has_bid(with_sell(book, c, q), c2, q2)]
            has_bid(book, c2, q2) ==> has_bid(with_sell(book, c, q), c2, q2),
        forall|q2: Quote, c2: ContractID|
            #![trigger has_ask(with_sell(book, c, q), c2, q2)]
            has_ask(with_sell(book, c, q), c2, q2) ==> has_ask(book, c2, q2) || (c2 == c && q2
                == q),
        forall|q2: Quote, c2: ContractID|
            #![trigger has_bid(with_sell(book, c, q), c2, q2)]
            has_bid(with_sell(book, c, q), c2, q2) ==> has_bid(book, c2, q2),
{
    let t = with_sell(book, c, q);
    if has_book(book, c) {
        let k = book_index(book, c);
        assert(book[k].1.wf());
        lemma_with_quote_holds(book[k].1.sell, q, 1, 100);
        let w = choose|j: int| 0 <= j < t[k].1.sell.len() && t[k].1.sell[j] == q;
        assert(t[k].1.sell[w] == q);
        assert forall|i: int| 0 <= i < t.len() implies (#[trigger] t[i]).1.wf() by {
            assert(book[i].1.wf());
        }
        assert forall|c2: ContractID, q2: Quote|
            #![trigger has_ask(t, c2, q2)]
            has_ask(book, c2, q2) && !(c2 == c && same_slot(q2, q)) implies has_ask(
            t,
            c2,
            q2,
        ) by {
            let (i, j) = choose|i: int, j: int|
                0 <= i < book.len() && 0 <= j < book[i].1.sell.len() && book[i].0 == c2
                    && #[trigger] book[i].1.sell[j] == q2;
            if i == k {
                assert(!same_slot(book[k].1.sell[j], q));
            }
            assert(t[i].1.sell[j] == q2);
        }
        assert forall|c2: ContractID, q2: Quote|
            #![trigger has_bid(t, c2, q2)]
            has_bid(book, c2, q2) implies has_bid(t, c2, q2) by {
            let (i, j) = choose|i: int, j: int|
                0 <= i < book.len() && 0 <= j < book[i].1.buy.len() && book[i].0 == c2
                    && #[trigger] book[i].1.buy[j] == q2;
            assert(t[i].1.buy[j] == q2);
        }
        assert forall|q2: Quote, c2: ContractID|
            #![trigger has_ask(t, c2, q2)]
            has_ask(t, c2, q2) implies has_ask(book, c2, q2) || (c2 == c && q2 == q) by {
            let (i, j) = choose|i: int, j: int|
                0 <= i < t.len() && 0 <= j < t[i].1.sell.len() && t[i].0 == c2
                    && #[trigger] t[i].1.sell[j] == q2;
            if i == k {
                if t[k].1.sell[j] != q {
                    assert(book[k].1.sell[j] == q2);
                }
            } else {
                assert(book[i].1.sell[j] == q2);
            }
        }
        assert forall|q2: Quote, c2: ContractID|
            #![trigger has_bid(t, c2, q2)]
            has_bid(t, c2, q2) implies has_bid(book, c2, q2) by {
            let (i, j) = choose|i: int, j: int|
                0 <= i < t.len() && 0 <= j < t[i].1.buy.len() && t[i].0 == c2
                    && #[trigger] t[i].1.buy[j] == q2;
            assert(book[i].1.buy[j] == q2);
        }
    } else {
        let last = t.len() - 1;
        assert(t[last].1.sell[0] == q);
        assert forall|i: int| 0 <= i < t.len() implies (#[trigger] t[i]).1.wf() by {
            if i < book.len() {
                assert(book[i].1.wf());
            }
        }
        assert forall|c2: ContractID, q2: Quote|
            #![trigger has_ask(t, c2, q2)]
            has_ask(book, c2, q2) && !(c2 == c && same_slot(q2, q)) implies has_ask(
            t,
            c2,
            q2,
        ) by {
            let (i, j) = choose|i: int, j: int|
                0 <= i < book.len() && 0 <= j < book[i].1.sell.len() && book[i].0 == c2
                    && #[trigger] book[i].1.sell[j] == q2;
            assert(t[i].1.sell[j] == q2);
        }
        assert forall|c2: ContractID, q2: Quote|
            #![trigger has_bid(t, c2, q2)]
            has_bid(book, c2, q2) implies has_bid(t, c2, q2) by {
            let (i, j) = choose|i: int, j: int|
                0 <= i < book.len() && 0 <= j < book[i].1.buy.len() && book[i].0 == c2
                    && #[trigger] book[i].1.buy[j] == q2;
            assert(t[i].1.buy[j] == q2);
        }
        assert forall|q2: Quote, c2: ContractID|
            #![trigger has_ask(t, c2, q2)]
            has_ask(t, c2, q2) implies has_ask(book, c2, q2) || (c2 == c && q2 == q) by {
            let (i, j) = choose|i: int, j: int|
                0 <= i < t.len() && 0 <= j < t[i].1.sell.len() && t[i].0 == c2
                    && #[trigger] t[i].1.sell[j] == q2;
            if i < book.len() {
                assert(book[i].1.sell[j] == q2);
            }
        }
        assert forall|q2: Quote, c2: ContractID|
            #![trigger has_bid(t, c2, q2)]
            has_bid(t, c2, q2) implies has_bid(book, c2, q2) by {
            let (i, j) = choose|i: int, j: int|
                0 <= i < t.len() && 0 <= j < t[i].1.buy.len() && t[i].0 == c2
                    && #[trigger] t[i].1.buy[j] == q2;
            if i < book.len() {
                assert(book[i].1.buy[j] == q2);
            }
        }
    }
}

/// The bid that the range `r` of the participant `p` gives rise to.
pub open spec fn bid_of(m: MarketModel, es: Seq<ExposureModel>, p: int, r: Range) -> Quote {
    Quote {
        price: r.low,
        player_id: PlayerID(p as usize),
        amount: buy_amount(m.players[p].credit_limit, es[p], r.contract_id) as Price,
    }
}

/// The ask that the range `r` of the participant `p` gives rise to.
pub open spec fn ask_of(m: MarketModel, es: Seq<ExposureModel>, p: int, r: Range) -> Quote {
    Quote {
        price: r.high,
        player_id: PlayerID(p as usize),
        amount: sell_amount(m.players[p].credit_limit, es[p], r.contract_id) as Price,
    }
}

/// Whether the bid `q` on `c` is the bid of one of the first `k` ranges of
/// the participant `p`, good for 100 cents or more.
pub open spec fn bid_from(
    m: MarketModel,
    es: Seq<ExposureModel>,
    p: int,
    k: int,
    c: ContractID,
    q: Quote,
) -> bool {
    exists|j: int|
        0 <= j < k && (#[trigger] m.players[p].ranges[j]).contract_id == c && q == bid_of(
            m,
            es,
            p,
            m.players[p].ranges[j],
        ) && buy_amount(m.players[p].credit_limit, es[p], c) >= 100
}

/// Whether the ask `q` on `c` is the ask of one of the first `k` ranges of
/// the participant `p`, good for 100 cents or more.
pub open spec fn ask_from(
    m: MarketModel,
    es: Seq<ExposureModel>,
    p: int,
    k: int,
    c: ContractID,
    q: Quote,
) -> bool {
    exists|j: int|
        0 <= j < k && (#[trigger] m.players[p].ranges[j]).contract_id == c && q == ask_of(
            m,
            es,
            p,
            m.players[p].ranges[j],
        ) && sell_amount(m.players[p].credit_limit, es[p], c) >= 100
}

/// After the first `k` ranges of the participant `p`, the book holds what
/// it held before, and the bids and asks of those ranges.
pub proof fn lemma_post_ranges(
    start: Seq<BookEntry>,
    m: MarketModel,
    es: Seq<ExposureModel>,
    p: int,
    k: nat,
)
    requires
        m.wf(),
        0 <= p < m.players.len(),
        k <= m.players[p].ranges.len(),
        m.players.len() <= usize::MAX,
        book_wf(start),
        without_player(start, PlayerID(p as usize)),
    ensures
        book_wf(post_ranges(start, m, es, p, k)),
        forall|c: ContractID, q: Quote|
            #![trigger has_bid(post_ranges(start, m, es, p, k), c, q)]
            has_bid(post_ranges(start, m, es, p, k), c, q) <==> has_bid(start, c, q) || bid_from(
                m,
                es,
                p,
                k as int,
                c,
                q,
            ),
        forall|c: ContractID, q: Quote|
            #![trigger has_ask(post_ranges(start, m, es, p, k), c, q)]
            has_ask(post_ranges(start, m, es, p, k), c, q) <==> has_ask(start, c, q) || ask_from(
                m,
                es,
                p,
                k as int,
                c,
                q,
            ),
    decreases k,
{
    let t = post_ranges(start, m, es, p, k);
    let pid = PlayerID(p as usize);
    assert(m.players[p].wf());
    if k > 0 {
        let before = post_ranges(start, m, es, p, (k - 1) as nat);
        lemma_post_ranges(start, m, es, p, (k - 1) as nat);
        let r = m.players[p].ranges[k - 1];
        assert(r.valid());
        let buy = buy_amount(m.players[p].credit_limit, es[p], r.contract_id);
        let sell = sell_amount(m.players[p].credit_limit, es[p], r.contract_id);
        let b = bid_of(m, es, p, r);
        let a = ask_of(m, es, p, r);
        let mid = if buy >= 100 {
            with_buy(before, r.contract_id, b)
        } else {
            before
        };
        if buy >= 100 {
            lemma_with_buy_holds(before, r.contract_id, b);
        }
        if sell >= 100 {
            lemma_with_sell_holds(mid, r.contract_id, a);
        }
        assert forall|c: ContractID, q: Quote| #![trigger has_bid(t, c, q)] has_bid(t, c, q)
            <==> has_bid(start, c, q) || bid_from(m, es, p, k as int, c, q) by {
            lemma_same_slot_bid(start, m, es, p, k, c, q);
            if has_bid(t, c, q) {
                assert(has_bid(mid, c, q));
                if !has_bid(before, c, q) {
                    assert(c == r.contract_id && q == b);
                    assert(m.players[p].ranges[k - 1].contract_id == c);
                } else if !has_bid(start, c, q) {
                    let j = choose|j: int|
                        0 <= j < k - 1 && (#[trigger] m.players[p].ranges[j]).contract_id == c
                            && q == bid_of(m, es, p, m.players[p].ranges[j]) && buy_amount(
                            m.players[p].credit_limit,
                            es[p],
                            c,
                        ) >= 100;
                    assert(m.players[p].ranges[j].contract_id == c);
                }
            }
            if has_bid(start, c, q) {
                assert(has_bid(before, c, q));
                assert(has_bid(mid, c, q));
                assert(has_bid(t, c, q));
            }
            if bid_from(m, es, p, k as int, c, q) {
                let j = choose|j: int|
                    0 <= j < k && (#[trigger] m.players[p].ranges[j]).contract_id == c && q
                        == bid_of(m, es, p, m.players[p].ranges[j]) && buy_amount(
                        m.players[p].credit_limit,
                        es[p],
                        c,
                    ) >= 100;
                if j < k - 1 {
                    assert(bid_from(m, es, p, k - 1, c, q));
                    assert(has_bid(before, c, q));
                    lemma_range_lookup(m.players[p].ranges, j);
                    lemma_range_lookup(m.players[p].ranges, k - 1);
                    assert(c != r.contract_id);
                    assert(has_bid(mid, c, q));
                    assert(has_bid(t, c, q));
                } else {
                    assert(has_bid(mid, c, q));
                    assert(has_bid(t, c, q));
                }
            }
        }
        assert forall|c: ContractID, q: Quote| #![trigger has_ask(t, c, q)] has_ask(t, c, q)
            <==> has_ask(start, c, q) || ask_from(m, es, p, k as int, c, q) by {
            lemma_same_slot_ask(start, m, es, p, k, c, q);
            if has_ask(t, c, q) {
                if !has_ask(mid, c, q) {
                    assert(c == r.contract_id && q == a);
                    assert(m.players[p].ranges[k - 1].contract_id == c);
                } else {
                    assert(has_ask(before, c, q));
                    if !has_ask(start, c, q) {
                        let j = choose|j: int|
                            0 <= j < k - 1 && (#[trigger] m.players[p].ranges[j]).contract_id == c
                                && q == ask_of(m, es, p, m.players[p].ranges[j]) && sell_amount(
                                m.players[p].credit_limit,
                                es[p],
                                c,
                            ) >= 100;
                        assert(m.players[p].ranges[j].contract_id == c);
                    }
                }
            }
            if has_ask(start, c, q) {
                assert(has_ask(before, c, q));
                assert(has_ask(mid, c, q));
                assert(has_ask(t, c, q));
            }
            if ask_from(m, es, p, k as int, c, q) {
                let j = choose|j: int|
                    0 <= j < k && (#[trigger] m.players[p].ranges[j]).contract_id == c && q
                        == ask_of(m, es, p, m.players[p].ranges[j]) && sell_amount(
                        m.players[p].credit_limit,
                        es[p],
                        c,
                    ) >= 100;
                if j < k - 1 {
                    assert(ask_from(m, es, p, k - 1, c, q));
                    assert(has_ask(before, c, q));
                    lemma_range_lookup(m.players[p].ranges, j);
                    lemma_range_lookup(m.players[p].ranges, k - 1);
                    assert(c != r.contract_id);
                    assert(has_ask(mid, c, q));
                    assert(has_ask(t, c, q));
                } else {
                    assert(has_ask(t, c, q));
                }
            }
        }
    }
}

/// A bid that the book held before the participant `p` came is not of
/// `p`, and so is in no slot of `p`.
proof fn lemma_same_slot_bid(
    start: Seq<BookEntry>,
    m: MarketModel,
    es: Seq<ExposureModel>,
    p: int,
    k: nat,
    c: ContractID,
    q: Quote,
)
    requires
        without_player(start, PlayerID(p as usize)),
        0 <= p < m.players.len(),
        m.players.len() <= usize::MAX,
    ensures
        has_bid(start, c, q) ==> q.player_id != PlayerID(p as usize),
        bid_from(m, es, p, k as int, c, q) ==> q.player_id == PlayerID(p as usize),
{
    if has_bid(start, c, q) {
        let (i, j) = choose|i: int, j: int|
            0 <= i < start.len() && 0 <= j < start[i].1.buy.len() && start[i].0 == c
                && #[trigger] start[i].1.buy[j] == q;
        assert(start[i].1.buy[j].player_id != PlayerID(p as usize));
    }
}

/// An ask that the book held before the participant `p` came is not of
/// `p`, and so is in no slot of `p`.
proof fn lemma_same_slot_ask(
    start: Seq<BookEntry>,
    m: MarketModel,
    es: Seq<ExposureModel>,
    p: int,
    k: nat,
    c: ContractID,
    q: Quote,
)
    requires
        without_player(start, PlayerID(p as usize)),
        0 <= p < m.players.len(),
        m.players.len() <= usize::MAX,
    ensures
        has_ask(start, c, q) ==> q.player_id != PlayerID(p as usize),
        ask_from(m, es, p, k as int, c, q) ==> q.player_id == PlayerID(p as usize),
{
    if has_ask(start, c, q) {
        let (i, j) = choose|i: int, j: int|
            0 <= i < start.len() && 0 <= j < start[i].1.sell.len() && start[i].0 == c
                && #[trigger] start[i].1.sell[j] == q;
        assert(start[i].1.sell[j].player_id != PlayerID(p as usize));
    }
}

/// The book of the first `n` participants holds exactly the bids and asks
/// of their ranges, each where the participant can commit 100 cents or
/// more.
pub proof fn lemma_book_of(m: MarketModel, es: Seq<ExposureModel>, n: nat)
    requires
        m.wf(),
        n <= m.players.len(),
        m.players.len() <= usize::MAX,
    ensures
        book_wf(book_of(m, es, n)),
        forall|c: ContractID, q: Quote|
            #![trigger has_bid(book_of(m, es, n), c, q)]
            has_bid(book_of(m, es, n), c, q) <==> exists|p: int|
                0 <= p < n && #[trigger] bid_from(
                    m,
                    es,
                    p,
                    m.players[p].ranges.len() as int,
                    c,
                    q,
                ),
        forall|c: ContractID, q: Quote|
            #![trigger has_ask(book_of(m, es, n), c, q)]
            has_ask(book_of(m, es, n), c, q) <==> exists|p: int|
                0 <= p < n && #[trigger] ask_from(
                    m,
                    es,
                    p,
                    m.players[p].ranges.len() as int,
                    c,
                    q,
                ),
    decreases n,
{
    let t = book_of(m, es, n);
    if n > 0 {
        let p = n - 1;
        let start = book_of(m, es, p as nat);
        lemma_book_of(m, es, p as nat);
        let pid = PlayerID(p as usize);
        let len = m.players[p].ranges.len();
        assert(without_player(start, pid)) by {
            assert forall|i: int| 0 <= i < start.len() implies {
                &&& forall|j: int|
                    0 <= j < (#[trigger] start[i]).1.buy.len() ==> (
                    #[trigger] start[i].1.buy[j]).player_id != pid
                &&& forall|j: int|
                    0 <= j < start[i].1.sell.len() ==> (#[trigger] start[i].1.sell[j]).player_id
                        != pid
            } by {
                assert forall|j: int| 0 <= j < start[i].1.buy.len() implies (
                #[trigger] start[i].1.buy[j]).player_id != pid by {
                    let q = start[i].1.buy[j];
                    assert(has_bid(start, start[i].0, q));
                    let who = choose|who: int|
                        0 <= who < p && #[trigger] bid_from(
                            m,
                            es,
                            who,
                            m.players[who].ranges.len() as int,
                            start[i].0,
                            q,
                        );
                    assert(q.player_id == PlayerID(who as usize));
                }
                assert forall|j: int| 0 <= j < start[i].1.sell.len() implies (
                #[trigger] start[i].1.sell[j]).player_id != pid by {
                    let q = start[i].1.sell[j];
                    assert(has_ask(start, start[i].0, q));
                    let who = choose|who: int|
                        0 <= who < p && #[trigger] ask_from(
                            m,
                            es,
                            who,
                            m.players[who].ranges.len() as int,
                            start[i].0,
                            q,
                        );
                    assert(q.player_id == PlayerID(who as usize));
                }
            }
        }
        lemma_post_ranges(start, m, es, p, len);
        assert forall|c: ContractID, q: Quote| #![trigger has_bid(t, c, q)] has_bid(t, c, q)
            <==> exists|who: int|
            0 <= who < n && #[trigger] bid_from(
                m,
                es,
                who,
                m.players[who].ranges.len() as int,
                c,
                q,
            ) by {
            if has_bid(t, c, q) {
                if has_bid(start, c, q) {
                    let who = choose|who: int|
                        0 <= who < p && #[trigger] bid_from(
                            m,
                            es,
                            who,
                            m.players[who].ranges.len() as int,
                            c,
                            q,
                        );
                    assert(bid_from(m, es, who, m.players[who].ranges.len() as int, c, q));
                } else {
                    assert(bid_from(m, es, p, len as int, c, q));
                }
            }
            if exists|who: int|
                0 <= who < n && #[trigger] bid_from(
                    m,
                    es,
                    who,
                    m.players[who].ranges.len() as int,
                    c,
                    q,
                ) {
                let who = choose|who: int|
                    0 <= who < n && #[trigger] bid_from(
                        m,
                        es,
                        who,
                        m.players[who].ranges.len() as int,
                        c,
                        q,
                    );
                if who < p {
                    assert(has_bid(start, c, q));
                }
            }
        }
        assert forall|c: ContractID, q: Quote| #![trigger has_ask(t, c, q)] has_ask(t, c, q)
            <==> exists|who: int|
            0 <= who < n && #[trigger] ask_from(
                m,
                es,
                who,
                m.players[who].ranges.len() as int,
                c,
                q,
            ) by {
            if has_ask(t, c, q) {
                if has_ask(start, c, q) {
                    let who = choose|who: int|
                        0 <= who < p && #[trigger] ask_from(
                            m,
                            es,
                            who,
                            m.players[who].ranges.len() as int,
                            c,
                            q,
                        );
                    assert(ask_from(m, es, who, m.players[who].ranges.len() as int, c, q));
                } else {
                    assert(ask_from(m, es, p, len as int, c, q));
                }
            }
            if exists|who: int|
                0 <= who < n && #[trigger] ask_from(
                    m,
                    es,
                    who,
                    m.players[who].ranges.len() as int,
                    c,
                    q,
                ) {
                let who = choose|who: int|
                    0 <= who < n && #[trigger] ask_from(
                        m,
                        es,
                        who,
                        m.players[who].ranges.len() as int,
                        c,
                        q,
                    );
                if who < p {
                    assert(has_ask(start, c, q));
                }
            }
        }
    }
}

/// Every entry of the book holds a bid or an ask.
pub open spec fn entries_filled(book: Seq<BookEntry>) -> bool {
    forall|i: int|
        0 <= i < book.len() ==> (#[trigger] book[i]).1.buy.len() + book[i].1.sell.len() > 0
}

/// The ranges of a participant leave no entry of the book empty.
pub proof fn lemma_post_ranges_filled(
    start: Seq<BookEntry>,
    m: MarketModel,
    es: Seq<ExposureModel>,
    p: int,
    k: nat,
)
    requires
        entries_filled(start),
    ensures
        entries_filled(post_ranges(start, m, es, p, k)),
    decreases k,
{
    if k > 0 {
        let before = post_ranges(start, m, es, p, (k - 1) as nat);
        lemma_post_ranges_filled(start, m, es, p, (k - 1) as nat);
        let r = m.players[p].ranges[k - 1];
        let buy = buy_amount(m.players[p].credit_limit, es[p], r.contract_id);
        let sell = sell_amount(m.players[p].credit_limit, es[p], r.contract_id);
        let b = bid_of(m, es, p, r);
        let a = ask_of(m, es, p, r);
        let mid = if buy >= 100 {
            with_buy(before, r.contract_id, b)
        } else {
            before
        };
        if buy >= 100 {
            assert forall|i: int| 0 <= i < mid.len() implies (#[trigger] mid[i]).1.buy.len()
                + mid[i].1.sell.len() > 0 by {
                if i < before.len() {
                    assert(before[i].1.buy.len() + before[i].1.sell.len() > 0);
                }
            }
        }
        let t = post_ranges(start, m, es, p, k);
        if sell >= 100 {
            assert forall|i: int| 0 <= i < t.len() implies (#[trigger] t[i]).1.buy.len()
                + t[i].1.sell.len() > 0 by {
                if i < mid.len() {
                    assert(mid[i].1.buy.len() + mid[i].1.sell.len() > 0);
                }
            }
        }
    }
}

/// No entry of the book of a market is empty.
pub proof fn lemma_book_filled(m: MarketModel, es: Seq<ExposureModel>, n: nat)
    ensures
        entries_filled(book_of(m, es, n)),
    decreases n,
{
    if n > 0 {
        lemma_book_filled(m, es, (n - 1) as nat);
        lemma_post_ranges_filled(
            book_of(m, es, (n - 1) as nat),
            m,
            es,
            n - 1,
            m.players[n - 1].ranges.len(),
        );
    }
}

/// The book of a market is well formed and sound: every entry is for a
/// contract of the market, and every quote is what a range of its
/// participant and the participant's remaining credit give rise to.
pub proof fn lemma_book_sound(m: MarketModel, es: Seq<ExposureModel>)
    requires
        m.wf(),
        m.players.len() <= usize::MAX,
        es.len() == m.players.len(),
        forall|p: int| 0 <= p < es.len() ==> (#[trigger] es[p]).wf(),
    ensures
        book_wf(book(m, es)),
        book_sound(book(m, es), m, es),
{
    let t = book(m, es);
    lemma_book_of(m, es, m.players.len());
    lemma_book_filled(m, es, m.players.len());
    assert forall|i: int| 0 <= i < t.len() implies {
        &&& (#[trigger] t[i]).0.0 < m.contracts.len()
        &&& forall|j: int|
            0 <= j < t[i].1.buy.len() ==> bid_sound(m, es, t[i].0, #[trigger] t[i].1.buy[j])
        &&& forall|j: int|
            0 <= j < t[i].1.sell.len() ==> ask_sound(m, es, t[i].0, #[trigger] t[i].1.sell[j])
    } by {
        let c = t[i].0;
        assert forall|j: int| 0 <= j < t[i].1.buy.len() implies bid_sound(
            m,
            es,
            c,
            #[trigger] t[i].1.buy[j],
        ) && c.0 < m.contracts.len() by {
            let q = t[i].1.buy[j];
            assert(has_bid(t, c, q));
            let who = choose|who: int|
                0 <= who < m.players.len() && #[trigger] bid_from(
                    m,
                    es,
                    who,
                    m.players[who].ranges.len() as int,
                    c,
                    q,
                );
            let k = choose|k: int|
                0 <= k < m.players[who].ranges.len() && (
                #[trigger] m.players[who].ranges[k]).contract_id == c && q == bid_of(
                    m,
                    es,
                    who,
                    m.players[who].ranges[k],
                ) && buy_amount(m.players[who].credit_limit, es[who], c) >= 100;
            assert(m.players[who].wf());
            assert(es[who].wf());
            es[who].lemma_magnitude(c);
            assert(m.open_contract(m.players[who].ranges[k].contract_id));
            assert(m.players[who].ranges[k].low == q.price);
        }
        assert forall|j: int| 0 <= j < t[i].1.sell.len() implies ask_sound(
            m,
            es,
            c,
            #[trigger] t[i].1.sell[j],
        ) && c.0 < m.contracts.len() by {
            let q = t[i].1.sell[j];
            assert(has_ask(t, c, q));
            let who = choose|who: int|
                0 <= who < m.players.len() && #[trigger] ask_from(
                    m,
                    es,
                    who,
                    m.players[who].ranges.len() as int,
                    c,
                    q,
                );
            let k = choose|k: int|
                0 <= k < m.players[who].ranges.len() && (
                #[trigger] m.players[who].ranges[k]).contract_id == c && q == ask_of(
                    m,
                    es,
                    who,
                    m.players[who].ranges[k],
                ) && sell_amount(m.players[who].credit_limit, es[who], c) >= 100;
            assert(m.players[who].wf());
            assert(es[who].wf());
            es[who].lemma_magnitude(c);
            assert(m.open_contract(m.players[who].ranges[k].contract_id));
            assert(m.players[who].ranges[k].high == q.price);
        }
        assert(entries_filled(t));
        assert(t[i].1.buy.len() + t[i].1.sell.len() > 0);
        if t[i].1.buy.len() > 0 {
            assert(bid_sound(m, es, c, t[i].1.buy[0]) && c.0 < m.contracts.len());
        } else {
            assert(0 < t[i].1.sell.len());
            let q = t[i].1.sell[0];
            assert(ask_sound(m, es, c, q));
            assert(c.0 < m.contracts.len());
        }
    }
}

/// The book of a market holds a bid exactly where a participant has a
/// range on the contract, the bid is at the low end of the range and good
/// for what the participant can still commit to buying, and that is 100
/// cents or more; and an ask exactly where the same holds of the high end
/// and of selling.
pub proof fn law_book(m: MarketModel, es: Seq<ExposureModel>, c: ContractID, q: Quote)
    requires
        m.wf(),
        m.players.len() <= usize::MAX,
    ensures
        has_bid(book(m, es), c, q) <==> exists|p: int, j: int|
            0 <= p < m.players.len() && 0 <= j < m.players[p].ranges.len() && (
            #[trigger] m.players[p].ranges[j]).contract_id == c && q == bid_of(
                m,
                es,
                p,
                m.players[p].ranges[j],
            ) && buy_amount(m.players[p].credit_limit, es[p], c) >= 100,
        has_ask(book(m, es), c, q) <==> exists|p: int, j: int|
            0 <= p < m.players.len() && 0 <= j < m.players[p].ranges.len() && (
            #[trigger] m.players[p].ranges[j]).contract_id == c && q == ask_of(
                m,
                es,
                p,
                m.players[p].ranges[j],
            ) && sell_amount(m.players[p].credit_limit, es[p], c) >= 100,
{
    lemma_book_of(m, es, m.players.len());
    let t = book(m, es);
    if has_bid(t, c, q) {
        let p = choose|p: int|
            0 <= p < m.players.len() && #[trigger] bid_from(
                m,
                es,
                p,
                m.players[p].ranges.len() as int,
                c,
                q,
            );
        let j = choose|j: int|
            0 <= j < m.players[p].ranges.len() && (#[trigger] m.players[p].ranges[j]).contract_id
                == c && q == bid_of(m, es, p, m.players[p].ranges[j]) && buy_amount(
                m.players[p].credit_limit,
                es[p],
                c,
            ) >= 100;
        assert(m.players[p].ranges[j].contract_id == c);
    }
    if exists|p: int, j: int|
        0 <= p < m.players.len() && 0 <= j < m.players[p].ranges.len() && (
        #[trigger] m.players[p].ranges[j]).contract_id == c && q == bid_of(
            m,
            es,
            p,
            m.players[p].ranges[j],
        ) && buy_amount(m.players[p].credit_limit, es[p], c) >= 100 {
        let (p, j) = choose|p: int, j: int|
            0 <= p < m.players.len() && 0 <= j < m.players[p].ranges.len() && (
            #[trigger] m.players[p].ranges[j]).contract_id == c && q == bid_of(
                m,
                es,
                p,
                m.players[p].ranges[j],
            ) && buy_amount(m.players[p].credit_limit, es[p], c) >= 100;
        assert(bid_from(m, es, p, m.players[p].ranges.len() as int, c, q));
    }
    if has_ask(t, c, q) {
        let p = choose|p: int|
            0 <= p < m.players.len() && #[trigger] ask_from(
                m,
                es,
                p,
                m.players[p].ranges.len() as int,
                c,
                q,
            );
        let j = choose|j: int|
            0 <= j < m.players[p].ranges.len() && (#[trigger] m.players[p].ranges[j]).contract_id
                == c && q == ask_of(m, es, p, m.players[p].ranges[j]) && sell_amount(
                m.players[p].credit_limit,
                es[p],
                c,
            ) >= 100;
        assert(m.players[p].ranges[j].contract_id == c);
    }
    if exists|p: int, j: int|
        0 <= p < m.players.len() && 0 <= j < m.players[p].ranges.len() && (
        #[trigger] m.players[p].ranges[j]).contract_id == c && q == ask_of(
            m,
            es,
            p,
            m.players[p].ranges[j],
        ) && sell_amount(m.players[p].credit_limit, es[p], c) >= 100 {
        let (p, j) = choose|p: int, j: int|
            0 <= p < m.players.len() && 0 <= j < m.players[p].ranges.len() && (
            #[trigger] m.players[p].ranges[j]).contract_id == c && q == ask_of(
                m,
                es,
                p,
                m.players[p].ranges[j],
            ) && sell_amount(m.players[p].credit_limit, es[p], c) >= 100;
        assert(ask_from(m, es, p, m.players[p].ranges.len() as int, c, q));
    }
}

} // verus!
