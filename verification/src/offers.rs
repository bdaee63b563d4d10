//! The book of resting offers: for each contract the bids and asks that the
//! participants' ranges give rise to, and the crossings among them.

use crate::ledger::{ContractID, PlayerID, Price};
use crate::market::{Market, MarketModel};
use crate::names::{lemma_name_lt_total, lemma_name_lt_transitive, name_lt, str_lt};
use crate::order::{
    arranged, decided, in_order, law_arranged, lemma_first_in_order, lemma_rank, lemma_rank_is,
    passes_on, placed, rank_of,
};
use vstd::prelude::*;

verus! {

/// One resting offer of a participant: a price in percent and the amount in
/// cents that the participant can still commit at it.
#[derive(Copy, Clone, Debug, PartialEq, Eq, Structural)]
pub struct Quote {
    pub price: Price,
    pub player_id: PlayerID,
    pub amount: Price,
}

/// Two quotes are at the same price and of the same participant.
pub open spec fn same_slot(a: Quote, b: Quote) -> bool {
    a.price == b.price && a.player_id == b.player_id
}

/// Whether `quotes` has a quote in the slot of `q`.
pub open spec fn has_slot(quotes: Seq<Quote>, q: Quote) -> bool {
    exists|i: int| 0 <= i < quotes.len() && same_slot(quotes[i], q)
}

/// The position of the quote in the slot of `q`.
pub open spec fn slot_index(quotes: Seq<Quote>, q: Quote) -> int {
    choose|i: int| 0 <= i < quotes.len() && same_slot(quotes[i], q)
}

/// `quotes` with `q` in its slot, in place of an earlier quote if there was
/// one.
pub open spec fn with_quote(quotes: Seq<Quote>, q: Quote) -> Seq<Quote> {
    if has_slot(quotes, q) {
        quotes.update(slot_index(quotes, q), q)
    } else {
        quotes.push(q)
    }
}

/// No slot has two quotes, and every price is from `min` to `max`.
pub open spec fn quotes_wf(quotes: Seq<Quote>, min: int, max: int) -> bool {
    &&& forall|i: int, j: int|
        0 <= i < quotes.len() && 0 <= j < quotes.len() && i != j ==> !same_slot(
            quotes[i],
            quotes[j],
        )
    &&& forall|i: int| 0 <= i < quotes.len() ==> min <= (#[trigger] quotes[i]).price <= max
}

/// Whether a price lies strictly on the far side of a bound, if there is
/// one.
pub open spec fn under(price: int, below: Option<int>) -> bool {
    below is None || price < below.unwrap()
}

/// Whether a price lies strictly above a bound, if there is one.
pub open spec fn over(price: int, above: Option<int>) -> bool {
    above is None || price > above.unwrap()
}

/// The highest price of `quotes` under the bound.
pub open spec fn highest(quotes: Seq<Quote>, below: Option<int>) -> Option<int>
    decreases quotes.len(),
{
    if quotes.len() == 0 {
        None
    } else {
        let rest = highest(quotes.drop_last(), below);
        let p = quotes.last().price as int;
        if under(p, below) && (rest is None || p > rest.unwrap()) {
            Some(p)
        } else {
            rest
        }
    }
}

/// The lowest price of `quotes` over the bound.
pub open spec fn lowest(quotes: Seq<Quote>, above: Option<int>) -> Option<int>
    decreases quotes.len(),
{
    if quotes.len() == 0 {
        None
    } else {
        let rest = lowest(quotes.drop_last(), above);
        let p = quotes.last().price as int;
        if over(p, above) && (rest is None || p < rest.unwrap()) {
            Some(p)
        } else {
            rest
        }
    }
}

/// `highest` is the price of a quote under the bound, and no quote under
/// the bound has a higher one.
pub proof fn lemma_highest(quotes: Seq<Quote>, below: Option<int>)
    ensures
        match highest(quotes, below) {
            Some(h) => under(h, below) && (exists|i: int|
                0 <= i < quotes.len() && quotes[i].price == h) && forall|i: int|
                0 <= i < quotes.len() && under(quotes[i].price as int, below)
                    ==> quotes[i].price <= h,
            None => forall|i: int| 0 <= i < quotes.len() ==> !under(quotes[i].price as int, below),
        },
    decreases quotes.len(),
{
    if quotes.len() > 0 {
        let rest = quotes.drop_last();
        lemma_highest(rest, below);
        assert forall|i: int| 0 <= i < rest.len() implies rest[i] == quotes[i] by {}
        match highest(quotes, below) {
            Some(h) => {
                if highest(rest, below) == Some(h) {
                    let i = choose|i: int| 0 <= i < rest.len() && rest[i].price == h;
                    assert(quotes[i].price == h);
                } else {
                    assert(quotes[quotes.len() - 1].price == h);
                }
                assert forall|i: int|
                    0 <= i < quotes.len() && under(
                        quotes[i].price as int,
                        below,
                    ) implies quotes[i].price <= h by {
                    if i < rest.len() {
                        assert(rest[i] == quotes[i]);
                    }
                }
            },
            None => {
                assert forall|i: int| 0 <= i < quotes.len() implies !under(
                    quotes[i].price as int,
                    below,
                ) by {
                    if i < rest.len() {
                        assert(rest[i] == quotes[i]);
                    }
                }
            },
        }
    }
}

/// `lowest` is the price of a quote over the bound, and no quote over the
/// bound has a lower one.
pub proof fn lemma_lowest(quotes: Seq<Quote>, above: Option<int>)
    ensures
        match lowest(quotes, above) {
            Some(l) => over(l, above) && (exists|i: int|
                0 <= i < quotes.len() && quotes[i].price == l) && forall|i: int|
                0 <= i < quotes.len() && over(quotes[i].price as int, above) ==> quotes[i].price
                    >= l,
            None => forall|i: int| 0 <= i < quotes.len() ==> !over(quotes[i].price as int, above),
        },
    decreases quotes.len(),
{
    if quotes.len() > 0 {
        let rest = quotes.drop_last();
        lemma_lowest(rest, above);
        assert forall|i: int| 0 <= i < rest.len() implies rest[i] == quotes[i] by {}
        match lowest(quotes, above) {
            Some(l) => {
                if lowest(rest, above) == Some(l) {
                    let i = choose|i: int| 0 <= i < rest.len() && rest[i].price == l;
                    assert(quotes[i].price == l);
                } else {
                    assert(quotes[quotes.len() - 1].price == l);
                }
                assert forall|i: int|
                    0 <= i < quotes.len() && over(
                        quotes[i].price as int,
                        above,
                    ) implies quotes[i].price >= l by {
                    if i < rest.len() {
                        assert(rest[i] == quotes[i]);
                    }
                }
            },
            None => {
                assert forall|i: int| 0 <= i < quotes.len() implies !over(
                    quotes[i].price as int,
                    above,
                ) by {
                    if i < rest.len() {
                        assert(rest[i] == quotes[i]);
                    }
                }
            },
        }
    }
}

/// Whether the quote `a` goes before the quote `b` at one price level: the
/// larger amount first, and among equal amounts the participant whose name
/// comes first in the alphabet.
pub open spec fn prefer(m: MarketModel, a: Quote, b: Quote) -> bool {
    a.amount > b.amount || (a.amount == b.amount && name_lt(
        m.players[a.player_id.0 as int].name,
        m.players[b.player_id.0 as int].name,
    ))
}

/// The quote that goes first among those of `quotes` at `price`.
pub open spec fn best_quote(quotes: Seq<Quote>, price: int, m: MarketModel) -> Option<Quote>
    decreases quotes.len(),
{
    if quotes.len() == 0 {
        None
    } else {
        let rest = best_quote(quotes.drop_last(), price, m);
        let q = quotes.last();
        if q.price == price && (rest is None || prefer(m, q, rest.unwrap())) {
            Some(q)
        } else {
            rest
        }
    }
}

/// `best_quote` is one of the quotes at the price, and there is one
/// whenever some quote is at the price.
pub proof fn lemma_best_quote(quotes: Seq<Quote>, price: int, m: MarketModel)
    ensures
        match best_quote(quotes, price, m) {
            Some(q) => q.price == price && exists|i: int| 0 <= i < quotes.len() && quotes[i] == q,
            None => forall|i: int| 0 <= i < quotes.len() ==> quotes[i].price != price,
        },
    decreases quotes.len(),
{
    if quotes.len() > 0 {
        let rest = quotes.drop_last();
        lemma_best_quote(rest, price, m);
        assert forall|i: int| 0 <= i < rest.len() implies rest[i] == quotes[i] by {}
        match best_quote(quotes, price, m) {
            Some(q) => {
                if best_quote(rest, price, m) == Some(q) {
                    let i = choose|i: int| 0 <= i < rest.len() && rest[i] == q;
                    assert(quotes[i] == q);
                } else {
                    assert(quotes[quotes.len() - 1] == q);
                }
            },
            None => {
                assert forall|i: int| 0 <= i < quotes.len() implies quotes[i].price != price by {
                    if i < rest.len() {
                        assert(rest[i] == quotes[i]);
                    }
                }
            },
        }
    }
}

/// The bid and the ask that a crossing is priced from. Where the next
/// price level on both sides still crosses, it is that level; where only
/// one side has a next level, that side moves to it if it stays on its side
/// of the other. So the trade is priced as near to the rest of the book as
/// the crossing allows.
pub open spec fn quoted(low: int, high: int, next_high: Option<int>, next_low: Option<int>) -> (
    int,
    int,
) {
    match (next_high, next_low) {
        (Some(nh), Some(nl)) => if nl < nh {
            (nl, nh)
        } else {
            (low, high)
        },
        (Some(nh), None) => if nh > low {
            (low, nh)
        } else {
            (low, high)
        },
        (None, Some(nl)) => if nl < high {
            (nl, high)
        } else {
            (low, high)
        },
        (None, None) => (low, high),
    }
}

/// A trade that the book of one contract allows: the buyer and the seller,
/// the bid `high` and the ask `low` that it is priced from, and their
/// difference.
#[derive(Copy, Clone, Debug, PartialEq, Eq, Structural)]
pub struct Crossing {
    pub spread: Price,
    pub contract_id: ContractID,
    pub buyer_id: PlayerID,
    pub high: Price,
    pub seller_id: PlayerID,
    pub low: Price,
}

/// The bids and asks on one contract.
#[derive(Debug)]
pub struct ContractOffers {
    pub buy: Vec<Quote>,
    pub sell: Vec<Quote>,
}

/// The bids and asks on one contract, as a value.
pub struct ContractOffersModel {
    pub buy: Seq<Quote>,
    pub sell: Seq<Quote>,
}

impl View for ContractOffers {
    type V = ContractOffersModel;

    open spec fn view(&self) -> ContractOffersModel {
        ContractOffersModel { buy: self.buy@, sell: self.sell@ }
    }
}

impl ContractOffersModel {
    /// No slot has two quotes; a bid is at 0 to 99 percent and an ask at 1
    /// to 100, as the low and the high end of a range are.
    pub open spec fn wf(self) -> bool {
        quotes_wf(self.buy, 0, 99) && quotes_wf(self.sell, 1, 100)
    }

    /// The highest bid.
    pub open spec fn best_bid(self) -> Option<int> {
        highest(self.buy, None)
    }

    /// The lowest ask.
    pub open spec fn best_ask(self) -> Option<int> {
        lowest(self.sell, None)
    }

    /// Some ask is at or below some bid.
    pub open spec fn crosses(self) -> bool {
        self.best_bid() is Some && self.best_ask() is Some && self.best_ask().unwrap()
            <= self.best_bid().unwrap()
    }

    /// The trade that the book allows, if it crosses: between the first
    /// buyer at the highest bid and the first seller at the lowest ask.
    pub open spec fn crossing(self, c: ContractID, m: MarketModel) -> Option<Crossing> {
        if self.crosses() {
            let hb = self.best_bid().unwrap();
            let la = self.best_ask().unwrap();
            let (low, high) = quoted(
                la,
                hb,
                highest(self.buy, Some(hb)),
                lowest(self.sell, Some(la)),
            );
            Some(
                Crossing {
                    spread: (high - low) as Price,
                    contract_id: c,
                    buyer_id: best_quote(self.buy, hb, m).unwrap().player_id,
                    high: high as Price,
                    seller_id: best_quote(self.sell, la, m).unwrap().player_id,
                    low: low as Price,
                },
            )
        } else {
            None
        }
    }

    /// The best bid and the best ask; 0 and 100 where a side is empty.
    pub open spec fn spread(self) -> (int, int) {
        (
            match self.best_bid() {
                Some(b) => b,
                None => 0,
            },
            match self.best_ask() {
                Some(a) => a,
                None => 100,
            },
        )
    }

    /// What holds of a crossing: it is priced within the percentages from
    /// 1 to 99, between the lowest ask and the highest bid, and its buyer
    /// and seller have quotes at those.
    pub proof fn lemma_crossing(self, c: ContractID, m: MarketModel)
        requires
            self.wf(),
            self.crosses(),
        ensures
            ({
                let x = self.crossing(c, m).unwrap();
                let hb = self.best_bid().unwrap();
                let la = self.best_ask().unwrap();
                &&& x.contract_id == c
                &&& best_quote(self.buy, hb, m) is Some
                &&& best_quote(self.sell, la, m) is Some
                &&& 1 <= la <= x.low <= x.high <= hb <= 99
                &&& x.spread == x.high - x.low
                &&& exists|i: int|
                    0 <= i < self.buy.len() && self.buy[i].price == hb && self.buy[i].player_id
                        == x.buyer_id && self.buy[i] == best_quote(self.buy, hb, m).unwrap()
                &&& exists|i: int|
                    0 <= i < self.sell.len() && self.sell[i].price == la
                        && self.sell[i].player_id == x.seller_id && self.sell[i] == best_quote(
                        self.sell,
                        la,
                        m,
                    ).unwrap()
            }),
    {
        let hb = self.best_bid().unwrap();
        let la = self.best_ask().unwrap();
        lemma_highest(self.buy, None);
        lemma_lowest(self.sell, None);
        lemma_highest(self.buy, Some(hb));
        lemma_lowest(self.sell, Some(la));
        lemma_best_quote(self.buy, hb, m);
        lemma_best_quote(self.sell, la, m);
        let i = choose|i: int| 0 <= i < self.buy.len() && self.buy[i].price == hb;
        let j = choose|j: int| 0 <= j < self.sell.len() && self.sell[j].price == la;
        assert(0 <= self.buy[i].price <= 99);
        assert(1 <= self.sell[j].price <= 100);
        let bq = best_quote(self.buy, hb, m).unwrap();
        let sq = best_quote(self.sell, la, m).unwrap();
        let bi = choose|k: int| 0 <= k < self.buy.len() && self.buy[k] == bq;
        let si = choose|k: int| 0 <= k < self.sell.len() && self.sell[k] == sq;
        assert(self.buy[bi].price == hb && self.buy[bi].player_id == bq.player_id);
        assert(self.sell[si].price == la && self.sell[si].player_id == sq.player_id);
        match highest(self.buy, Some(hb)) {
            Some(nh) => {
                let k = choose|k: int| 0 <= k < self.buy.len() && self.buy[k].price == nh;
                assert(0 <= self.buy[k].price <= 99);
            },
            None => {},
        }
        match lowest(self.sell, Some(la)) {
            Some(nl) => {
                let k = choose|k: int| 0 <= k < self.sell.len() && self.sell[k].price == nl;
                assert(1 <= self.sell[k].price <= 100);
            },
            None => {},
        }
    }
}

/// The position of the quote in the slot of `q`, if there is one.
fn find_slot(quotes: &Vec<Quote>, q: Quote) -> (r: Option<usize>)
    ensures
        match r {
            Some(i) => i < quotes@.len() && same_slot(quotes@[i as int], q) && has_slot(quotes@, q),
            None => !has_slot(quotes@, q),
        },
{
    let mut i: usize = 0;
    while i < quotes.len()
        invariant
            i <= quotes.len(),
            forall|j: int| 0 <= j < i ==> !same_slot(quotes@[j], q),
        decreases quotes.len() - i,
    {
        if quotes[i].price == q.price && quotes[i].player_id == q.player_id {
            return Some(i);
        }
        i += 1;
    }
    None
}

/// Puts `q` in its slot of `quotes`.
fn put_quote(quotes: &mut Vec<Quote>, q: Quote, Ghost(min): Ghost<int>, Ghost(max): Ghost<int>)
    requires
        quotes_wf(old(quotes)@, min, max),
        min <= q.price <= max,
    ensures
        final(quotes)@ == with_quote(old(quotes)@, q),
        quotes_wf(final(quotes)@, min, max),
{
    match find_slot(quotes, q) {
        Some(i) => {
            proof {
                let j = slot_index(quotes@, q);
                assert(same_slot(quotes@[j], q));
                if j != i {
                    assert(!same_slot(quotes@[i as int], quotes@[j]));
                }
                assert forall|a: int, b: int|
                    0 <= a < quotes@.len() && 0 <= b < quotes@.len() && a != b implies !same_slot(
                    quotes@.update(i as int, q)[a],
                    quotes@.update(i as int, q)[b],
                ) by {
                    assert(!same_slot(quotes@[a], quotes@[b]));
                }
            }
            quotes[i] = q;
        },
        None => {
            quotes.push(q);
        },
    }
}

/// The highest price of `quotes` under the bound.
fn highest_price(quotes: &Vec<Quote>, below: Option<Price>) -> (r: Option<Price>)
    ensures
        match r {
            Some(p) => Some(p as int),
            None => None,
        } == highest(
            quotes@,
            match below {
                Some(b) => Some(b as int),
                None => None,
            },
        ),
{
    let ghost bound: Option<int> = match below {
        Some(b) => Some(b as int),
        None => None,
    };
    let mut best: Option<Price> = None;
    let mut i: usize = 0;
    while i < quotes.len()
        invariant
            i <= quotes.len(),
            bound == match below {
                Some(b) => Some(b as int),
                None => None::<int>,
            },
            match best {
                Some(p) => Some(p as int),
                None => None,
            } == highest(quotes@.take(i as int), bound),
        decreases quotes.len() - i,
    {
        proof {
            assert(quotes@.take(i + 1).drop_last() =~= quotes@.take(i as int));
        }
        let p = quotes[i].price;
        let is_under = match below {
            Some(b) => p < b,
            None => true,
        };
        let is_better = match best {
            Some(h) => p > h,
            None => true,
        };
        if is_under && is_better {
            best = Some(p);
        }
        i += 1;
    }
    proof {
        assert(quotes@.take(i as int) =~= quotes@);
    }
    best
}

/// The lowest price of `quotes` over the bound.
fn lowest_price(quotes: &Vec<Quote>, above: Option<Price>) -> (r: Option<Price>)
    ensures
        match r {
            Some(p) => Some(p as int),
            None => None,
        } == lowest(
            quotes@,
            match above {
                Some(b) => Some(b as int),
                None => None,
            },
        ),
{
    let ghost bound: Option<int> = match above {
        Some(b) => Some(b as int),
        None => None,
    };
    let mut best: Option<Price> = None;
    let mut i: usize = 0;
    while i < quotes.len()
        invariant
            i <= quotes.len(),
            bound == match above {
                Some(b) => Some(b as int),
                None => None::<int>,
            },
            match best {
                Some(p) => Some(p as int),
                None => None,
            } == lowest(quotes@.take(i as int), bound),
        decreases quotes.len() - i,
    {
        proof {
            assert(quotes@.take(i + 1).drop_last() =~= quotes@.take(i as int));
        }
        let p = quotes[i].price;
        let is_over = match above {
            Some(b) => p > b,
            None => true,
        };
        let is_better = match best {
            Some(l) => p < l,
            None => true,
        };
        if is_over && is_better {
            best = Some(p);
        }
        i += 1;
    }
    proof {
        assert(quotes@.take(i as int) =~= quotes@);
    }
    best
}

/// The quote that goes first among those of `quotes` at `price`.
fn first_quote(quotes: &Vec<Quote>, price: Price, market: &Market) -> (r: Option<Quote>)
    requires
        forall|i: int| 0 <= i < quotes@.len() ==> (#[trigger] quotes@[i]).player_id.0 < market@.players.len(),
    ensures
        r == best_quote(quotes@, price as int, market@),
{
    let mut best: Option<Quote> = None;
    let mut i: usize = 0;
    while i < quotes.len()
        invariant
            i <= quotes.len(),
            forall|i: int|
                0 <= i < quotes@.len() ==> (#[trigger] quotes@[i]).player_id.0
                    < market@.players.len(),
            best == best_quote(quotes@.take(i as int), price as int, market@),
            best is Some ==> best.unwrap().player_id.0 < market@.players.len(),
        decreases quotes.len() - i,
    {
        proof {
            assert(quotes@.take(i + 1).drop_last() =~= quotes@.take(i as int));
        }
        let q = quotes[i];
        if q.price == price {
            let better = match best {
                None => true,
                Some(b) => q.amount > b.amount || (q.amount == b.amount && str_lt(
                    market.players[q.player_id.0].name.as_str(),
                    market.players[b.player_id.0].name.as_str(),
                )),
            };
            if better {
                best = Some(q);
            }
        }
        i += 1;
    }
    proof {
        assert(quotes@.take(i as int) =~= quotes@);
    }
    best
}

impl ContractOffers {
    /// See `ContractOffersModel::wf`.
    pub open spec fn wf(&self) -> bool {
        self@.wf()
    }

    /// A book without bids and asks.
    pub fn new() -> (r: Self)
        ensures
            r@.buy == Seq::<Quote>::empty(),
            r@.sell == Seq::<Quote>::empty(),
            r.wf(),
    {
        ContractOffers { buy: Vec::new(), sell: Vec::new() }
    }

    /// The highest bid.
    pub fn best_bid(&self) -> (r: Option<Price>)
        ensures
            match r {
                Some(p) => Some(p as int),
                None => None,
            } == self@.best_bid(),
    {
        highest_price(&self.buy, None)
    }

    /// The lowest ask.
    pub fn best_ask(&self) -> (r: Option<Price>)
        ensures
            match r {
                Some(p) => Some(p as int),
                None => None,
            } == self@.best_ask(),
    {
        lowest_price(&self.sell, None)
    }

    /// The trade that the book of the contract allows, if it crosses.
    pub fn crossing(&self, contract_id: ContractID, market: &Market) -> (r: Option<Crossing>)
        requires
            self.wf(),
            forall|i: int|
                0 <= i < self@.buy.len() ==> (#[trigger] self@.buy[i]).player_id.0
                    < market@.players.len(),
            forall|i: int|
                0 <= i < self@.sell.len() ==> (#[trigger] self@.sell[i]).player_id.0
                    < market@.players.len(),
        ensures
            r == self@.crossing(contract_id, market@),
    {
        let hb = match self.best_bid() {
            Some(hb) => hb,
            None => {
                return None;
            },
        };
        let la = match self.best_ask() {
            Some(la) => la,
            None => {
                return None;
            },
        };
        if la > hb {
            return None;
        }
        proof {
            self@.lemma_crossing(contract_id, market@);
        }
        let mut low = la;
        let mut high = hb;
        let next_high = highest_price(&self.buy, Some(hb));
        let next_low = lowest_price(&self.sell, Some(la));
        match (next_high, next_low) {
            (Some(nh), Some(nl)) => {
                if nl < nh {
                    low = nl;
                    high = nh;
                }
            },
            (Some(nh), None) => {
                if nh > low {
                    high = nh;
                }
            },
            (None, Some(nl)) => {
                if nl < high {
                    low = nl;
                }
            },
            (None, None) => {},
        }
        let buyer = first_quote(&self.buy, hb, market);
        let seller = first_quote(&self.sell, la, market);
        match (buyer, seller) {
            (Some(b), Some(s)) => Some(
                Crossing {
                    spread: high - low,
                    contract_id,
                    buyer_id: b.player_id,
                    high,
                    seller_id: s.player_id,
                    low,
                },
            ),
            _ => None,
        }
    }
}

/// One contract of the book with its bids and asks.
pub type BookEntry = (ContractID, ContractOffersModel);

/// Whether the book has an entry for the contract.
pub open spec fn has_book(book: Seq<BookEntry>, c: ContractID) -> bool {
    exists|i: int| 0 <= i < book.len() && book[i].0 == c
}

/// The position of the contract's entry in the book.
pub open spec fn book_index(book: Seq<BookEntry>, c: ContractID) -> int {
    choose|i: int| 0 <= i < book.len() && book[i].0 == c
}

/// No contract has two entries, and every entry is well formed.
pub open spec fn book_wf(book: Seq<BookEntry>) -> bool {
    &&& forall|i: int, j: int|
        0 <= i < book.len() && 0 <= j < book.len() && i != j ==> book[i].0 != book[j].0
    &&& forall|i: int| 0 <= i < book.len() ==> (#[trigger] book[i]).1.wf()
}

/// The book with the bid `q` on the contract.
pub open spec fn with_buy(book: Seq<BookEntry>, c: ContractID, q: Quote) -> Seq<BookEntry> {
    if has_book(book, c) {
        let i = book_index(book, c);
        book.update(
            i,
            (c, ContractOffersModel { buy: with_quote(book[i].1.buy, q), sell: book[i].1.sell }),
        )
    } else {
        book.push((c, ContractOffersModel { buy: seq![q], sell: Seq::empty() }))
    }
}

/// The book with the ask `q` on the contract.
pub open spec fn with_sell(book: Seq<BookEntry>, c: ContractID, q: Quote) -> Seq<BookEntry> {
    if has_book(book, c) {
        let i = book_index(book, c);
        book.update(
            i,
            (c, ContractOffersModel { buy: book[i].1.buy, sell: with_quote(book[i].1.sell, q) }),
        )
    } else {
        book.push((c, ContractOffersModel { buy: Seq::empty(), sell: seq![q] }))
    }
}

/// The crossings of the book, one for each contract whose book crosses, in
/// the order of the entries.
pub open spec fn crossings(book: Seq<BookEntry>, m: MarketModel) -> Seq<Crossing>
    decreases book.len(),
{
    if book.len() == 0 {
        Seq::empty()
    } else {
        let rest = crossings(book.drop_last(), m);
        match book.last().1.crossing(book.last().0, m) {
            Some(x) => rest.push(x),
            None => rest,
        }
    }
}

/// One line of a report of spreads: a contract with its best bid and its
/// best ask.
pub type SpreadLine = (ContractID, Price, Price);

/// The line of an entry of the book: its contract, its best bid or 0, and
/// its best ask or 100.
pub open spec fn line_of(e: BookEntry) -> SpreadLine {
    (e.0, e.1.spread().0 as Price, e.1.spread().1 as Price)
}

/// Whether the contract of the entry has not resolved.
pub open spec fn is_open(m: MarketModel, e: BookEntry) -> bool {
    m.contracts[e.0.0 as int].outcome is None
}

/// The lines of the entries of the book whose contract has not resolved,
/// in the order of the entries.
pub open spec fn open_spreads(book: Seq<BookEntry>, m: MarketModel) -> Seq<SpreadLine>
    decreases book.len(),
{
    if book.len() == 0 {
        Seq::empty()
    } else if is_open(m, book.last()) {
        open_spreads(book.drop_last(), m).push(line_of(book.last()))
    } else {
        open_spreads(book.drop_last(), m)
    }
}

/// The order of the lines of a report: by the name of the contract, as the
/// alphabet has it.
pub open spec fn by_name(m: MarketModel) -> spec_fn(SpreadLine, SpreadLine) -> bool {
    |a: SpreadLine, b: SpreadLine|
        name_lt(m.contracts[a.0.0 as int].name, m.contracts[b.0.0 as int].name)
}

/// The spreads that a report lists: those of the open contracts of the
/// book, in the order of the contracts' names.
pub open spec fn listed_spreads(book: Seq<BookEntry>, m: MarketModel) -> Seq<SpreadLine> {
    arranged(open_spreads(book, m), by_name(m))
}

/// Whether `line` is the line of an entry of the book whose contract has
/// not resolved.
pub open spec fn open_line(book: Seq<BookEntry>, m: MarketModel, line: SpreadLine) -> bool {
    exists|i: int| 0 <= i < book.len() && is_open(m, #[trigger] book[i]) && line == line_of(book[i])
}

/// Every line of `open_spreads` is the line of an entry of the book whose
/// contract has not resolved.
pub proof fn lemma_open_spreads(book: Seq<BookEntry>, m: MarketModel)
    ensures
        forall|k: int|
            0 <= k < open_spreads(book, m).len() ==> open_line(
                book,
                m,
                #[trigger] open_spreads(book, m)[k],
            ),
    decreases book.len(),
{
    if book.len() > 0 {
        let rest = book.drop_last();
        lemma_open_spreads(rest, m);
        let ls = open_spreads(book, m);
        let rs = open_spreads(rest, m);
        let last = book.len() - 1;
        assert(book[last] == book.last());
        assert forall|k: int| 0 <= k < ls.len() implies open_line(book, m, #[trigger] ls[k]) by {
            if k < rs.len() {
                assert(ls[k] == rs[k]);
                assert(open_line(rest, m, rs[k]));
                let i = choose|i: int|
                    0 <= i < rest.len() && is_open(m, #[trigger] rest[i]) && rs[k] == line_of(
                        rest[i],
                    );
                assert(book[i] == rest[i]);
            } else {
                assert(is_open(m, book[last]) && ls[k] == line_of(book[last]));
            }
        }
    }
}

/// `open_spreads` holds a line exactly if it is the line of an entry of
/// the book whose contract has not resolved.
pub proof fn law_open_spreads(book: Seq<BookEntry>, m: MarketModel, line: SpreadLine)
    ensures
        open_spreads(book, m).contains(line) <==> open_line(book, m, line),
    decreases book.len(),
{
    let ls = open_spreads(book, m);
    if book.len() > 0 {
        let rest = book.drop_last();
        let rs = open_spreads(rest, m);
        let last = book.len() - 1;
        law_open_spreads(rest, m, line);
        assert(book[last] == book.last());
        if ls.contains(line) {
            let k = choose|k: int| 0 <= k < ls.len() && ls[k] == line;
            if k < rs.len() {
                assert(rs[k] == line);
                assert(rs.contains(line));
                let i = choose|i: int|
                    0 <= i < rest.len() && is_open(m, #[trigger] rest[i]) && line == line_of(
                        rest[i],
                    );
                assert(book[i] == rest[i]);
            } else {
                assert(is_open(m, book[last]) && line == line_of(book[last]));
            }
        }
        if open_line(book, m, line) {
            let i = choose|i: int|
                0 <= i < book.len() && is_open(m, #[trigger] book[i]) && line == line_of(book[i]);
            if i < rest.len() {
                assert(rest[i] == book[i]);
                assert(open_line(rest, m, line));
                let k = choose|k: int| 0 <= k < rs.len() && rs[k] == line;
                assert(ls[k] == line);
            } else {
                assert(ls[ls.len() - 1] == line);
            }
        }
    }
}

/// In a book without double entries, on contracts of a market with unique
/// names, no two lines of `open_spreads` are for the same contract, and so
/// the names decide the order of any two.
pub proof fn lemma_open_spreads_decided(book: Seq<BookEntry>, m: MarketModel)
    requires
        m.wf(),
        book_wf(book),
        forall|i: int| 0 <= i < book.len() ==> (#[trigger] book[i]).0.0 < m.contracts.len(),
    ensures
        forall|j: int, k: int|
            0 <= j < open_spreads(book, m).len() && 0 <= k < open_spreads(book, m).len() && j
                != k ==> open_spreads(book, m)[j].0 != open_spreads(book, m)[k].0,
        forall|k: int|
            0 <= k < open_spreads(book, m).len() ==> (#[trigger] open_spreads(book, m)[k]).0.0
                < m.contracts.len(),
        decided(open_spreads(book, m), by_name(m)),
    decreases book.len(),
{
    let ls = open_spreads(book, m);
    if book.len() > 0 {
        let rest = book.drop_last();
        assert forall|i: int| 0 <= i < rest.len() implies (#[trigger] rest[i]).0.0
            < m.contracts.len() by {
            assert(rest[i] == book[i]);
        }
        assert(book_wf(rest)) by {
            assert forall|i: int, j: int|
                0 <= i < rest.len() && 0 <= j < rest.len() && i != j implies rest[i].0
                != rest[j].0 by {
                assert(rest[i] == book[i] && rest[j] == book[j]);
            }
            assert forall|i: int| 0 <= i < rest.len() implies (#[trigger] rest[i]).1.wf() by {
                assert(rest[i] == book[i]);
            }
        }
        lemma_open_spreads_decided(rest, m);
        lemma_open_spreads(rest, m);
        let rs = open_spreads(rest, m);
        let last = book.len() - 1;
        assert(book[last] == book.last());
        assert forall|j: int, k: int|
            0 <= j < ls.len() && 0 <= k < ls.len() && j != k implies ls[j].0 != ls[k].0 by {
            if j < rs.len() && k < rs.len() {
                assert(ls[j] == rs[j] && ls[k] == rs[k]);
            } else if j < rs.len() {
                assert(open_line(rest, m, rs[j]));
                let i = choose|i: int|
                    0 <= i < rest.len() && is_open(m, #[trigger] rest[i]) && rs[j] == line_of(
                        rest[i],
                    );
                assert(ls[j] == rs[j]);
                assert(rest[i] == book[i]);
                assert(book[i].0 != book[last].0);
            } else if k < rs.len() {
                assert(open_line(rest, m, rs[k]));
                let i = choose|i: int|
                    0 <= i < rest.len() && is_open(m, #[trigger] rest[i]) && rs[k] == line_of(
                        rest[i],
                    );
                assert(ls[k] == rs[k]);
                assert(rest[i] == book[i]);
                assert(book[i].0 != book[last].0);
            }
        }
        assert forall|k: int| 0 <= k < ls.len() implies (#[trigger] ls[k]).0.0
            < m.contracts.len() by {
            if k < rs.len() {
                assert(ls[k] == rs[k]);
            }
        }
    }
    assert forall|j: int, k: int| 0 <= j < ls.len() && 0 <= k < ls.len() implies ls[j] == ls[k]
        || #[trigger] by_name(m)(ls[j], ls[k]) || by_name(m)(ls[k], ls[j]) by {
        if j != k {
            let a = ls[j].0.0 as int;
            let b = ls[k].0.0 as int;
            assert(ls[j].0 != ls[k].0);
            assert(a != b);
            assert(m.contracts[a].name != m.contracts[b].name);
            lemma_name_lt_total(m.contracts[a].name, m.contracts[b].name);
        }
    }
}

/// The order of the candidates of a session: as `precedes` has it.
pub open spec fn by_rank(m: MarketModel) -> spec_fn(Crossing, Crossing) -> bool {
    |a: Crossing, b: Crossing| precedes(m, a, b)
}

/// The candidates best first: the larger spread before the smaller, and
/// among equal spreads the contract whose name comes first in the alphabet.
pub open spec fn ranked(candidates: Seq<Crossing>, m: MarketModel) -> Seq<Crossing> {
    arranged(candidates, by_rank(m))
}

/// Whether the crossing `a` goes before the crossing `b`: the larger spread
/// first, and among equal spreads the contract whose name comes first in
/// the alphabet.
pub open spec fn precedes(m: MarketModel, a: Crossing, b: Crossing) -> bool {
    a.spread > b.spread || (a.spread == b.spread && name_lt(
        m.contracts[a.contract_id.0 as int].name,
        m.contracts[b.contract_id.0 as int].name,
    ))
}

/// The crossing that goes first among `candidates`.
pub open spec fn first_crossing(candidates: Seq<Crossing>, m: MarketModel) -> Option<Crossing>
    decreases candidates.len(),
{
    if candidates.len() == 0 {
        None
    } else {
        let rest = first_crossing(candidates.drop_last(), m);
        let x = candidates.last();
        if rest is None || precedes(m, x, rest.unwrap()) {
            Some(x)
        } else {
            rest
        }
    }
}

/// `first_crossing` is one of the candidates, and there is one unless
/// there is no candidate.
pub proof fn lemma_first_crossing(candidates: Seq<Crossing>, m: MarketModel)
    ensures
        match first_crossing(candidates, m) {
            Some(x) => exists|i: int| 0 <= i < candidates.len() && candidates[i] == x,
            None => candidates.len() == 0,
        },
    decreases candidates.len(),
{
    if candidates.len() > 0 {
        let rest = candidates.drop_last();
        lemma_first_crossing(rest, m);
        let x = first_crossing(candidates, m).unwrap();
        if first_crossing(rest, m) == Some(x) {
            let i = choose|i: int| 0 <= i < rest.len() && rest[i] == x;
            assert(candidates[i] == x);
        } else {
            assert(candidates[candidates.len() - 1] == x);
        }
    }
}

/// The crossing that goes first goes before every other candidate, where
/// the candidates are on contracts of different names.
pub proof fn law_first_crossing(candidates: Seq<Crossing>, m: MarketModel, i: int)
    requires
        0 <= i < candidates.len(),
        forall|j: int, k: int|
            0 <= j < candidates.len() && 0 <= k < candidates.len() && j != k
                ==> m.contracts[candidates[j].contract_id.0 as int].name
                != m.contracts[candidates[k].contract_id.0 as int].name,
    ensures
        first_crossing(candidates, m) is Some,
        candidates[i] == first_crossing(candidates, m).unwrap() || precedes(
            m,
            first_crossing(candidates, m).unwrap(),
            candidates[i],
        ),
    decreases candidates.len(),
{
    let rest = candidates.drop_last();
    let x = candidates.last();
    lemma_first_crossing(candidates, m);
    lemma_first_crossing(rest, m);
    let best = first_crossing(candidates, m).unwrap();
    if rest.len() > 0 {
        let b = first_crossing(rest, m).unwrap();
        let bi = choose|k: int| 0 <= k < rest.len() && rest[k] == b;
        assert(candidates[bi] == b);
        assert forall|j: int, k: int|
            0 <= j < rest.len() && 0 <= k < rest.len() && j
                != k implies m.contracts[rest[j].contract_id.0 as int].name
            != m.contracts[rest[k].contract_id.0 as int].name by {
            assert(rest[j] == candidates[j] && rest[k] == candidates[k]);
        }
        let name_x = m.contracts[x.contract_id.0 as int].name;
        let name_b = m.contracts[b.contract_id.0 as int].name;
        assert(name_x != name_b) by {
            assert(candidates[candidates.len() - 1] == x);
        }
        lemma_name_lt_total(name_x, name_b);
        if i < rest.len() {
            law_first_crossing(rest, m, i);
            assert(rest[i] == candidates[i]);
            if best != b && candidates[i] != b {
                let name_i = m.contracts[candidates[i].contract_id.0 as int].name;
                if candidates[i].spread == b.spread && b.spread == x.spread {
                    lemma_name_lt_transitive(name_x, name_b, name_i);
                }
            }
        }
    }
}

/// The quote that goes first at a price goes before every other quote at
/// that price, where the quotes are of participants of different names.
pub proof fn law_best_quote(quotes: Seq<Quote>, price: int, m: MarketModel, i: int)
    requires
        0 <= i < quotes.len(),
        quotes[i].price == price,
        forall|j: int, k: int|
            0 <= j < quotes.len() && 0 <= k < quotes.len() && j != k && quotes[j].price == price
                && quotes[k].price == price ==> m.players[quotes[j].player_id.0 as int].name
                != m.players[quotes[k].player_id.0 as int].name,
    ensures
        best_quote(quotes, price, m) is Some,
        quotes[i] == best_quote(quotes, price, m).unwrap() || prefer(
            m,
            best_quote(quotes, price, m).unwrap(),
            quotes[i],
        ),
    decreases quotes.len(),
{
    let rest = quotes.drop_last();
    let x = quotes.last();
    lemma_best_quote(quotes, price, m);
    lemma_best_quote(rest, price, m);
    assert forall|j: int, k: int|
        0 <= j < rest.len() && 0 <= k < rest.len() && j != k && rest[j].price == price
            && rest[k].price == price implies m.players[rest[j].player_id.0 as int].name
        != m.players[rest[k].player_id.0 as int].name by {
        assert(rest[j] == quotes[j] && rest[k] == quotes[k]);
    }
    if i < rest.len() {
        assert(rest[i] == quotes[i]);
        law_best_quote(rest, price, m, i);
        let b = best_quote(rest, price, m).unwrap();
        if x.price == price {
            let bi = choose|k: int| 0 <= k < rest.len() && rest[k] == b;
            assert(quotes[bi] == b);
            assert(quotes[quotes.len() - 1] == x);
            let name_x = m.players[x.player_id.0 as int].name;
            let name_b = m.players[b.player_id.0 as int].name;
            let name_i = m.players[quotes[i].player_id.0 as int].name;
            lemma_name_lt_total(name_x, name_b);
            if quotes[i] != b && quotes[i].amount == b.amount && b.amount == x.amount && name_lt(
                name_x,
                name_b,
            ) {
                lemma_name_lt_transitive(name_x, name_b, name_i);
            }
        }
    } else {
        assert(quotes[quotes.len() - 1] == x);
        if rest.len() > 0 && best_quote(rest, price, m) is Some {
            let b = best_quote(rest, price, m).unwrap();
            let bi = choose|k: int| 0 <= k < rest.len() && rest[k] == b;
            assert(quotes[bi] == b);
            let name_x = m.players[x.player_id.0 as int].name;
            let name_b = m.players[b.player_id.0 as int].name;
            lemma_name_lt_total(name_x, name_b);
        }
    }
}

/// Every crossing of the book is the crossing of one of its entries.
pub proof fn lemma_crossings(book: Seq<BookEntry>, m: MarketModel)
    ensures
        forall|k: int|
            0 <= k < crossings(book, m).len() ==> exists|i: int|
                0 <= i < book.len() && book[i].1.crossing(book[i].0, m) == Some(
                    #[trigger] crossings(book, m)[k],
                ),
        forall|i: int|
            0 <= i < book.len() && (#[trigger] book[i]).1.crosses() ==> crossings(book, m).len()
                > 0,
    decreases book.len(),
{
    if book.len() > 0 {
        let rest = book.drop_last();
        lemma_crossings(rest, m);
        let xs = crossings(book, m);
        let rs = crossings(rest, m);
        assert forall|k: int| 0 <= k < xs.len() implies exists|i: int|
            0 <= i < book.len() && book[i].1.crossing(book[i].0, m) == Some(#[trigger] xs[k]) by {
            if k < rs.len() {
                assert(xs[k] == rs[k]);
                let i = choose|i: int|
                    0 <= i < rest.len() && rest[i].1.crossing(rest[i].0, m) == Some(rs[k]);
                assert(book[i] == rest[i]);
            } else {
                assert(book[book.len() - 1].1.crossing(book[book.len() - 1].0, m) == Some(xs[k]));
            }
        }
        assert forall|i: int| 0 <= i < book.len() && (#[trigger] book[i]).1.crosses() implies xs.len()
            > 0 by {
            if i < rest.len() {
                assert(rest[i] == book[i]);
            }
        }
    }
}

/// A crossing that goes before a second, which goes before a third, goes
/// before the third.
pub proof fn lemma_precedes_passes_on(m: MarketModel)
    ensures
        passes_on(by_rank(m)),
{
    assert forall|a: Crossing, b: Crossing, c: Crossing| #[trigger]
        by_rank(m)(a, b) && #[trigger] by_rank(m)(b, c) implies by_rank(m)(a, c) by {
        if a.spread == b.spread && b.spread == c.spread {
            lemma_name_lt_transitive(
                m.contracts[a.contract_id.0 as int].name,
                m.contracts[b.contract_id.0 as int].name,
                m.contracts[c.contract_id.0 as int].name,
            );
        }
    }
}

/// In a book without double entries, on contracts of a market with unique
/// names, no two candidates are on the same contract, and so `precedes`
/// decides the order of any two.
pub proof fn lemma_crossings_decided(book: Seq<BookEntry>, m: MarketModel)
    requires
        m.wf(),
        book_wf(book),
        forall|i: int| 0 <= i < book.len() ==> (#[trigger] book[i]).0.0 < m.contracts.len(),
    ensures
        forall|j: int, k: int|
            0 <= j < crossings(book, m).len() && 0 <= k < crossings(book, m).len() && j != k
                ==> crossings(book, m)[j].contract_id != crossings(book, m)[k].contract_id,
        forall|k: int|
            0 <= k < crossings(book, m).len() ==> (#[trigger] crossings(
                book,
                m,
            )[k]).contract_id.0 < m.contracts.len(),
        decided(crossings(book, m), by_rank(m)),
    decreases book.len(),
{
    let xs = crossings(book, m);
    if book.len() > 0 {
        let rest = book.drop_last();
        assert forall|i: int| 0 <= i < rest.len() implies (#[trigger] rest[i]).0.0
            < m.contracts.len() by {
            assert(rest[i] == book[i]);
        }
        assert(book_wf(rest)) by {
            assert forall|i: int, j: int|
                0 <= i < rest.len() && 0 <= j < rest.len() && i != j implies rest[i].0
                != rest[j].0 by {
                assert(rest[i] == book[i] && rest[j] == book[j]);
            }
            assert forall|i: int| 0 <= i < rest.len() implies (#[trigger] rest[i]).1.wf() by {
                assert(rest[i] == book[i]);
            }
        }
        lemma_crossings_decided(rest, m);
        lemma_crossings(rest, m);
        let rs = crossings(rest, m);
        let last = book.len() - 1;
        assert(book[last] == book.last());
        assert forall|j: int, k: int|
            0 <= j < xs.len() && 0 <= k < xs.len() && j != k implies xs[j].contract_id
            != xs[k].contract_id by {
            if j < rs.len() && k < rs.len() {
                assert(xs[j] == rs[j] && xs[k] == rs[k]);
            } else if j < rs.len() {
                let i = choose|i: int|
                    0 <= i < rest.len() && rest[i].1.crossing(rest[i].0, m) == Some(rs[j]);
                assert(xs[j] == rs[j]);
                assert(rest[i] == book[i]);
                assert(book[i].0 != book[last].0);
            } else if k < rs.len() {
                let i = choose|i: int|
                    0 <= i < rest.len() && rest[i].1.crossing(rest[i].0, m) == Some(rs[k]);
                assert(xs[k] == rs[k]);
                assert(rest[i] == book[i]);
                assert(book[i].0 != book[last].0);
            }
        }
        assert forall|k: int| 0 <= k < xs.len() implies (#[trigger] xs[k]).contract_id.0
            < m.contracts.len() by {
            if k < rs.len() {
                assert(xs[k] == rs[k]);
            }
        }
    }
    assert forall|j: int, k: int| 0 <= j < xs.len() && 0 <= k < xs.len() implies xs[j] == xs[k]
        || #[trigger] by_rank(m)(xs[j], xs[k]) || by_rank(m)(xs[k], xs[j]) by {
        if j != k {
            let a = xs[j].contract_id.0 as int;
            let b = xs[k].contract_id.0 as int;
            assert(xs[j].contract_id != xs[k].contract_id);
            assert(a != b);
            assert(m.contracts[a].name != m.contracts[b].name);
            lemma_name_lt_total(m.contracts[a].name, m.contracts[b].name);
        }
    }
}

/// The first of the candidates as they are ranked is the crossing that
/// goes first among them.
pub proof fn law_ranked_first(candidates: Seq<Crossing>, m: MarketModel)
    requires
        decided(candidates, by_rank(m)),
    ensures
        ranked(candidates, m).len() == candidates.len(),
        first_crossing(candidates, m) == if candidates.len() == 0 {
            None
        } else {
            Some(ranked(candidates, m)[0])
        },
    decreases candidates.len(),
{
    let before = by_rank(m);
    law_arranged(candidates, before);
    if candidates.len() > 0 {
        let rest = candidates.drop_last();
        let x = candidates.last();
        assert forall|i: int, j: int|
            0 <= i < rest.len() && 0 <= j < rest.len() implies rest[i] == rest[j]
            || #[trigger] before(rest[i], rest[j]) || before(rest[j], rest[i]) by {
            assert(rest[i] == candidates[i] && rest[j] == candidates[j]);
        }
        law_ranked_first(rest, m);
        law_arranged(rest, before);
        let t = ranked(rest, m);
        let u = ranked(candidates, m);
        let j = rank_of(t, x, before);
        lemma_rank(t, x, before);
        t.insert_ensures(j, x);
        assert(u == placed(t, x, before));
        if rest.len() > 0 {
            let h = t[0];
            lemma_precedes_passes_on(m);
            if precedes(m, x, h) {
                assert forall|k: int| 0 <= k < t.len() implies before(x, #[trigger] t[k]) by {
                    lemma_first_in_order(t, before, k);
                    assert(before(x, h));
                    if h != t[k] {
                        assert(before(h, t[k]));
                    }
                }
                lemma_rank_is(t, x, before, 0);
                assert(u[0] == x);
            } else {
                if j == 0 {
                    assert(before(x, t[0]));
                }
                assert(u[0] == t[0]);
            }
        } else {
            assert(u[0] == x);
        }
    }
}

/// The book of resting offers, one entry for each contract that has a bid
/// or an ask.
#[derive(Debug)]
pub struct Offers {
    pub offers: Vec<(ContractID, ContractOffers)>,
}

impl View for Offers {
    type V = Seq<BookEntry>;

    open spec fn view(&self) -> Seq<BookEntry> {
        Seq::new(self.offers@.len(), |i: int| (self.offers@[i].0, self.offers@[i].1@))
    }
}

impl Offers {
    /// See `book_wf`.
    pub open spec fn wf(&self) -> bool {
        book_wf(self@)
    }

    /// Every quote of the book is of a participant of the market, and
    /// every entry is for a contract of the market.
    pub open spec fn fits(&self, m: MarketModel) -> bool {
        forall|i: int|
            0 <= i < self@.len() ==> {
                &&& (#[trigger] self@[i]).0.0 < m.contracts.len()
                &&& forall|j: int|
                    0 <= j < self@[i].1.buy.len() ==> (#[trigger] self@[i].1.buy[j]).player_id.0
                        < m.players.len()
                &&& forall|j: int|
                    0 <= j < self@[i].1.sell.len() ==> (#[trigger] self@[i].1.sell[j]).player_id.0
                        < m.players.len()
            }
    }

    /// An empty book.
    pub fn new() -> (r: Self)
        ensures
            r@ == Seq::<BookEntry>::empty(),
            r.wf(),
    {
        let r = Offers { offers: Vec::new() };
        assert(r@ =~= Seq::<BookEntry>::empty());
        r
    }

    /// The position of the contract's entry, if it has one.
    fn find(&self, contract_id: ContractID) -> (r: Option<usize>)
        ensures
            match r {
                Some(i) => i < self@.len() && self@[i as int].0 == contract_id && has_book(
                    self@,
                    contract_id,
                ),
                None => !has_book(self@, contract_id),
            },
    {
        let mut i: usize = 0;
        while i < self.offers.len()
            invariant
                i <= self.offers.len(),
                forall|j: int| 0 <= j < i ==> self@[j].0 != contract_id,
            decreases self.offers.len() - i,
        {
            if self.offers[i].0 == contract_id {
                return Some(i);
            }
            i += 1;
        }
        None
    }

    /// Posts a bid of the participant on the contract at the price `low`,
    /// good for `amount` cents, in place of an earlier bid of the
    /// participant at that price.
    pub fn add_buy_offer(
        &mut self,
        contract_id: ContractID,
        player_id: PlayerID,
        low: Price,
        amount: Price,
    )
        requires
            old(self).wf(),
            0 <= low < 100,
        ensures
            final(self)@ == with_buy(
                old(self)@,
                contract_id,
                Quote { price: low, player_id, amount },
            ),
            final(self).wf(),
    {
        let q = Quote { price: low, player_id, amount };
        match self.find(contract_id) {
            Some(i) => {
                assert(book_index(self@, contract_id) == i);
                assert(self@[i as int].1.wf());
                put_quote(&mut self.offers[i].1.buy, q, Ghost(0), Ghost(99));
            },
            None => {
                let mut entry = ContractOffers::new();
                entry.buy.push(q);
                assert(entry@.buy =~= seq![q]);
                self.offers.push((contract_id, entry));
            },
        }
        assert(self@ =~= with_buy(old(self)@, contract_id, q));
    }

    /// Posts an ask of the participant on the contract at the price `high`,
    /// good for `amount` cents, in place of an earlier ask of the
    /// participant at that price.
    pub fn add_sell_offer(
        &mut self,
        contract_id: ContractID,
        player_id: PlayerID,
        high: Price,
        amount: Price,
    )
        requires
            old(self).wf(),
            0 < high <= 100,
        ensures
            final(self)@ == with_sell(
                old(self)@,
                contract_id,
                Quote { price: high, player_id, amount },
            ),
            final(self).wf(),
    {
        let q = Quote { price: high, player_id, amount };
        match self.find(contract_id) {
            Some(i) => {
                assert(book_index(self@, contract_id) == i);
                assert(self@[i as int].1.wf());
                put_quote(&mut self.offers[i].1.sell, q, Ghost(1), Ghost(100));
            },
            None => {
                let mut entry = ContractOffers::new();
                entry.sell.push(q);
                assert(entry@.sell =~= seq![q]);
                self.offers.push((contract_id, entry));
            },
        }
        assert(self@ =~= with_sell(old(self)@, contract_id, q));
    }

    /// The crossings of the book, one for each contract whose book
    /// crosses, in the order of the entries.
    pub fn find_crossings(&self, market: &Market) -> (r: Vec<Crossing>)
        requires
            self.wf(),
            self.fits(market@),
        ensures
            r@ == crossings(self@, market@),
    {
        let mut found: Vec<Crossing> = Vec::new();
        let mut i: usize = 0;
        while i < self.offers.len()
            invariant
                i <= self.offers.len(),
                self.wf(),
                self.fits(market@),
                found@ == crossings(self@.take(i as int), market@),
            decreases self.offers.len() - i,
        {
            proof {
                assert(self@.take(i + 1).drop_last() =~= self@.take(i as int));
                assert(self@[i as int].1.wf());
                assert(self@[i as int].0.0 < market@.contracts.len());
            }
            match self.offers[i].1.crossing(self.offers[i].0, market) {
                Some(x) => {
                    found.push(x);
                },
                None => {},
            }
            i += 1;
        }
        proof {
            assert(self@.take(i as int) =~= self@);
        }
        found
    }

    /// Every entry of the book is for a contract of the market.
    pub open spec fn known_to(&self, m: MarketModel) -> bool {
        forall|i: int| 0 <= i < self@.len() ==> (#[trigger] self@[i]).0.0 < m.contracts.len()
    }

    /// The best bid and the best ask of every contract of the book that has
    /// not resolved, 0 and 100 where a side is empty, in the order of the
    /// contracts' names. The book of no such contract may cross.
    pub fn find_spreads(&self, market: &Market) -> (r: Vec<SpreadLine>)
        requires
            market.wf(),
            self.wf(),
            self.known_to(market@),
            forall|i: int|
                0 <= i < self@.len() && is_open(market@, #[trigger] self@[i])
                    ==> !self@[i].1.crosses(),
        ensures
            r@ == listed_spreads(self@, market@),
            r@.to_multiset() =~= open_spreads(self@, market@).to_multiset(),
            forall|line: SpreadLine| #[trigger] r@.contains(line) <==> open_line(self@, market@, line),
            in_order(r@, by_name(market@)),
            forall|i: int| 0 <= i < r@.len() ==> 0 <= (#[trigger] r@[i]).1 < r@[i].2 <= 100,
    {
        let ghost m = market@;
        let mut found: Vec<SpreadLine> = Vec::new();
        let mut i: usize = 0;
        proof {
            assert(self@.take(0) =~= Seq::empty());
        }
        while i < self.offers.len()
            invariant
                i <= self.offers.len(),
                m == market@,
                market.wf(),
                self.wf(),
                self.known_to(m),
                forall|i: int|
                    0 <= i < self@.len() && is_open(m, #[trigger] self@[i])
                        ==> !self@[i].1.crosses(),
                found@ == listed_spreads(self@.take(i as int), m),
                forall|k: int|
                    0 <= k < found@.len() ==> 0 <= (#[trigger] found@[k]).1 < found@[k].2 <= 100
                        && found@[k].0.0 < m.contracts.len(),
            decreases self.offers.len() - i,
        {
            proof {
                assert(self@.take(i + 1).drop_last() =~= self@.take(i as int));
                assert(self@.take(i + 1).last() == self@[i as int]);
                assert(self@[i as int].0.0 < m.contracts.len());
                assert(market.contracts@.len() == m.contracts.len());
            }
            let contract_id = self.offers[i].0;
            if market.contracts[contract_id.0].outcome.is_none() {
                proof {
                    let e = self@[i as int].1;
                    assert(e.wf());
                    assert(!e.crosses());
                    lemma_highest(e.buy, None);
                    lemma_lowest(e.sell, None);
                    if e.best_bid() is Some {
                        let k = choose|k: int|
                            0 <= k < e.buy.len() && e.buy[k].price == e.best_bid().unwrap();
                        assert(0 <= e.buy[k].price <= 99);
                    }
                    if e.best_ask() is Some {
                        let k = choose|k: int|
                            0 <= k < e.sell.len() && e.sell[k].price == e.best_ask().unwrap();
                        assert(1 <= e.sell[k].price <= 100);
                    }
                }
                let buy = match self.offers[i].1.best_bid() {
                    Some(b) => b,
                    None => 0,
                };
                let sell = match self.offers[i].1.best_ask() {
                    Some(a) => a,
                    None => 100,
                };
                proof {
                    let os = open_spreads(self@.take(i as int), m);
                    let line = line_of(self@[i as int]);
                    assert(line == (contract_id, buy, sell));
                    assert(open_spreads(self@.take(i + 1), m) == os.push(line));
                    assert(os.push(line).drop_last() =~= os);
                    assert(os.push(line).last() == line);
                }
                place_line(&mut found, (contract_id, buy, sell), market);
            }
            i += 1;
        }
        proof {
            assert(self@.take(i as int) =~= self@);
            lemma_open_spreads_decided(self@, m);
            law_arranged(open_spreads(self@, m), by_name(m));
            found@.to_multiset_ensures();
            open_spreads(self@, m).to_multiset_ensures();
            assert forall|line: SpreadLine| #[trigger]
                found@.contains(line) <==> open_line(self@, m, line) by {
                law_open_spreads(self@, m, line);
                let ls = open_spreads(self@, m);
                assert(found@.to_multiset().count(line) == ls.to_multiset().count(line));
                assert(found@.contains(line) <==> found@.to_multiset().count(line) > 0);
                assert(ls.contains(line) <==> ls.to_multiset().count(line) > 0);
            }
        }
        found
    }
}

/// Whether the line `a` goes before the line `b` in a report.
fn line_before(a: &SpreadLine, b: &SpreadLine, market: &Market) -> (r: bool)
    requires
        a.0.0 < market@.contracts.len(),
        b.0.0 < market@.contracts.len(),
    ensures
        r == by_name(market@)(*a, *b),
{
    str_lt(market.contracts[a.0.0].name.as_str(), market.contracts[b.0.0].name.as_str())
}

/// Puts the line `x` in its place among the lines `v`.
fn place_line(v: &mut Vec<SpreadLine>, x: SpreadLine, market: &Market)
    requires
        x.0.0 < market@.contracts.len(),
        0 <= x.1 < x.2 <= 100,
        forall|k: int|
            0 <= k < old(v)@.len() ==> 0 <= (#[trigger] old(v)@[k]).1 < old(v)@[k].2 <= 100
                && old(v)@[k].0.0 < market@.contracts.len(),
    ensures
        final(v)@ == placed(old(v)@, x, by_name(market@)),
        forall|k: int|
            0 <= k < final(v)@.len() ==> 0 <= (#[trigger] final(v)@[k]).1 < final(v)@[k].2 <= 100
                && final(v)@[k].0.0 < market@.contracts.len(),
{
    let ghost before = by_name(market@);
    let mut j: usize = v.len();
    while j > 0 && line_before(&x, &v[j - 1], market)
        invariant
            j <= v.len(),
            *v == *old(v),
            before == by_name(market@),
            x.0.0 < market@.contracts.len(),
            forall|k: int|
                0 <= k < v@.len() ==> (#[trigger] v@[k]).0.0 < market@.contracts.len(),
            forall|k: int| j <= k < v@.len() ==> before(x, #[trigger] v@[k]),
        decreases j,
    {
        j -= 1;
    }
    proof {
        lemma_rank_is(v@, x, before, j as int);
        v@.insert_ensures(j as int, x);
    }
    v.insert(j, x);
    proof {
        assert forall|k: int| 0 <= k < v@.len() implies 0 <= (#[trigger] v@[k]).1 < v@[k].2 <= 100
            && v@[k].0.0 < market@.contracts.len() by {
            if k < j {
                assert(v@[k] == old(v)@[k]);
            } else if k > j {
                assert(v@[k] == old(v)@[k - 1]);
            }
        }
    }
}

/// Whether the crossing `a` goes before the crossing `b`.
pub fn goes_before(a: &Crossing, b: &Crossing, market: &Market) -> (r: bool)
    requires
        a.contract_id.0 < market@.contracts.len(),
        b.contract_id.0 < market@.contracts.len(),
    ensures
        r == precedes(market@, *a, *b),
{
    a.spread > b.spread || (a.spread == b.spread && str_lt(
        market.contracts[a.contract_id.0].name.as_str(),
        market.contracts[b.contract_id.0].name.as_str(),
    ))
}

/// Puts the crossing `x` in its place among the candidates `v`.
fn place_crossing(v: &mut Vec<Crossing>, x: Crossing, market: &Market)
    requires
        x.contract_id.0 < market@.contracts.len(),
        forall|k: int|
            0 <= k < old(v)@.len() ==> (#[trigger] old(v)@[k]).contract_id.0
                < market@.contracts.len(),
    ensures
        final(v)@ == placed(old(v)@, x, by_rank(market@)),
        forall|k: int|
            0 <= k < final(v)@.len() ==> (#[trigger] final(v)@[k]).contract_id.0
                < market@.contracts.len(),
{
    let ghost before = by_rank(market@);
    let mut j: usize = v.len();
    while j > 0 && goes_before(&x, &v[j - 1], market)
        invariant
            j <= v.len(),
            *v == *old(v),
            before == by_rank(market@),
            x.contract_id.0 < market@.contracts.len(),
            forall|k: int|
                0 <= k < v@.len() ==> (#[trigger] v@[k]).contract_id.0 < market@.contracts.len(),
            forall|k: int| j <= k < v@.len() ==> before(x, #[trigger] v@[k]),
        decreases j,
    {
        j -= 1;
    }
    proof {
        lemma_rank_is(v@, x, before, j as int);
        v@.insert_ensures(j as int, x);
    }
    v.insert(j, x);
    proof {
        assert forall|k: int| 0 <= k < v@.len() implies (#[trigger] v@[k]).contract_id.0
            < market@.contracts.len() by {
            if k < j {
                assert(v@[k] == old(v)@[k]);
            } else if k > j {
                assert(v@[k] == old(v)@[k - 1]);
            }
        }
    }
}

/// The candidates best first: the larger spread before the smaller, and
/// among equal spreads the contract whose name comes first in the alphabet.
pub fn rank_crossings(candidates: &Vec<Crossing>, market: &Market) -> (r: Vec<Crossing>)
    requires
        forall|i: int|
            0 <= i < candidates@.len() ==> (#[trigger] candidates@[i]).contract_id.0
                < market@.contracts.len(),
    ensures
        r@ == ranked(candidates@, market@),
{
    let mut found: Vec<Crossing> = Vec::new();
    let mut i: usize = 0;
    proof {
        assert(candidates@.take(0) =~= Seq::empty());
    }
    while i < candidates.len()
        invariant
            i <= candidates.len(),
            forall|i: int|
                0 <= i < candidates@.len() ==> (#[trigger] candidates@[i]).contract_id.0
                    < market@.contracts.len(),
            found@ == ranked(candidates@.take(i as int), market@),
            forall|k: int|
                0 <= k < found@.len() ==> (#[trigger] found@[k]).contract_id.0
                    < market@.contracts.len(),
        decreases candidates.len() - i,
    {
        proof {
            assert(candidates@.take(i + 1).drop_last() =~= candidates@.take(i as int));
            assert(candidates@.take(i + 1).last() == candidates@[i as int]);
        }
        place_crossing(&mut found, candidates[i], market);
        i += 1;
    }
    proof {
        assert(candidates@.take(i as int) =~= candidates@);
    }
    found
}

/// The crossing that goes first among `candidates`.
pub fn select_crossing(candidates: &Vec<Crossing>, market: &Market) -> (r: Option<Crossing>)
    requires
        forall|i: int|
            0 <= i < candidates@.len() ==> (#[trigger] candidates@[i]).contract_id.0
                < market@.contracts.len(),
    ensures
        r == first_crossing(candidates@, market@),
{
    let mut best: Option<Crossing> = None;
    let mut i: usize = 0;
    while i < candidates.len()
        invariant
            i <= candidates.len(),
            forall|i: int|
                0 <= i < candidates@.len() ==> (#[trigger] candidates@[i]).contract_id.0
                    < market@.contracts.len(),
            best == first_crossing(candidates@.take(i as int), market@),
            best is Some ==> best.unwrap().contract_id.0 < market@.contracts.len(),
        decreases candidates.len() - i,
    {
        proof {
            assert(candidates@.take(i + 1).drop_last() =~= candidates@.take(i as int));
        }
        let x = candidates[i];
        let better = match best {
            None => true,
            Some(b) => x.spread > b.spread || (x.spread == b.spread && str_lt(
                market.contracts[x.contract_id.0].name.as_str(),
                market.contracts[b.contract_id.0].name.as_str(),
            )),
        };
        if better {
            best = Some(x);
        }
        i += 1;
    }
    proof {
        assert(candidates@.take(i as int) =~= candidates@);
    }
    best
}

} // verus!
