//! One matching session: the working exposure snapshots, the book that the
//! participants' ranges and remaining credit give rise to, and the pricing
//! and sizing of a trade.

use crate::exposure::{Exposure, ExposureModel};
use crate::ledger::{
    volume, Condition, ContractID, Iou, IouStatus, PlayerID, Price, MAX_VOLUME,
};
use crate::market::{ledger_wf, Market, MarketModel, Range};
use crate::offers::{
    book_wf, by_rank, crossings, lemma_crossings_decided, lemma_precedes_passes_on, precedes,
    rank_crossings, ranked,
    with_buy, with_quote, with_sell, BookEntry, Crossing, Offers, Quote,
};
use crate::order::{in_order, law_arranged, lemma_in_order_pairs};
use crate::replay::{amounts_positive, lemma_replay_bounds, lemma_volume_prefix, replay};
use vstd::prelude::*;

verus! {

/// One trade of a session: `trade_units` units of the contract, for which
/// the buyer has committed `amount` cents in all.
#[derive(Copy, Clone, Debug, PartialEq, Eq, Structural)]
pub struct Trade {
    pub contract_id: ContractID,
    pub trade_units: i32,
    pub amount: Price,
}

/// The price in percent of a trade on the crossing: the midpoint of its bid
/// and its ask, rounded down.
pub open spec fn price_of(x: Crossing) -> int {
    (x.low + x.high) / 2
}

/// The units that change hands on the crossing: as many as the buyer's
/// remaining amount pays for at the price, and as the seller's remaining
/// amount covers at 100 less the price.
pub open spec fn units_of(x: Crossing, buy_amount: int, sell_amount: int) -> int {
    let b = buy_amount / price_of(x);
    let s = sell_amount / (100 - price_of(x));
    if b < s {
        b
    } else {
        s
    }
}

/// The IOU that the seller issues to the buyer: payable if the contract
/// comes true, 100 less the price for each unit.
pub open spec fn if_iou(x: Crossing, units: int) -> Iou {
    Iou {
        issuer_id: x.seller_id,
        holder_id: x.buyer_id,
        status: IouStatus::Unknown(Condition::If(x.contract_id)),
        amount: (units * (100 - price_of(x))) as Price,
    }
}

/// The IOU that the buyer issues to the seller: payable if the contract
/// comes false, the price for each unit.
pub open spec fn not_iou(x: Crossing, units: int) -> Iou {
    Iou {
        issuer_id: x.buyer_id,
        holder_id: x.seller_id,
        status: IouStatus::Unknown(Condition::Not(x.contract_id)),
        amount: (units * price_of(x)) as Price,
    }
}

/// The record of a trade of `units` units on the crossing.
pub open spec fn trade_of(x: Crossing, units: int) -> Trade {
    Trade {
        contract_id: x.contract_id,
        trade_units: units as i32,
        amount: (units * price_of(x)) as Price,
    }
}

/// Prices and sizes the trade on a crossing, given what the buyer and the
/// seller can still commit, and writes the two IOUs: the seller's "if" IOU
/// and the buyer's "not" IOU. Together the two amount to 100 cents for each
/// unit.
pub fn settle(x: &Crossing, buy_amount: Price, sell_amount: Price) -> (r: (Trade, Iou, Iou))
    requires
        1 <= x.low <= x.high <= 99,
        buy_amount >= 100,
        sell_amount >= 100,
    ensures
        r.0 == trade_of(*x, units_of(*x, buy_amount as int, sell_amount as int)),
        r.1 == if_iou(*x, units_of(*x, buy_amount as int, sell_amount as int)),
        r.2 == not_iou(*x, units_of(*x, buy_amount as int, sell_amount as int)),
        1 <= price_of(*x) <= 99,
        r.0.trade_units == units_of(*x, buy_amount as int, sell_amount as int),
        r.0.trade_units >= 1,
        r.1.amount == r.0.trade_units * (100 - price_of(*x)),
        r.2.amount == r.0.trade_units * price_of(*x),
        0 < r.1.amount <= sell_amount,
        0 < r.2.amount <= buy_amount,
        r.1.amount + r.2.amount == r.0.trade_units * 100,
{
    let price: Price = (x.low + x.high) / 2;
    let buyer_max_units: i32 = buy_amount / price;
    let seller_max_units: i32 = sell_amount / (100 - price);
    let trade_units: i32 = if buyer_max_units < seller_max_units {
        buyer_max_units
    } else {
        seller_max_units
    };
    proof {
        let p = price as int;
        let b = buy_amount as int;
        let s = sell_amount as int;
        let u = trade_units as int;
        assert(b / p >= 1 && (b / p) * p <= b) by (nonlinear_arith)
            requires
                b >= 100,
                1 <= p <= 99,
        ;
        assert(s / (100 - p) >= 1 && (s / (100 - p)) * (100 - p) <= s) by (nonlinear_arith)
            requires
                s >= 100,
                1 <= p <= 99,
        ;
        assert(u * p <= (b / p) * p && u * p >= p) by (nonlinear_arith)
            requires
                1 <= u <= b / p,
                p >= 1,
        ;
        assert(u * (100 - p) <= (s / (100 - p)) * (100 - p) && u * (100 - p) >= 100 - p)
            by (nonlinear_arith)
            requires
                1 <= u <= s / (100 - p),
                p <= 99,
        ;
        assert(u * (100 - p) + u * p == u * 100) by (nonlinear_arith);
    }
    let seller_iou = Iou {
        issuer_id: x.seller_id,
        holder_id: x.buyer_id,
        status: IouStatus::Unknown(Condition::If(x.contract_id)),
        amount: trade_units * (100 - price),
    };
    let buyer_iou = Iou {
        issuer_id: x.buyer_id,
        holder_id: x.seller_id,
        status: IouStatus::Unknown(Condition::Not(x.contract_id)),
        amount: trade_units * price,
    };
    let trade = Trade { contract_id: x.contract_id, trade_units, amount: trade_units * price };
    (trade, seller_iou, buyer_iou)
}

/// What a participant can still commit to buying the contract: the credit
/// limit less the worst loss if the contract comes false, or nothing.
pub open spec fn buy_amount(credit_limit: int, e: ExposureModel, c: ContractID) -> int {
    let a = credit_limit - e.total_exposure_to_contract_neg(c);
    if a > 0 {
        a
    } else {
        0
    }
}

/// What a participant can still commit to selling the contract: the credit
/// limit less the loss if the contract comes true, or nothing.
pub open spec fn sell_amount(credit_limit: int, e: ExposureModel, c: ContractID) -> int {
    let a = credit_limit - e.total_exposure_to_contract(c);
    if a > 0 {
        a
    } else {
        0
    }
}

/// Whether the bid `q` on the contract is what a range of its participant
/// and the participant's remaining credit give rise to.
pub open spec fn bid_sound(m: MarketModel, es: Seq<ExposureModel>, c: ContractID, q: Quote) -> bool {
    let p = q.player_id.0 as int;
    &&& p < m.players.len()
    &&& exists|k: int|
        0 <= k < m.players[p].ranges.len() && (#[trigger] m.players[p].ranges[k]).contract_id == c
            && m.players[p].ranges[k].low == q.price
    &&& q.amount == buy_amount(m.players[p].credit_limit, es[p], c)
    &&& q.amount >= 100
}

/// Whether the ask `q` on the contract is what a range of its participant
/// and the participant's remaining credit give rise to.
pub open spec fn ask_sound(m: MarketModel, es: Seq<ExposureModel>, c: ContractID, q: Quote) -> bool {
    let p = q.player_id.0 as int;
    &&& p < m.players.len()
    &&& exists|k: int|
        0 <= k < m.players[p].ranges.len() && (#[trigger] m.players[p].ranges[k]).contract_id == c
            && m.players[p].ranges[k].high == q.price
    &&& q.amount == sell_amount(m.players[p].credit_limit, es[p], c)
    &&& q.amount >= 100
}

/// Every entry of the book is for a contract of the market, and every
/// quote is sound.
pub open spec fn book_sound(book: Seq<BookEntry>, m: MarketModel, es: Seq<ExposureModel>) -> bool {
    forall|i: int|
        0 <= i < book.len() ==> {
            &&& (#[trigger] book[i]).0.0 < m.contracts.len()
            &&& forall|j: int|
                0 <= j < book[i].1.buy.len() ==> bid_sound(
                    m,
                    es,
                    book[i].0,
                    #[trigger] book[i].1.buy[j],
                )
            &&& forall|j: int|
                0 <= j < book[i].1.sell.len() ==> ask_sound(
                    m,
                    es,
                    book[i].0,
                    #[trigger] book[i].1.sell[j],
                )
        }
}

/// The book with what the range `r` of the participant `p` gives rise to:
/// a bid at the low end and an ask at the high end, each only where the
/// participant can still commit 100 cents or more.
pub open spec fn post_range(
    book: Seq<BookEntry>,
    m: MarketModel,
    es: Seq<ExposureModel>,
    p: int,
    r: Range,
) -> Seq<BookEntry> {
    let buy = buy_amount(m.players[p].credit_limit, es[p], r.contract_id);
    let sell = sell_amount(m.players[p].credit_limit, es[p], r.contract_id);
    let player_id = PlayerID(p as usize);
    let b1 = if buy >= 100 {
        with_buy(book, r.contract_id, Quote { price: r.low, player_id, amount: buy as Price })
    } else {
        book
    };
    if sell >= 100 {
        with_sell(b1, r.contract_id, Quote { price: r.high, player_id, amount: sell as Price })
    } else {
        b1
    }
}

/// The book with what the first `k` ranges of the participant `p` give
/// rise to.
pub open spec fn post_ranges(
    book: Seq<BookEntry>,
    m: MarketModel,
    es: Seq<ExposureModel>,
    p: int,
    k: nat,
) -> Seq<BookEntry>
    decreases k,
{
    if k == 0 {
        book
    } else {
        post_range(
            post_ranges(book, m, es, p, (k - 1) as nat),
            m,
            es,
            p,
            m.players[p].ranges[k - 1],
        )
    }
}

/// The book that the ranges of the first `n` participants give rise to.
pub open spec fn book_of(m: MarketModel, es: Seq<ExposureModel>, n: nat) -> Seq<BookEntry>
    decreases n,
{
    if n == 0 {
        Seq::empty()
    } else {
        post_ranges(
            book_of(m, es, (n - 1) as nat),
            m,
            es,
            n - 1,
            m.players[n - 1].ranges.len(),
        )
    }
}

/// The book of the market under the exposure snapshots `es`.
pub open spec fn book(m: MarketModel, es: Seq<ExposureModel>) -> Seq<BookEntry> {
    book_of(m, es, m.players.len())
}

/// A quote put in its slot leaves every other quote as it was.
pub proof fn lemma_with_quote(quotes: Seq<Quote>, q: Quote)
    ensures
        forall|j: int|
            0 <= j < with_quote(quotes, q).len() ==> (#[trigger] with_quote(quotes, q)[j]) == q || (
            j < quotes.len() && quotes[j] == with_quote(quotes, q)[j]),
{
}

/// A sound bid put in a sound book leaves the book sound.
pub proof fn lemma_with_buy(
    book: Seq<BookEntry>,
    c: ContractID,
    q: Quote,
    m: MarketModel,
    es: Seq<ExposureModel>,
)
    requires
        book_wf(book),
        book_sound(book, m, es),
        bid_sound(m, es, c, q),
        c.0 < m.contracts.len(),
    ensures
        book_sound(with_buy(book, c, q), m, es),
{
    let t = with_buy(book, c, q);
    assert forall|i: int| 0 <= i < t.len() implies {
        &&& (#[trigger] t[i]).0.0 < m.contracts.len()
        &&& forall|j: int|
            0 <= j < t[i].1.buy.len() ==> bid_sound(m, es, t[i].0, #[trigger] t[i].1.buy[j])
        &&& forall|j: int|
            0 <= j < t[i].1.sell.len() ==> ask_sound(m, es, t[i].0, #[trigger] t[i].1.sell[j])
    } by {
        if i < book.len() {
            assert(book[i].0 == t[i].0);
            assert(book[i].1.sell == t[i].1.sell);
            lemma_with_quote(book[i].1.buy, q);
            assert forall|j: int| 0 <= j < t[i].1.buy.len() implies bid_sound(
                m,
                es,
                t[i].0,
                #[trigger] t[i].1.buy[j],
            ) by {
                if t[i].1.buy != book[i].1.buy {
                    assert(t[i].1.buy == with_quote(book[i].1.buy, q));
                    if t[i].1.buy[j] != q {
                        assert(book[i].1.buy[j] == t[i].1.buy[j]);
                    }
                }
            }
            assert forall|j: int| 0 <= j < t[i].1.sell.len() implies ask_sound(
                m,
                es,
                t[i].0,
                #[trigger] t[i].1.sell[j],
            ) by {
                assert(book[i].1.sell[j] == t[i].1.sell[j]);
            }
        }
    }
}

/// A sound ask put in a sound book leaves the book sound.
pub proof fn lemma_with_sell(
    book: Seq<BookEntry>,
    c: ContractID,
    q: Quote,
    m: MarketModel,
    es: Seq<ExposureModel>,
)
    requires
        book_wf(book),
        book_sound(book, m, es),
        ask_sound(m, es, c, q),
        c.0 < m.contracts.len(),
    ensures
        book_sound(with_sell(book, c, q), m, es),
{
    let t = with_sell(book, c, q);
    assert forall|i: int| 0 <= i < t.len() implies {
        &&& (#[trigger] t[i]).0.0 < m.contracts.len()
        &&& forall|j: int|
            0 <= j < t[i].1.buy.len() ==> bid_sound(m, es, t[i].0, #[trigger] t[i].1.buy[j])
        &&& forall|j: int|
            0 <= j < t[i].1.sell.len() ==> ask_sound(m, es, t[i].0, #[trigger] t[i].1.sell[j])
    } by {
        if i < book.len() {
            assert(book[i].0 == t[i].0);
            assert(book[i].1.buy == t[i].1.buy);
            lemma_with_quote(book[i].1.sell, q);
            assert forall|j: int| 0 <= j < t[i].1.sell.len() implies ask_sound(
                m,
                es,
                t[i].0,
                #[trigger] t[i].1.sell[j],
            ) by {
                if t[i].1.sell != book[i].1.sell {
                    assert(t[i].1.sell == with_quote(book[i].1.sell, q));
                    if t[i].1.sell[j] != q {
                        assert(book[i].1.sell[j] == t[i].1.sell[j]);
                    }
                }
            }
            assert forall|j: int| 0 <= j < t[i].1.buy.len() implies bid_sound(
                m,
                es,
                t[i].0,
                #[trigger] t[i].1.buy[j],
            ) by {
                assert(book[i].1.buy[j] == t[i].1.buy[j]);
            }
        }
    }
}

/// The working state of one matching session: an exposure snapshot for each
/// participant, and the IOUs and trades that the session has made so far.
/// The snapshots account for the ledger that the session started from and
/// for every IOU of the session.
pub struct Session {
    pub exposures: Vec<Exposure>,
    pub ious: Vec<Iou>,
    pub trades: Vec<Trade>,
    pub ledger: Ghost<Seq<Iou>>,
}

/// Books `iou` on the snapshots of its issuer and its holder.
fn apply_iou(exposures: &mut Vec<Exposure>, iou: &Iou, Ghost(history): Ghost<Seq<Iou>>)
    requires
        amounts_positive(history),
        iou.amount > 0,
        volume(history) + iou.amount <= MAX_VOLUME,
        iou.issuer_id.0 < old(exposures)@.len(),
        iou.holder_id.0 < old(exposures)@.len(),
        forall|p: int|
            0 <= p < old(exposures)@.len() ==> (#[trigger] old(exposures)@[p]).wf() && old(exposures)@[p]@ == replay(history, PlayerID(p as usize)),
    ensures
        final(exposures)@.len() == old(exposures)@.len(),
        forall|p: int|
            0 <= p < final(exposures)@.len() ==> (#[trigger] final(exposures)@[p]).wf() && final(exposures)@[p]@ == replay(history.push(*iou), PlayerID(p as usize)),
{
    let issuer = iou.issuer_id.0;
    let holder = iou.holder_id.0;
    proof {
        lemma_replay_bounds(history, iou.issuer_id);
        lemma_replay_bounds(history, iou.holder_id);
        assert(old(exposures)@[issuer as int].wf());
        assert(old(exposures)@[holder as int].wf());
        assert(history.push(*iou).drop_last() =~= history);
    }
    if issuer == holder {
        proof {
            assert(iou.issuer_id == iou.holder_id);
        }
        return ;
    }
    exposures[issuer].apply_iou_issuer(&iou.status, iou.amount);
    exposures[holder].apply_iou_holder(&iou.status, iou.amount);
    proof {
        assert(exposures@.len() == exposures.len());
        assert forall|p: int| 0 <= p < exposures@.len() implies (#[trigger] exposures@[p]).wf()
            && exposures@[p]@ == replay(history.push(*iou), PlayerID(p as usize)) by {
            assert(old(exposures)@[p].wf());
            assert(PlayerID(p as usize).0 == p);
        }
    }
}

impl Session {
    /// The ledger that the session started from, and after it the IOUs of
    /// the session.
    pub open spec fn all_ious(&self) -> Seq<Iou> {
        self.ledger@ + self.ious@
    }

    /// The exposure snapshots, one for each participant.
    pub open spec fn exposure_models(&self) -> Seq<ExposureModel> {
        Seq::new(self.exposures@.len(), |p: int| self.exposures@[p]@)
    }

    /// The history is sound and within the volume limit, and the snapshot
    /// of each participant is what a replay of the whole history gives.
    pub open spec fn wf(&self) -> bool {
        &&& ledger_wf(self.all_ious(), self.exposures@.len())
        &&& volume(self.all_ious()) <= MAX_VOLUME
        &&& forall|p: int|
            0 <= p < self.exposures@.len() ==> (#[trigger] self.exposures@[p]).wf()
                && self.exposures@[p]@ == replay(self.all_ious(), PlayerID(p as usize))
    }

    /// The session started from the ledger of the market `m`, and has a
    /// snapshot for each of its participants.
    pub open spec fn belongs_to(&self, m: MarketModel) -> bool {
        self.ledger@ == m.ious && self.exposures@.len() == m.players.len()
    }

    /// A session on the market: the snapshot of each participant from the
    /// ledger, and no IOUs or trades yet.
    pub fn new(market: &Market) -> (s: Self)
        requires
            market.wf(),
        ensures
            s.wf(),
            s.belongs_to(market@),
            s.ious@.len() == 0,
            s.trades@.len() == 0,
    {
        let mut exposures: Vec<Exposure> = Vec::new();
        let mut p: usize = 0;
        while p < market.players.len()
            invariant
                p <= market.players.len(),
                exposures@.len() == p,
                forall|q: int|
                    0 <= q < p ==> (#[trigger] exposures@[q]).wf() && exposures@[q]@
                        == ExposureModel::empty(),
            decreases market.players.len() - p,
        {
            exposures.push(Exposure::new());
            p += 1;
        }
        let mut i: usize = 0;
        proof {
            assert(market.ious@.take(0) =~= Seq::empty());
            lemma_volume_prefix(market.ious@, 0);
        }
        while i < market.ious.len()
            invariant
                i <= market.ious.len(),
                market.wf(),
                exposures@.len() == market.players@.len(),
                forall|q: int|
                    0 <= q < exposures@.len() ==> (#[trigger] exposures@[q]).wf() && exposures@[q]@
                        == replay(market.ious@.take(i as int), PlayerID(q as usize)),
            decreases market.ious.len() - i,
        {
            proof {
                lemma_volume_prefix(market.ious@, i as int);
                lemma_volume_prefix(market.ious@, i + 1);
                assert(market.ious@.take(i + 1) =~= market.ious@.take(i as int).push(
                    market.ious@[i as int],
                ));
                assert(market.ious@[i as int].amount > 0);
                assert forall|k: int| 0 <= k < i implies (#[trigger] market.ious@.take(
                    i as int,
                )[k]).amount > 0 by {
                    assert(market.ious@[k].amount > 0);
                }
            }
            apply_iou(&mut exposures, &market.ious[i], Ghost(market.ious@.take(i as int)));
            i += 1;
        }
        let s = Session {
            exposures,
            ious: Vec::new(),
            trades: Vec::new(),
            ledger: Ghost(market.ious@),
        };
        proof {
            assert(market.ious@.take(i as int) =~= market.ious@);
            assert(s.all_ious() =~= market.ious@);
        }
        s
    }

    /// Enters an IOU in the session and books it on the snapshots of its
    /// issuer and its holder. An IOU that its issuer holds changes no
    /// snapshot.
    pub fn push_iou(&mut self, iou: Iou)
        requires
            old(self).wf(),
            iou.amount > 0,
            iou.issuer_id.0 < old(self).exposures@.len(),
            iou.holder_id.0 < old(self).exposures@.len(),
            volume(old(self).all_ious()) + iou.amount <= MAX_VOLUME,
        ensures
            final(self).wf(),
            final(self).ious@ == old(self).ious@.push(iou),
            final(self).trades@ == old(self).trades@,
            final(self).ledger@ == old(self).ledger@,
            final(self).exposures@.len() == old(self).exposures@.len(),
            forall|p: int|
                0 <= p < old(self).exposures@.len() && p != iou.issuer_id.0 && p
                    != iou.holder_id.0 ==> (#[trigger] final(self).exposures@[p])@ == old(self).exposures@[p]@,
            iou.issuer_id != iou.holder_id ==> final(self).exposures@[iou.issuer_id.0 as int]@
                == old(self).exposures@[iou.issuer_id.0 as int]@.apply_issuer(
                iou.status,
                iou.amount as int,
            ),
            iou.issuer_id != iou.holder_id ==> final(self).exposures@[iou.holder_id.0 as int]@
                == old(self).exposures@[iou.holder_id.0 as int]@.apply_holder(
                iou.status,
                iou.amount as int,
            ),
            iou.issuer_id == iou.holder_id ==> final(self).exposures@[iou.issuer_id.0 as int]@
                == old(self).exposures@[iou.issuer_id.0 as int]@,
    {
        let ghost history = self.all_ious();
        proof {
            assert(amounts_positive(history)) by {
                assert forall|k: int| 0 <= k < history.len() implies (#[trigger] history[k]).amount
                    > 0 by {}
            }
            assert(history.push(iou).drop_last() =~= history);
            assert forall|p: int| 0 <= p < self.exposures@.len() implies (
            #[trigger] self.exposures@[p])@ == replay(history, PlayerID(p as usize)) by {}
        }
        apply_iou(&mut self.exposures, &iou, Ghost(history));
        self.ious.push(iou);
        proof {
            assert(self.all_ious() =~= history.push(iou));
            assert(self.exposures@.len() == self.exposures.len());
            assert forall|p: int|
                0 <= p < old(self).exposures@.len() && p != iou.issuer_id.0 && p
                    != iou.holder_id.0 implies (#[trigger] self.exposures@[p])@ == old(self).exposures@[p]@ by {
                assert(PlayerID(p as usize).0 == p);
            }
            assert(PlayerID(iou.issuer_id.0) == iou.issuer_id);
            assert(PlayerID(iou.holder_id.0) == iou.holder_id);
        }
    }
}

/// The working snapshot of each participant of a session is the snapshot
/// that a replay of the whole history gives: of the ledger that the session
/// started from, and of every IOU of the session after it.
pub proof fn law_working_snapshot(session: &Session, p: int)
    requires
        session.wf(),
        0 <= p < session.exposures@.len(),
    ensures
        session.exposures@[p]@ == replay(session.ledger@ + session.ious@, PlayerID(p as usize)),
{
    assert(session.exposures@[p].wf());
}

impl Market {
    /// What the participant can still commit to buying the contract.
    pub fn player_max_buy_amount(
        &self,
        session: &Session,
        buyer_id: PlayerID,
        contract_id: ContractID,
    ) -> (r: Price)
        requires
            self.wf(),
            session.wf(),
            session.belongs_to(self@),
            buyer_id.0 < self@.players.len(),
        ensures
            r == buy_amount(
                self@.players[buyer_id.0 as int].credit_limit,
                session.exposures@[buyer_id.0 as int]@,
                contract_id,
            ),
    {
        let buyer_credit_limit = self.players[buyer_id.0].credit_limit;
        let buyer_exposure = &session.exposures[buyer_id.0];
        proof {
            assert(self@.players[buyer_id.0 as int].wf());
            assert(session.exposures@[buyer_id.0 as int].wf());
            buyer_exposure@.lemma_magnitude(contract_id);
        }
        let buyer_exposed = buyer_exposure.total_exposure_to_contract_neg(contract_id);
        if buyer_credit_limit - buyer_exposed > 0 {
            buyer_credit_limit - buyer_exposed
        } else {
            0
        }
    }

    /// What the participant can still commit to selling the contract.
    pub fn player_max_sell_amount(
        &self,
        session: &Session,
        seller_id: PlayerID,
        contract_id: ContractID,
    ) -> (r: Price)
        requires
            self.wf(),
            session.wf(),
            session.belongs_to(self@),
            seller_id.0 < self@.players.len(),
        ensures
            r == sell_amount(
                self@.players[seller_id.0 as int].credit_limit,
                session.exposures@[seller_id.0 as int]@,
                contract_id,
            ),
    {
        let seller_credit_limit = self.players[seller_id.0].credit_limit;
        let seller_exposure = &session.exposures[seller_id.0];
        proof {
            assert(self@.players[seller_id.0 as int].wf());
            assert(session.exposures@[seller_id.0 as int].wf());
            seller_exposure@.lemma_magnitude(contract_id);
        }
        let seller_exposed = seller_exposure.total_exposure_to_contract(contract_id);
        if seller_credit_limit - seller_exposed > 0 {
            seller_credit_limit - seller_exposed
        } else {
            0
        }
    }
}

impl Session {
    /// The book of the market under the working snapshots: for each range
    /// of each participant a bid at its low end and an ask at its high
    /// end, each good for what the participant can still commit, and
    /// posted only where that is 100 cents or more.
    pub fn find_offers(&self, market: &Market) -> (offers: Offers)
        requires
            market.wf(),
            self.wf(),
            self.belongs_to(market@),
        ensures
            offers@ == book(market@, self.exposure_models()),
            offers.wf(),
            offers.fits(market@),
            book_sound(offers@, market@, self.exposure_models()),
    {
        let ghost m = market@;
        let ghost es = self.exposure_models();
        let mut offers = Offers::new();
        let mut p: usize = 0;
        while p < market.players.len()
            invariant
                p <= market.players.len(),
                m == market@,
                es == self.exposure_models(),
                market.wf(),
                self.wf(),
                self.belongs_to(market@),
                offers.wf(),
                book_sound(offers@, m, es),
                offers@ == book_of(m, es, p as nat),
            decreases market.players.len() - p,
        {
            let player = &market.players[p];
            let player_id = PlayerID(p);
            let ghost start = offers@;
            let mut k: usize = 0;
            while k < player.ranges.len()
                invariant
                    k <= player.ranges.len(),
                    p < market.players.len(),
                    player_id == PlayerID(p),
                    *player == market.players@[p as int],
                    m == market@,
                    es == self.exposure_models(),
                    market.wf(),
                    self.wf(),
                    self.belongs_to(market@),
                    offers.wf(),
                    book_sound(offers@, m, es),
                    offers@ == post_ranges(start, m, es, p as int, k as nat),
                decreases player.ranges.len() - k,
            {
                let range = player.ranges[k];
                proof {
                    assert(m.players[p as int].wf());
                    assert(m.players[p as int].ranges[k as int] == range);
                    assert(range.valid());
                    assert(m.open_contract(m.players[p as int].ranges[k as int].contract_id));
                }
                let buy_amount = market.player_max_buy_amount(self, player_id, range.contract_id);
                let sell_amount = market.player_max_sell_amount(
                    self,
                    player_id,
                    range.contract_id,
                );
                proof {
                    assert(es[p as int] == self.exposures@[p as int]@);
                }
                if buy_amount >= 100 {
                    proof {
                        let q = Quote { price: range.low, player_id, amount: buy_amount };
                        assert(q.player_id.0 as int == p);
                        assert(bid_sound(m, es, range.contract_id, q));
                        lemma_with_buy(
                            offers@,
                            range.contract_id,
                            Quote { price: range.low, player_id, amount: buy_amount },
                            m,
                            es,
                        );
                    }
                    offers.add_buy_offer(range.contract_id, player_id, range.low, buy_amount);
                }
                if sell_amount >= 100 {
                    proof {
                        let q = Quote { price: range.high, player_id, amount: sell_amount };
                        assert(q.player_id.0 as int == p);
                        assert(ask_sound(m, es, range.contract_id, q));
                        lemma_with_sell(
                            offers@,
                            range.contract_id,
                            Quote { price: range.high, player_id, amount: sell_amount },
                            m,
                            es,
                        );
                    }
                    offers.add_sell_offer(range.contract_id, player_id, range.high, sell_amount);
                }
                k += 1;
            }
            p += 1;
        }
        proof {
            assert forall|i: int| 0 <= i < offers@.len() implies {
                &&& (#[trigger] offers@[i]).0.0 < m.contracts.len()
                &&& forall|j: int|
                    0 <= j < offers@[i].1.buy.len() ==> (#[trigger] offers@[i].1.buy[j]).player_id.0
                        < m.players.len()
                &&& forall|j: int|
                    0 <= j < offers@[i].1.sell.len() ==> (
                    #[trigger] offers@[i].1.sell[j]).player_id.0 < m.players.len()
            } by {
                assert forall|j: int| 0 <= j < offers@[i].1.buy.len() implies (
                #[trigger] offers@[i].1.buy[j]).player_id.0 < m.players.len() by {
                    assert(bid_sound(m, es, offers@[i].0, offers@[i].1.buy[j]));
                }
                assert forall|j: int| 0 <= j < offers@[i].1.sell.len() implies (
                #[trigger] offers@[i].1.sell[j]).player_id.0 < m.players.len() by {
                    assert(ask_sound(m, es, offers@[i].0, offers@[i].1.sell[j]));
                }
            }
        }
        offers
    }

    /// The trades that the book allows: one for each contract whose
    /// highest bid is at or above its lowest ask, best first: the larger
    /// spread before the smaller, and among equal spreads the contract
    /// whose name comes first in the alphabet.
    pub fn find_trades(&self, market: &Market, offers: &Offers) -> (r: Vec<Crossing>)
        requires
            market.wf(),
            offers.wf(),
            offers.fits(market@),
        ensures
            r@ == ranked(crossings(offers@, market@), market@),
            r@.to_multiset() =~= crossings(offers@, market@).to_multiset(),
            forall|x: Crossing| #[trigger]
                r@.contains(x) <==> crossings(offers@, market@).contains(x),
            in_order(r@, by_rank(market@)),
            forall|i: int, j: int|
                0 <= i < j < r@.len() ==> r@[i] == r@[j] || #[trigger] precedes(
                    market@,
                    r@[i],
                    r@[j],
                ),
    {
        let found = offers.find_crossings(market);
        proof {
            lemma_crossings_decided(offers@, market@);
            law_arranged(found@, by_rank(market@));
            lemma_precedes_passes_on(market@);
            let t = ranked(found@, market@);
            assert forall|i: int, j: int| 0 <= i < j < t.len() implies t[i] == t[j]
                || #[trigger] precedes(market@, t[i], t[j]) by {
                lemma_in_order_pairs(t, by_rank(market@), i, j);
            }
            t.to_multiset_ensures();
            found@.to_multiset_ensures();
            assert forall|x: Crossing| #[trigger] t.contains(x) <==> found@.contains(x) by {
                assert(t.to_multiset().count(x) == found@.to_multiset().count(x));
                assert(t.contains(x) <==> t.to_multiset().count(x) > 0);
                assert(found@.contains(x) <==> found@.to_multiset().count(x) > 0);
            }
        }
        rank_crossings(&found, market)
    }
}

} // verus!
