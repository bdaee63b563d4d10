//! The matching engine: a session crosses the book trade by trade until no
//! contract crosses any more, and then commits its IOUs to the ledger.

use crate::exposure::ExposureModel;
use crate::ledger::{
    volume, Condition, ContractID, Iou, IouStatus, PlayerID, Price, MAX_VOLUME,
};
use crate::book::lemma_book_sound;
use crate::market::{ledger_wf, lemma_range_lookup, Market, MarketModel};
use crate::offers::{
    crossings, first_crossing, law_ranked_first, lemma_crossings, lemma_crossings_decided,
    lemma_first_crossing, listed_spreads, BookEntry, Crossing, Offers,
};
use crate::replay::{amounts_positive, lemma_replay_bounds, lemma_volume_prefix, replay};
use crate::session::{
    ask_sound, bid_sound, book, book_sound, buy_amount, if_iou, not_iou, sell_amount, settle,
    trade_of, units_of, Session, Trade,
};
use vstd::prelude::*;

verus! {

/// Why a session failed.
#[derive(Copy, Clone, Debug, PartialEq, Eq, Structural)]
pub enum SessionError {
    /// A trade left its buyer or its seller over the credit limit.
    CreditExceeded,
    /// The trades would take the ledger over the volume limit.
    LedgerFull,
}

/// What a session did: its trades in the order in which they were made, and
/// for each contract of the final book that has not resolved the best bid
/// and the best ask, 0 and 100 where a side is empty, in the order of the
/// contracts' names.
#[derive(Debug)]
pub struct SessionReport {
    pub trades: Vec<Trade>,
    pub spreads: Vec<(ContractID, Price, Price)>,
}

/// The IOUs and the trades that a session has made so far.
pub struct Progress {
    pub ious: Seq<Iou>,
    pub trades: Seq<Trade>,
}

impl MarketModel {
    /// The room that the ledger leaves under the volume limit.
    pub open spec fn room(self) -> int {
        MAX_VOLUME - volume(self.ious)
    }
}

/// The exposure snapshots of all participants of `m` once the session has
/// issued `ious`.
pub open spec fn snapshots(m: MarketModel, ious: Seq<Iou>) -> Seq<ExposureModel> {
    Seq::new(m.players.len(), |p: int| replay(m.ious + ious, PlayerID(p as usize)))
}

/// The book of `m` once the session has issued `ious`.
pub open spec fn book_after(m: MarketModel, ious: Seq<Iou>) -> Seq<BookEntry> {
    book(m, snapshots(m, ious))
}

/// The crossing that a session trades on next, once it has issued `ious`:
/// of all contracts whose book crosses, the one with the largest spread,
/// and among equal spreads the one whose name comes first in the alphabet.
pub open spec fn next_crossing(m: MarketModel, ious: Seq<Iou>) -> Option<Crossing> {
    first_crossing(crossings(book_after(m, ious), m), m)
}

/// The units that change hands on the crossing `x`, once the session has
/// issued `ious`.
pub open spec fn units_at(m: MarketModel, ious: Seq<Iou>, x: Crossing) -> int {
    let es = snapshots(m, ious);
    let b = x.buyer_id.0 as int;
    let s = x.seller_id.0 as int;
    units_of(
        x,
        buy_amount(m.players[b].credit_limit, es[b], x.contract_id),
        sell_amount(m.players[s].credit_limit, es[s], x.contract_id),
    )
}

/// Whether the participant at position `p` is over the credit limit once
/// the session has issued `ious`.
pub open spec fn over_limit(m: MarketModel, ious: Seq<Iou>, p: int) -> bool {
    !snapshots(m, ious)[p].within_credit(m.players[p].credit_limit)
}

/// How a session ends.
pub enum Ending {
    /// No contract crosses any more: the IOUs and trades of the session.
    Done(Progress),
    /// A trade did not fit in the room under the volume limit.
    LedgerFull,
    /// A trade left its buyer or its seller over the credit limit.
    CreditExceeded,
}

/// The session on the market `m` from `done` on, with `room` cents left
/// under the volume limit: it trades on the next crossing, and again, until
/// no contract crosses. It ends early where a trade does not fit in the
/// room, and where a trade leaves its buyer or its seller over the credit
/// limit. A trade is of one unit or more, as `law_next_trade` shows, and so
/// takes 100 cents or more of the room.
pub open spec fn run(m: MarketModel, done: Progress, room: int) -> Ending
    decreases room,
{
    match next_crossing(m, done.ious) {
        None => Ending::Done(done),
        Some(x) => {
            let units = units_at(m, done.ious, x);
            let next = Progress {
                ious: done.ious.push(if_iou(x, units)).push(not_iou(x, units)),
                trades: done.trades.push(trade_of(x, units)),
            };
            if units < 1 || 100 * units > room {
                Ending::LedgerFull
            } else if over_limit(m, next.ious, x.buyer_id.0 as int) || over_limit(
                m,
                next.ious,
                x.seller_id.0 as int,
            ) {
                Ending::CreditExceeded
            } else {
                run(m, next, room - 100 * units)
            }
        },
    }
}

/// The whole session on the market `m`.
pub open spec fn session_outcome(m: MarketModel) -> Ending {
    run(m, Progress { ious: Seq::empty(), trades: Seq::empty() }, m.room())
}

/// Two markets that hold the same contracts, participants and IOUs trade
/// alike: a session makes the same trades and the same IOUs, in the same
/// order, on both.
pub proof fn law_session_determined(a: Market, b: Market)
    requires
        a@ == b@,
    ensures
        session_outcome(a@) == session_outcome(b@),
{
}

/// What a sound book says of the crossing that an entry of it gives: the
/// buyer and the seller are two participants of the market, each can
/// commit 100 cents or more, and the crossing is priced from 1 to 99
/// percent.
pub proof fn lemma_crossing_sound(
    book: Seq<BookEntry>,
    m: MarketModel,
    es: Seq<ExposureModel>,
    i: int,
)
    requires
        m.wf(),
        crate::offers::book_wf(book),
        book_sound(book, m, es),
        0 <= i < book.len(),
        book[i].1.crosses(),
    ensures
        ({
            let x = book[i].1.crossing(book[i].0, m).unwrap();
            let b = x.buyer_id.0 as int;
            let s = x.seller_id.0 as int;
            &&& x.contract_id == book[i].0
            &&& x.contract_id.0 < m.contracts.len()
            &&& 1 <= x.low <= x.high <= 99
            &&& x.spread == x.high - x.low
            &&& b < m.players.len()
            &&& s < m.players.len()
            &&& b != s
            &&& buy_amount(m.players[b].credit_limit, es[b], x.contract_id) >= 100
            &&& sell_amount(m.players[s].credit_limit, es[s], x.contract_id) >= 100
        }),
{
    let c = book[i].0;
    let e = book[i].1;
    let x = e.crossing(c, m).unwrap();
    assert(e.wf());
    e.lemma_crossing(c, m);
    let hb = e.best_bid().unwrap();
    let la = e.best_ask().unwrap();
    let bi = choose|k: int|
        0 <= k < e.buy.len() && e.buy[k].price == hb && e.buy[k].player_id == x.buyer_id
            && e.buy[k] == crate::offers::best_quote(e.buy, hb, m).unwrap();
    let si = choose|k: int|
        0 <= k < e.sell.len() && e.sell[k].price == la && e.sell[k].player_id == x.seller_id
            && e.sell[k] == crate::offers::best_quote(e.sell, la, m).unwrap();
    assert(bid_sound(m, es, c, e.buy[bi]));
    assert(ask_sound(m, es, c, e.sell[si]));
    let b = x.buyer_id.0 as int;
    let s = x.seller_id.0 as int;
    if b == s {
        let rs = m.players[b].ranges;
        let k1 = choose|k: int|
            0 <= k < rs.len() && (#[trigger] rs[k]).contract_id == c && rs[k].low
                == e.buy[bi].price;
        let k2 = choose|k: int|
            0 <= k < rs.len() && (#[trigger] rs[k]).contract_id == c && rs[k].high
                == e.sell[si].price;
        assert(m.players[b].wf());
        lemma_range_lookup(rs, k1);
        lemma_range_lookup(rs, k2);
        assert(rs[k1].valid());
    }
}

/// What holds of a crossing that a session trades on: it is on a contract
/// of the market and priced from 1 to 99 percent, and its buyer and its
/// seller are two participants who can each commit 100 cents or more.
pub open spec fn tradable(m: MarketModel, es: Seq<ExposureModel>, x: Crossing) -> bool {
    let b = x.buyer_id.0 as int;
    let s = x.seller_id.0 as int;
    &&& x.contract_id.0 < m.contracts.len()
    &&& 1 <= x.low <= x.high <= 99
    &&& x.spread == x.high - x.low
    &&& b < m.players.len()
    &&& s < m.players.len()
    &&& b != s
    &&& buy_amount(m.players[b].credit_limit, es[b], x.contract_id) >= 100
    &&& sell_amount(m.players[s].credit_limit, es[s], x.contract_id) >= 100
}

/// Whatever a session has done so far, its next trade is in order: on a
/// contract of the market, priced from 1 to 99 percent, between two
/// participants who can each commit 100 cents or more, and of one unit or
/// more. And where there is no next trade, no contract crosses.
pub proof fn law_next_trade(m: MarketModel, ious: Seq<Iou>)
    requires
        m.wf(),
        m.players.len() <= usize::MAX,
        ledger_wf(m.ious + ious, m.players.len()),
        volume(m.ious + ious) <= MAX_VOLUME,
    ensures
        next_crossing(m, ious) is Some ==> tradable(
            m,
            snapshots(m, ious),
            next_crossing(m, ious)->Some_0,
        ) && units_at(m, ious, next_crossing(m, ious)->Some_0) >= 1,
        next_crossing(m, ious) is None ==> forall|i: int|
            0 <= i < book_after(m, ious).len() ==> !(#[trigger] book_after(m, ious)[i]).1.crosses(),
{
    let all = m.ious + ious;
    let es = snapshots(m, ious);
    let t = book_after(m, ious);
    assert(amounts_positive(all)) by {
        assert forall|k: int| 0 <= k < all.len() implies (#[trigger] all[k]).amount > 0 by {}
    }
    assert forall|p: int| 0 <= p < es.len() implies (#[trigger] es[p]).wf() by {
        lemma_replay_bounds(all, PlayerID(p as usize));
    }
    lemma_book_sound(m, es);
    lemma_crossings(t, m);
    lemma_first_crossing(crossings(t, m), m);
    match next_crossing(m, ious) {
        None => {},
        Some(x) => {
            let k = choose|k: int| 0 <= k < crossings(t, m).len() && crossings(t, m)[k] == x;
            let i = choose|i: int|
                0 <= i < t.len() && t[i].1.crossing(t[i].0, m) == Some(crossings(t, m)[k]);
            lemma_crossing_sound(t, m, es, i);
            let b = buy_amount(
                m.players[x.buyer_id.0 as int].credit_limit,
                es[x.buyer_id.0 as int],
                x.contract_id,
            );
            let s = sell_amount(
                m.players[x.seller_id.0 as int].credit_limit,
                es[x.seller_id.0 as int],
                x.contract_id,
            );
            let p = crate::session::price_of(x);
            assert(1 <= p <= 99);
            assert(b / p >= 1) by (nonlinear_arith)
                requires
                    b >= 100,
                    1 <= p <= 99,
            ;
            assert(s / (100 - p) >= 1) by (nonlinear_arith)
                requires
                    s >= 100,
                    1 <= p <= 99,
            ;
        },
    }
}

/// No participant loses more than the credit limit if one contract of the
/// catalog comes true and every other one false.
pub open spec fn covered(m: MarketModel, es: Seq<ExposureModel>) -> bool {
    forall|q: int, c: ContractID|
        0 <= q < m.players.len() && c.0 < m.contracts.len() ==> #[trigger] es[q].total_exposure_to_contract(
            c,
        ) <= m.players[q].credit_limit
}

impl MarketModel {
    /// No participant loses more than the credit limit if one contract of
    /// the catalog comes true and every other one false. This is the half
    /// of `credit_ok` that speaks of a contract coming true.
    pub open spec fn exposure_ok(self) -> bool {
        covered(self, snapshots(self, Seq::empty()))
    }
}

/// Every working snapshot of the session is within the credit limit of
/// its participant.
pub open spec fn within_limits(m: MarketModel, session: &Session) -> bool {
    forall|q: int|
        0 <= q < m.players.len() ==> (#[trigger] session.exposures@[q])@.within_credit(
            m.players[q].credit_limit,
        )
}

/// The IOUs are those of the trades, two for each trade in its turn: the
/// seller's IOU payable if the contract comes true, and the buyer's IOU
/// payable if it comes false; and the two amount to 100 cents for each unit
/// of the trade.
pub open spec fn paired(ious: Seq<Iou>, trades: Seq<Trade>) -> bool {
    &&& ious.len() == 2 * trades.len()
    &&& forall|k: int|
        0 <= k < trades.len() ==> {
            let t = #[trigger] trades[k];
            let sold = ious[2 * k];
            let bought = ious[2 * k + 1];
            &&& t.trade_units >= 1
            &&& sold.status == IouStatus::Unknown(Condition::If(t.contract_id))
            &&& bought.status == IouStatus::Unknown(Condition::Not(t.contract_id))
            &&& sold.issuer_id == bought.holder_id
            &&& sold.holder_id == bought.issuer_id
            &&& sold.issuer_id != sold.holder_id
            &&& sold.amount > 0
            &&& bought.amount > 0
            &&& bought.amount == t.amount
            &&& sold.amount + bought.amount == 100 * t.trade_units
        }
}

/// The IOUs and trades of the session so far.
pub open spec fn progress(session: &Session) -> Progress {
    Progress { ious: session.ious@, trades: session.trades@ }
}

/// The working snapshots of a session are the snapshots of its market
/// after its IOUs.
pub proof fn lemma_snapshots(m: MarketModel, session: &Session)
    requires
        session.wf(),
        session.belongs_to(m),
    ensures
        session.exposure_models() == snapshots(m, session.ious@),
{
    let es = session.exposure_models();
    assert forall|q: int| 0 <= q < es.len() implies es[q] == snapshots(m, session.ious@)[q] by {
        assert(session.exposures@[q].wf());
    }
    assert(es =~= snapshots(m, session.ious@));
}

impl Market {
    /// The sum of the amounts of all IOUs of the ledger.
    pub fn ledger_volume(&self) -> (r: Price)
        requires
            self.wf(),
        ensures
            r == volume(self@.ious),
            0 <= r <= MAX_VOLUME,
    {
        let mut total: Price = 0;
        let mut i: usize = 0;
        proof {
            assert(self.ious@.take(0) =~= Seq::empty());
        }
        while i < self.ious.len()
            invariant
                i <= self.ious.len(),
                self.wf(),
                total == volume(self.ious@.take(i as int)),
                0 <= total <= MAX_VOLUME,
            decreases self.ious.len() - i,
        {
            proof {
                lemma_volume_prefix(self.ious@, i as int);
                lemma_volume_prefix(self.ious@, i + 1);
            }
            total = total + self.ious[i].amount;
            i += 1;
        }
        proof {
            assert(self.ious@.take(i as int) =~= self.ious@);
        }
        total
    }

    /// Whether the participant's working exposure is over the credit limit
    /// under some outcome.
    pub fn check_credit_failure(&self, session: &Session, player_id: PlayerID) -> (failed: bool)
        requires
            self.wf(),
            session.wf(),
            session.belongs_to(self@),
            player_id.0 < self@.players.len(),
        ensures
            failed == !session.exposures@[player_id.0 as int]@.within_credit(
                self@.players[player_id.0 as int].credit_limit,
            ),
    {
        let exposure = &session.exposures[player_id.0];
        proof {
            assert(session.exposures@[player_id.0 as int].wf());
            exposure@.lemma_within_credit(self@.players[player_id.0 as int].credit_limit);
        }
        exposure.worst_exposure() > self.players[player_id.0].credit_limit
    }

    /// Whether every participant is within the credit limit.
    pub fn check_credit(&self) -> (ok: bool)
        requires
            self.wf(),
        ensures
            ok == self@.credit_ok(),
    {
        let session = Session::new(self);
        let ghost m = self@;
        proof {
            assert(session.all_ious() =~= m.ious);
            assert(self.players@.len() == self.players.len());
        }
        let mut p: usize = 0;
        while p < self.players.len()
            invariant
                p <= self.players.len(),
                m == self@,
                self.wf(),
                session.wf(),
                session.belongs_to(m),
                session.all_ious() == m.ious,
                forall|q: int|
                    0 <= q < p ==> (#[trigger] m.exposure_of(q)).within_credit(
                        m.players[q].credit_limit,
                    ),
            decreases self.players.len() - p,
        {
            proof {
                assert(session.exposures@[p as int].wf());
                assert(session.exposures@[p as int]@ == m.exposure_of(p as int));
            }
            if self.check_credit_failure(&session, PlayerID(p)) {
                return false;
            }
            p += 1;
        }
        true
    }

    /// The book under the working snapshots of the session, and the
    /// crossing that the session trades on next.
    fn next_trade(&self, session: &Session) -> (r: (Offers, Option<Crossing>))
        requires
            self.wf(),
            session.wf(),
            session.belongs_to(self@),
        ensures
            r.0.wf(),
            r.0.fits(self@),
            r.0@ == book_after(self@, session.ious@),
            r.1 == next_crossing(self@, session.ious@),
            r.1 is None ==> forall|i: int| 0 <= i < r.0@.len() ==> !(#[trigger] r.0@[i]).1.crosses(),
            r.1 is Some ==> tradable(self@, session.exposure_models(), r.1->Some_0),
    {
        let ghost m = self@;
        let ghost es = session.exposure_models();
        let offers = session.find_offers(self);
        proof {
            lemma_snapshots(m, session);
            lemma_crossings(offers@, m);
            assert forall|k: int| 0 <= k < crossings(offers@, m).len() implies (
            #[trigger] crossings(offers@, m)[k]).contract_id.0 < m.contracts.len() by {
                let i = choose|i: int|
                    0 <= i < offers@.len() && offers@[i].1.crossing(offers@[i].0, m) == Some(
                        crossings(offers@, m)[k],
                    );
                lemma_crossing_sound(offers@, m, es, i);
            }
        }
        let candidates = session.find_trades(self, &offers);
        proof {
            lemma_crossings_decided(offers@, m);
            law_ranked_first(crossings(offers@, m), m);
        }
        let chosen = if candidates.len() > 0 {
            Some(candidates[0])
        } else {
            None
        };
        proof {
            let found = crossings(offers@, m);
            lemma_first_crossing(found, m);
            match chosen {
                None => {},
                Some(x) => {
                    let k = choose|k: int| 0 <= k < found.len() && found[k] == x;
                    let i = choose|i: int|
                        0 <= i < offers@.len() && offers@[i].1.crossing(offers@[i].0, m) == Some(
                            found[k],
                        );
                    lemma_crossing_sound(offers@, m, es, i);
                },
            }
        }
        (offers, chosen)
    }

    /// Makes the trade on the crossing `x`: sizes it, and enters the trade
    /// and its two IOUs in the session. Returns the room that is left
    /// under the volume limit. Fails where the trade does not fit in the
    /// room, and where it leaves its buyer or its seller over the credit
    /// limit.
    fn trade(&self, session: &mut Session, x: Crossing, room: Price) -> (r: Result<
        Price,
        SessionError,
    >)
        requires
            self.wf(),
            old(session).wf(),
            old(session).belongs_to(self@),
            self@.credit_ok() ==> within_limits(self@, old(session)),
            self@.exposure_ok() ==> covered(self@, old(session).exposure_models()),
            0 <= room,
            room == MAX_VOLUME - volume(old(session).all_ious()),
            next_crossing(self@, old(session).ious@) == Some(x),
            tradable(self@, old(session).exposure_models(), x),
            paired(old(session).ious@, old(session).trades@),
        ensures
            r is Err ==> run(self@, progress(old(session)), room as int) == match r->Err_0 {
                SessionError::LedgerFull => Ending::LedgerFull,
                SessionError::CreditExceeded => Ending::CreditExceeded,
            },
            r is Err && r->Err_0 == SessionError::CreditExceeded ==> !self@.credit_ok(),
            r is Ok ==> {
                let left = r->Ok_0;
                &&& final(session).wf()
                &&& final(session).belongs_to(self@)
                &&& self@.credit_ok() ==> within_limits(self@, final(session))
                &&& self@.exposure_ok() ==> covered(self@, final(session).exposure_models())
                &&& 0 <= left < room
                &&& left == MAX_VOLUME - volume(final(session).all_ious())
                &&& paired(final(session).ious@, final(session).trades@)
                &&& run(self@, progress(final(session)), left as int) == run(
                    self@,
                    progress(old(session)),
                    room as int,
                )
            },
    {
        let ghost m = self@;
        let ghost es = session.exposure_models();
        let ghost done = progress(session);
        proof {
            lemma_snapshots(m, session);
            assert(es[x.buyer_id.0 as int] == session.exposures@[x.buyer_id.0 as int]@);
            assert(es[x.seller_id.0 as int] == session.exposures@[x.seller_id.0 as int]@);
        }
        let buyer_max_amount = self.player_max_buy_amount(session, x.buyer_id, x.contract_id);
        let seller_max_amount = self.player_max_sell_amount(session, x.seller_id, x.contract_id);
        let (trade, seller_iou, buyer_iou) = settle(&x, buyer_max_amount, seller_max_amount);
        let ghost units = units_at(m, session.ious@, x);
        proof {
            assert(units == trade.trade_units);
            assert(seller_iou.amount + buyer_iou.amount == 100 * units);
        }
        if seller_iou.amount > room || buyer_iou.amount > room - seller_iou.amount {
            return Err(SessionError::LedgerFull);
        }
        let ghost before = session.all_ious();
        let ghost buyer_before = session.exposures@[x.buyer_id.0 as int]@;
        let ghost seller_before = session.exposures@[x.seller_id.0 as int]@;
        proof {
            assert(session.exposures@[x.buyer_id.0 as int].wf());
            assert(session.exposures@[x.seller_id.0 as int].wf());
            if m.credit_ok() {
                assert(buyer_before.within_credit(m.players[x.buyer_id.0 as int].credit_limit));
                assert(seller_before.within_credit(m.players[x.seller_id.0 as int].credit_limit));
                buyer_before.lemma_buy_within_credit(
                    x.contract_id,
                    seller_iou.amount as int,
                    buyer_iou.amount as int,
                    m.players[x.buyer_id.0 as int].credit_limit,
                );
                seller_before.lemma_sell_within_credit(
                    x.contract_id,
                    seller_iou.amount as int,
                    buyer_iou.amount as int,
                    m.players[x.seller_id.0 as int].credit_limit,
                );
            }
        }
        session.trades.push(trade);
        session.push_iou(seller_iou);
        proof {
            assert(session.all_ious() =~= before.push(seller_iou));
            assert(before.push(seller_iou).drop_last() =~= before);
        }
        let ghost middle = session.all_ious();
        session.push_iou(buyer_iou);
        proof {
            assert(session.all_ious() =~= middle.push(buyer_iou));
            assert(middle.push(buyer_iou).drop_last() =~= middle);
            assert(session.ious@ == done.ious.push(if_iou(x, units)).push(not_iou(x, units)));
            assert(session.trades@ == done.trades.push(trade_of(x, units)));
            assert forall|k: int| 0 <= k < session.trades@.len() implies {
                let t = #[trigger] session.trades@[k];
                let sold = session.ious@[2 * k];
                let bought = session.ious@[2 * k + 1];
                &&& t.trade_units >= 1
                &&& sold.status == IouStatus::Unknown(Condition::If(t.contract_id))
                &&& bought.status == IouStatus::Unknown(Condition::Not(t.contract_id))
                &&& sold.issuer_id == bought.holder_id
                &&& sold.holder_id == bought.issuer_id
                &&& sold.issuer_id != sold.holder_id
                &&& sold.amount > 0
                &&& bought.amount > 0
                &&& bought.amount == t.amount
                &&& sold.amount + bought.amount == 100 * t.trade_units
            } by {
                if k < done.trades.len() {
                    assert(session.trades@[k] == done.trades[k]);
                    assert(session.ious@[2 * k] == done.ious[2 * k]);
                    assert(session.ious@[2 * k + 1] == done.ious[2 * k + 1]);
                }
            }
            if m.credit_ok() {
                assert forall|q: int| 0 <= q < m.players.len() implies (
                #[trigger] session.exposures@[q])@.within_credit(m.players[q].credit_limit) by {
                    if q != x.buyer_id.0 && q != x.seller_id.0 {
                        assert(session.exposures@[q]@ == old(session).exposures@[q]@);
                    }
                }
            }
            lemma_snapshots(m, session);
            assert(snapshots(m, session.ious@)[x.buyer_id.0 as int]
                == session.exposures@[x.buyer_id.0 as int]@);
            assert(snapshots(m, session.ious@)[x.seller_id.0 as int]
                == session.exposures@[x.seller_id.0 as int]@);
        }
        if self.check_credit_failure(session, x.buyer_id) || self.check_credit_failure(
            session,
            x.seller_id,
        ) {
            return Err(SessionError::CreditExceeded);
        }
        proof {
            let after = session.exposure_models();
            assert forall|q: int, c: ContractID|
                m.exposure_ok() &&
                0 <= q < m.players.len() && c.0 < m.contracts.len() implies #[trigger] after[q].total_exposure_to_contract(
                c,
            ) <= m.players[q].credit_limit by {
                if q != x.buyer_id.0 && q != x.seller_id.0 {
                    assert(session.exposures@[q]@ == old(session).exposures@[q]@);
                    assert(es[q].total_exposure_to_contract(c) <= m.players[q].credit_limit);
                } else {
                    assert(session.exposures@[q]@.within_credit(m.players[q].credit_limit));
                }
            }
        }
        Ok(room - seller_iou.amount - buyer_iou.amount)
    }

    /// Runs one matching session. While some contract crosses, the session
    /// trades on the crossing with the largest spread: the buyer issues a
    /// "not" IOU and the seller an "if" IOU, sized by what each can still
    /// commit under the credit limit. When no contract crosses any more,
    /// the IOUs are entered in the ledger, all at once.
    ///
    /// The session fails, and leaves the ledger as it is, where a trade
    /// would take the ledger over the volume limit, and where a trade
    /// leaves its buyer or its seller over the credit limit. The latter
    /// does not happen in a market that is within its credit limits, and
    /// such a market is within them after the session.
    pub fn session(&mut self) -> (r: Result<SessionReport, SessionError>)
        requires
            old(self).wf(),
        ensures
            final(self).wf(),
            final(self)@.contracts == old(self)@.contracts,
            final(self)@.players == old(self)@.players,
            r is Err ==> final(self)@.ious == old(self)@.ious,
            match session_outcome(old(self)@) {
                Ending::LedgerFull => r is Err && r->Err_0 == SessionError::LedgerFull,
                Ending::CreditExceeded => r is Err && r->Err_0 == SessionError::CreditExceeded,
                Ending::Done(done) => {
                    &&& r is Ok
                    &&& final(self)@.ious == old(self)@.ious + done.ious
                    &&& r->Ok_0.trades@ == done.trades
                    &&& r->Ok_0.spreads@ == listed_spreads(
                        book_after(old(self)@, done.ious),
                        old(self)@,
                    )
                    &&& paired(done.ious, done.trades)
                    &&& next_crossing(old(self)@, done.ious) is None
                    &&& forall|i: int|
                        0 <= i < book_after(old(self)@, done.ious).len() ==> !(
                        #[trigger] book_after(old(self)@, done.ious)[i]).1.crosses()
                    &&& forall|i: int|
                        0 <= i < r->Ok_0.spreads@.len() ==> 0 <= (#[trigger] r->Ok_0.spreads@[i]).1
                            < r->Ok_0.spreads@[i].2 <= 100
                },
            },
            old(self)@.exposure_ok() ==> final(self)@.exposure_ok(),
            old(self)@.credit_ok() ==> !(session_outcome(old(self)@) is CreditExceeded)
                && final(self)@.credit_ok(),
    {
        let mut session = Session::new(self);
        let ghost m = self@;
        let mut room: Price = MAX_VOLUME - self.ledger_volume();
        proof {
            assert(session.all_ious() =~= m.ious);
            assert(session.ious@ =~= Seq::empty());
            assert(session.trades@ =~= Seq::empty());
            if m.credit_ok() {
                assert forall|q: int| 0 <= q < m.players.len() implies (
                #[trigger] session.exposures@[q])@.within_credit(m.players[q].credit_limit) by {
                    assert(session.exposures@[q].wf());
                    assert(session.exposures@[q]@ == m.exposure_of(q));
                    assert(m.exposure_of(q).within_credit(m.players[q].credit_limit));
                }
            }
            lemma_snapshots(m, &session);
        }
        loop
            invariant
                m == self@,
                *self == *old(self),
                self.wf(),
                session.wf(),
                session.belongs_to(m),
                m.credit_ok() ==> within_limits(m, &session),
                m.exposure_ok() ==> covered(m, session.exposure_models()),
                0 <= room,
                room == MAX_VOLUME - volume(session.all_ious()),
                paired(session.ious@, session.trades@),
                run(m, progress(&session), room as int) == session_outcome(m),
            decreases room,
        {
            let (offers, chosen) = self.next_trade(&session);
            match chosen {
                None => {
                    let ghost done = progress(&session);
                    let ghost before_commit = session.exposure_models();
                    proof {
                        assert(run(m, done, room as int) == Ending::Done(done));
                    }
                    let spreads = offers.find_spreads(self);
                    let Session { exposures, mut ious, trades, ledger } = session;
                    self.ious.append(&mut ious);
                    proof {
                        assert(self@.contracts =~= m.contracts);
                        assert(self@.players =~= m.players);
                        assert(self@.ious =~= m.ious + done.ious);
                        if m.exposure_ok() {
                            let es = snapshots(self@, Seq::empty());
                            assert(self@.ious + Seq::<Iou>::empty() =~= m.ious + done.ious);
                            assert forall|q: int, c: ContractID|
                                0 <= q < self@.players.len() && c.0
                                    < self@.contracts.len() implies #[trigger] es[q].total_exposure_to_contract(
                                c,
                            ) <= self@.players[q].credit_limit by {
                                assert(exposures@[q].wf());
                                assert(es[q] == exposures@[q]@);
                                assert(before_commit[q] == exposures@[q]@);
                                assert(before_commit[q].total_exposure_to_contract(c)
                                    <= m.players[q].credit_limit);
                            }
                        }
                        if m.credit_ok() {
                            assert forall|q: int| 0 <= q < self@.players.len() implies (
                            #[trigger] self@.exposure_of(q)).within_credit(
                                self@.players[q].credit_limit,
                            ) by {
                                assert(exposures@[q].wf());
                                assert(exposures@[q]@.within_credit(m.players[q].credit_limit));
                            }
                        }
                    }
                    return Ok(SessionReport { trades, spreads });
                },
                Some(x) => {
                    match self.trade(&mut session, x, room) {
                        Err(e) => {
                            return Err(e);
                        },
                        Ok(left) => {
                            room = left;
                        },
                    }
                },
            }
        }
    }
}

} // verus!
