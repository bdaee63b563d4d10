//! What the exchange reports of a session and of the ledger: clearing
//! prices, the spread that the holders of open IOUs stand for, and the
//! profit or loss of a participant under each outcome.

use crate::exposure::ExposureModel;
use crate::ledger::{Condition, ContractID, Iou, IouStatus, PlayerID, Price};
use crate::market::{find_range, has_range, range_index, Market};
use crate::order::{arranged, in_order, law_arranged, lemma_rank_is, placed};
use crate::replay::{lemma_volume_prefix, replay};
use crate::session::Trade;
use vstd::prelude::*;
use vstd::string::StringExecFns;

verus! {

/// The character of a decimal digit.
pub open spec fn digit(d: int) -> char {
    (('0' as u8) + d) as char
}

/// The decimal digits of a number, without leading zeros.
pub open spec fn decimal(n: nat) -> Seq<char>
    decreases n,
{
    if n < 10 {
        seq![digit(n as int)]
    } else {
        decimal(n / 10).push(digit((n % 10) as int))
    }
}

/// An amount of cents as it is written: a minus sign if it is negative, a
/// dollar sign, the dollars, a full stop, and the cents in two digits.
pub open spec fn cents_text(amount: int) -> Seq<char> {
    let value = if amount < 0 {
        -amount
    } else {
        amount
    };
    let body = (seq!['$'] + decimal((value / 100) as nat)).push('.').push(
        digit(value % 100 / 10),
    ).push(digit(value % 10));
    if amount < 0 {
        seq!['-'] + body
    } else {
        body
    }
}

/// The character of the decimal digit `d`.
fn digit_char(d: u8) -> (c: char)
    requires
        d < 10,
    ensures
        c == digit(d as int),
{
    (48u8 + d) as char
}

/// The decimal digits of `n`, without leading zeros.
pub fn decimal_text(n: u64) -> (r: String)
    ensures
        r@ == decimal(n as nat),
    decreases n,
{
    if n < 10 {
        let mut r = String::new();
        r.push(digit_char(n as u8));
        assert(r@ =~= seq![digit(n as int)]);
        r
    } else {
        let mut r = decimal_text(n / 10);
        r.push(digit_char((n % 10) as u8));
        r
    }
}

/// The amount of cents as it is written, such as `$9.90` and `-$0.05`.
pub fn format_cents(amount: Price) -> (r: String)
    ensures
        r@ == cents_text(amount as int),
{
    let value: u64 = if amount < 0 {
        (-(amount as i64)) as u64
    } else {
        amount as u64
    };
    let mut r = String::new();
    if amount < 0 {
        r.push('-');
    }
    r.push('$');
    let dollars = decimal_text(value / 100);
    r.append(dollars.as_str());
    r.push('.');
    r.push(digit_char((value % 100 / 10) as u8));
    r.push(digit_char((value % 10) as u8));
    proof {
        let body = (seq!['$'] + decimal((value / 100) as nat)).push('.').push(
            digit((value % 100 / 10) as int),
        ).push(digit((value % 10) as int));
        if amount < 0 {
            assert(r@ =~= seq!['-'] + body);
        } else {
            assert(r@ =~= body);
        }
    }
    r
}

/// The units of the contract that changed hands in `trades`.
pub open spec fn traded_units(trades: Seq<Trade>, c: ContractID) -> int
    decreases trades.len(),
{
    if trades.len() == 0 {
        0
    } else {
        traded_units(trades.drop_last(), c) + if trades.last().contract_id == c {
            trades.last().trade_units as int
        } else {
            0
        }
    }
}

/// The cents that the buyers of the contract committed in `trades`.
pub open spec fn traded_amount(trades: Seq<Trade>, c: ContractID) -> int
    decreases trades.len(),
{
    if trades.len() == 0 {
        0
    } else {
        traded_amount(trades.drop_last(), c) + if trades.last().contract_id == c {
            trades.last().amount as int
        } else {
            0
        }
    }
}

/// The sums over trades stay within what the number of trades allows.
pub proof fn lemma_traded_bounds(trades: Seq<Trade>, c: ContractID)
    ensures
        -0x8000_0000 * trades.len() <= traded_units(trades, c) <= 0x8000_0000 * trades.len(),
        -0x8000_0000 * trades.len() <= traded_amount(trades, c) <= 0x8000_0000 * trades.len(),
    decreases trades.len(),
{
    if trades.len() > 0 {
        lemma_traded_bounds(trades.drop_last(), c);
    }
}

/// The price in percent at which the contract cleared in `trades`: the
/// cents that its buyers committed, by the units that changed hands,
/// rounded down. `None` where nothing was committed.
pub fn clearing_price(trades: &Vec<Trade>, contract_id: ContractID) -> (r: Option<i128>)
    ensures
        r is Some <==> traded_amount(trades@, contract_id) > 0 && traded_units(
            trades@,
            contract_id,
        ) > 0,
        r is Some ==> r->Some_0 == traded_amount(trades@, contract_id) / traded_units(
            trades@,
            contract_id,
        ),
{
    let mut total_units: i128 = 0;
    let mut total_amount: i128 = 0;
    let mut i: usize = 0;
    proof {
        assert(trades@.take(0) =~= Seq::empty());
    }
    while i < trades.len()
        invariant
            i <= trades.len(),
            total_units == traded_units(trades@.take(i as int), contract_id),
            total_amount == traded_amount(trades@.take(i as int), contract_id),
        decreases trades.len() - i,
    {
        proof {
            assert(trades@.take(i + 1).drop_last() =~= trades@.take(i as int));
            lemma_traded_bounds(trades@.take(i as int), contract_id);
            assert(0x8000_0000 * i <= 0x8000_0000 * 0xffff_ffff_ffff_ffff) by (nonlinear_arith)
                requires
                    i <= 0xffff_ffff_ffff_ffff,
            ;
        }
        if trades[i].contract_id == contract_id {
            total_units = total_units + trades[i].trade_units as i128;
            total_amount = total_amount + trades[i].amount as i128;
        }
        i += 1;
    }
    proof {
        assert(trades@.take(i as int) =~= trades@);
    }
    if total_amount > 0 && total_units > 0 {
        Some(total_amount / total_units)
    } else {
        None
    }
}

/// The profit or loss of a participant under each outcome.
#[derive(Debug, Clone, PartialEq, Eq)]
pub struct Outcomes {
    /// For each contract of the catalog, in its order: the profit or loss
    /// if the contract comes true, and the contract.
    pub by_contract: Vec<(Price, ContractID)>,
    /// The profit or loss if no contract comes true.
    pub otherwise: Price,
}

/// The profit or loss under each of the first `n` contracts coming true,
/// for the snapshot `e`.
pub open spec fn outcomes_upto(e: ExposureModel, n: nat) -> Seq<(Price, ContractID)> {
    Seq::new(n, |i: int| (e.outcome(ContractID(i as usize)) as Price, ContractID(i as usize)))
}

/// Of the outcomes, those that are worth a line of their own: neither
/// nothing nor the same as if no contract came true.
pub open spec fn notable(outcomes: Seq<(Price, ContractID)>, otherwise: Price) -> Seq<
    (Price, ContractID),
>
    decreases outcomes.len(),
{
    if outcomes.len() == 0 {
        Seq::empty()
    } else {
        let rest = notable(outcomes.drop_last(), otherwise);
        if outcomes.last().0 != 0 && outcomes.last().0 != otherwise {
            rest.push(outcomes.last())
        } else {
            rest
        }
    }
}

/// The order in which outcomes are listed: the larger profit first, and
/// among equal ones the contract that was entered later.
pub open spec fn by_outcome() -> spec_fn((Price, ContractID), (Price, ContractID)) -> bool {
    |a: (Price, ContractID), b: (Price, ContractID)| a.0 > b.0 || (a.0 == b.0 && a.1.0 > b.1.0)
}

/// The outcomes that are worth a line of their own, as they are listed.
pub open spec fn listed_outcomes(outcomes: Seq<(Price, ContractID)>, otherwise: Price) -> Seq<
    (Price, ContractID),
> {
    arranged(notable(outcomes, otherwise), by_outcome())
}

/// Puts the outcome `x` in its place among the outcomes `v`.
fn place_outcome(v: &mut Vec<(Price, ContractID)>, x: (Price, ContractID))
    ensures
        final(v)@ == placed(old(v)@, x, by_outcome()),
{
    let ghost before = by_outcome();
    let mut j: usize = v.len();
    while j > 0 && (x.0 > v[j - 1].0 || (x.0 == v[j - 1].0 && x.1.0 > v[j - 1].1.0))
        invariant
            j <= v.len(),
            *v == *old(v),
            before == by_outcome(),
            forall|k: int| j <= k < v@.len() ==> before(x, #[trigger] v@[k]),
        decreases j,
    {
        j -= 1;
    }
    proof {
        lemma_rank_is(v@, x, before, j as int);
    }
    v.insert(j, x);
}

impl Outcomes {
    /// The outcomes that are worth a line of their own, neither nothing
    /// nor the same as if no contract came true, as they are listed: the
    /// larger profit first.
    pub fn notable(&self) -> (r: Vec<(Price, ContractID)>)
        ensures
            r@ == listed_outcomes(self.by_contract@, self.otherwise),
            r@.to_multiset() =~= notable(self.by_contract@, self.otherwise).to_multiset(),
            in_order(r@, by_outcome()),
    {
        let mut found: Vec<(Price, ContractID)> = Vec::new();
        let mut i: usize = 0;
        proof {
            assert(self.by_contract@.take(0) =~= Seq::empty());
        }
        while i < self.by_contract.len()
            invariant
                i <= self.by_contract.len(),
                found@ == listed_outcomes(self.by_contract@.take(i as int), self.otherwise),
            decreases self.by_contract.len() - i,
        {
            let (outcome, contract_id) = self.by_contract[i];
            proof {
                let before = self.by_contract@.take(i as int);
                let kept = notable(before, self.otherwise);
                assert(self.by_contract@.take(i + 1).drop_last() =~= before);
                assert(self.by_contract@.take(i + 1).last() == (outcome, contract_id));
                assert(kept.push((outcome, contract_id)).drop_last() =~= kept);
            }
            if outcome != 0 && outcome != self.otherwise {
                place_outcome(&mut found, (outcome, contract_id));
            }
            i += 1;
        }
        proof {
            assert(self.by_contract@.take(i as int) =~= self.by_contract@);
            let kept = notable(self.by_contract@, self.otherwise);
            assert forall|j: int, k: int| 0 <= j < kept.len() && 0 <= k < kept.len() implies kept[j]
                == kept[k] || #[trigger] by_outcome()(kept[j], kept[k]) || by_outcome()(
                kept[k],
                kept[j],
            ) by {}
            law_arranged(kept, by_outcome());
        }
        found
    }
}

/// The holder's ask in percent on the contract: the high end of the
/// holder's range, or 100 without a range.
pub open spec fn holder_ask(m: crate::market::MarketModel, holder: PlayerID, c: ContractID) -> int {
    let ranges = m.players[holder.0 as int].ranges;
    if has_range(ranges, c) {
        ranges[range_index(ranges, c)].high as int
    } else {
        100
    }
}

/// The holder's bid in percent on the contract: the low end of the
/// holder's range, or 0 without a range.
pub open spec fn holder_bid(m: crate::market::MarketModel, holder: PlayerID, c: ContractID) -> int {
    let ranges = m.players[holder.0 as int].ranges;
    if has_range(ranges, c) {
        ranges[range_index(ranges, c)].low as int
    } else {
        0
    }
}

/// The sums that the cleared spread of a contract is made of.
pub struct Cleared {
    /// The amounts of the open IOUs on the contract coming true.
    pub value: int,
    /// Those amounts, each at the holder's ask.
    pub price: int,
    /// The amounts of the open IOUs on the contract coming false.
    pub neg_value: int,
    /// Those amounts, each at the holder's bid.
    pub neg_price: int,
}

/// The sums over the first IOUs of the ledger.
pub open spec fn cleared(m: crate::market::MarketModel, ious: Seq<Iou>, c: ContractID) -> Cleared
    decreases ious.len(),
{
    if ious.len() == 0 {
        Cleared { value: 0, price: 0, neg_value: 0, neg_price: 0 }
    } else {
        let rest = cleared(m, ious.drop_last(), c);
        let iou = ious.last();
        if iou.status == IouStatus::Unknown(Condition::If(c)) {
            Cleared {
                value: rest.value + iou.amount,
                price: rest.price + iou.amount * holder_ask(m, iou.holder_id, c) / 100,
                ..rest
            }
        } else if iou.status == IouStatus::Unknown(Condition::Not(c)) {
            Cleared {
                neg_value: rest.neg_value + iou.amount,
                neg_price: rest.neg_price + iou.amount * holder_bid(m, iou.holder_id, c) / 100,
                ..rest
            }
        } else {
            rest
        }
    }
}

impl Market {
    /// The profit or loss of the participant under each outcome, from the
    /// ledger.
    pub fn compute_outcomes(&self, player_id: PlayerID) -> (r: Outcomes)
        requires
            self.wf(),
        ensures
            r.otherwise == replay(self@.ious, player_id).otherwise_outcome(),
            r.by_contract@ == outcomes_upto(
                replay(self@.ious, player_id),
                self@.contracts.len(),
            ),
    {
        let exposure = self.calc_exposure(player_id);
        let otherwise = exposure.otherwise_outcome();
        let mut by_contract: Vec<(Price, ContractID)> = Vec::new();
        let mut i: usize = 0;
        while i < self.contracts.len()
            invariant
                i <= self.contracts.len(),
                exposure.wf(),
                by_contract@ == outcomes_upto(exposure@, i as nat),
            decreases self.contracts.len() - i,
        {
            let outcome = exposure.outcome(ContractID(i));
            by_contract.push((outcome, ContractID(i)));
            proof {
                assert(by_contract@ =~= outcomes_upto(exposure@, (i + 1) as nat));
            }
            i += 1;
        }
        proof {
            assert(self.contracts@.len() == self@.contracts.len());
        }
        Outcomes { by_contract, otherwise }
    }

    /// The spread that the holders of the open IOUs on the contract stand
    /// for: the amounts payable if the contract comes false, each at the
    /// holder's bid, as a percentage of those amounts; and the amounts
    /// payable if it comes true, each at the holder's ask, as a percentage
    /// of those. `None` where either kind is missing.
    pub fn cleared_spread(&self, contract_id: ContractID) -> (r: Option<(i64, i64)>)
        requires
            self.wf(),
        ensures
            ({
                let sums = cleared(self@, self@.ious, contract_id);
                &&& r is Some <==> sums.value != 0 && sums.neg_value != 0
                &&& r is Some ==> r->Some_0.0 == sums.neg_price * 100 / sums.neg_value
                    && r->Some_0.1 == sums.price * 100 / sums.value
            }),
    {
        let mut value: i64 = 0;
        let mut price: i64 = 0;
        let mut neg_value: i64 = 0;
        let mut neg_price: i64 = 0;
        let mut i: usize = 0;
        proof {
            assert(self.ious@.take(0) =~= Seq::empty());
            lemma_volume_prefix(self.ious@, 0);
        }
        while i < self.ious.len()
            invariant
                i <= self.ious.len(),
                self.wf(),
                cleared(self@, self.ious@.take(i as int), contract_id) == (Cleared {
                    value: value as int,
                    price: price as int,
                    neg_value: neg_value as int,
                    neg_price: neg_price as int,
                }),
                0 <= value,
                0 <= neg_value,
                value + neg_value <= crate::ledger::volume(self.ious@.take(i as int)),
                0 <= price <= value,
                0 <= neg_price <= neg_value,
            decreases self.ious.len() - i,
        {
            let iou = self.ious[i];
            proof {
                assert(self.ious@.take(i + 1).drop_last() =~= self.ious@.take(i as int));
                lemma_volume_prefix(self.ious@, i as int);
                lemma_volume_prefix(self.ious@, i + 1);
                assert(self.ious@[i as int].amount > 0);
                assert(self@.players[iou.holder_id.0 as int].wf());
            }
            if iou.status == IouStatus::Unknown(Condition::If(contract_id)) {
                let holder = &self.players[iou.holder_id.0];
                let sell: Price = match find_range(&holder.ranges, contract_id) {
                    Some(k) => {
                        proof {
                            crate::market::lemma_range_lookup(holder.ranges@, k as int);
                            assert(holder.ranges@[k as int].valid());
                        }
                        holder.ranges[k].high
                    },
                    None => 100,
                };
                proof {
                    let a = iou.amount as int;
                    let s = sell as int;
                    assert(0 <= a * s <= a * 100 && 0 <= a * s / 100 <= a) by (nonlinear_arith)
                        requires
                            a > 0,
                            0 <= s <= 100,
                    ;
                }
                value = value + iou.amount as i64;
                price = price + (iou.amount as i64) * (sell as i64) / 100;
            } else if iou.status == IouStatus::Unknown(Condition::Not(contract_id)) {
                let holder = &self.players[iou.holder_id.0];
                let buy: Price = match find_range(&holder.ranges, contract_id) {
                    Some(k) => {
                        proof {
                            crate::market::lemma_range_lookup(holder.ranges@, k as int);
                            assert(holder.ranges@[k as int].valid());
                        }
                        holder.ranges[k].low
                    },
                    None => 0,
                };
                proof {
                    let a = iou.amount as int;
                    let b = buy as int;
                    assert(0 <= a * b <= a * 100 && 0 <= a * b / 100 <= a) by (nonlinear_arith)
                        requires
                            a > 0,
                            0 <= b <= 100,
                    ;
                }
                neg_value = neg_value + iou.amount as i64;
                neg_price = neg_price + (iou.amount as i64) * (buy as i64) / 100;
            }
            i += 1;
        }
        proof {
            assert(self.ious@.take(i as int) =~= self.ious@);
        }
        if value != 0 && neg_value != 0 {
            let low = neg_price * 100 / neg_value;
            let high = price * 100 / value;
            Some((low, high))
        } else {
            None
        }
    }
}

} // verus!
