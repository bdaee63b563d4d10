//! Exposure by replay: the snapshot of a participant as the IOUs of a
//! ledger, applied one by one from the first.

use crate::exposure::{abs, lemma_sums_bounds, Exposure, ExposureModel};
use crate::ledger::{volume, Condition, ContractID, Iou, IouStatus, PlayerID};
use crate::market::{ledger_wf, Market, MarketModel};
use vstd::prelude::*;

verus! {

/// The snapshot `m` of the participant `p` after `iou`: booked on the
/// issuer's side, on the holder's side, or not at all. An IOU that its
/// issuer holds adds on the one side what it takes off on the other, and
/// leaves the snapshot as it is.
pub open spec fn apply_iou(m: ExposureModel, p: PlayerID, iou: Iou) -> ExposureModel {
    if iou.issuer_id == iou.holder_id {
        m
    } else if iou.issuer_id == p {
        m.apply_issuer(iou.status, iou.amount as int)
    } else if iou.holder_id == p {
        m.apply_holder(iou.status, iou.amount as int)
    } else {
        m
    }
}

/// The snapshot of the participant `p` from the whole history `ious`.
pub open spec fn replay(ious: Seq<Iou>, p: PlayerID) -> ExposureModel
    decreases ious.len(),
{
    if ious.len() == 0 {
        ExposureModel::empty()
    } else {
        apply_iou(replay(ious.drop_last(), p), p, ious.last())
    }
}

/// Every amount of `ious` is positive.
pub open spec fn amounts_positive(ious: Seq<Iou>) -> bool {
    forall|k: int| 0 <= k < ious.len() ==> (#[trigger] ious[k]).amount > 0
}

/// Booking an amount under a status keeps a snapshot free of double
/// entries and adds at most the amount to its magnitude.
pub proof fn lemma_add_status(m: ExposureModel, status: IouStatus, amount: int)
    requires
        m.distinct(),
    ensures
        m.add_status(status, amount).distinct(),
        m.add_status(status, amount).magnitude() <= m.magnitude() + abs(amount),
{
    match status {
        IouStatus::Void(_) => {},
        IouStatus::True(_) => {},
        IouStatus::Unknown(Condition::If(c)) => {
            m.lemma_add_exposure(c, amount);
        },
        IouStatus::Unknown(Condition::Not(c)) => {
            m.lemma_add_neg_exposure(c, amount);
        },
    }
}

/// The volume of a history grows with each IOU of positive amount.
pub proof fn lemma_volume_prefix(ious: Seq<Iou>, n: int)
    requires
        amounts_positive(ious),
        0 <= n <= ious.len(),
    ensures
        0 <= volume(ious.take(n)) <= volume(ious),
        n < ious.len() ==> volume(ious.take(n + 1)) == volume(ious.take(n)) + ious[n].amount,
    decreases ious.len() - n,
{
    if n == ious.len() {
        assert(ious.take(n) =~= ious);
        lemma_volume_nonnegative(ious);
    } else {
        lemma_volume_prefix(ious, n + 1);
        assert(ious.take(n + 1).drop_last() =~= ious.take(n));
        assert(amounts_positive(ious.take(n))) by {
            assert forall|k: int| 0 <= k < n implies (#[trigger] ious.take(n)[k]).amount > 0 by {
                assert(ious[k].amount > 0);
            }
        }
        lemma_volume_nonnegative(ious.take(n));
    }
}

/// The volume of a history of positive amounts is not negative.
pub proof fn lemma_volume_nonnegative(ious: Seq<Iou>)
    requires
        amounts_positive(ious),
    ensures
        0 <= volume(ious),
    decreases ious.len(),
{
    if ious.len() > 0 {
        assert forall|k: int| 0 <= k < ious.len() - 1 implies (#[trigger] ious.drop_last()[k]).amount
            > 0 by {
            assert(ious[k].amount > 0);
        }
        lemma_volume_nonnegative(ious.drop_last());
    }
}

/// A snapshot by replay has no double entries, and its magnitude is within
/// the volume of the history.
pub proof fn lemma_replay_bounds(ious: Seq<Iou>, p: PlayerID)
    requires
        amounts_positive(ious),
    ensures
        replay(ious, p).distinct(),
        0 <= replay(ious, p).magnitude() <= volume(ious),
    decreases ious.len(),
{
    if ious.len() > 0 {
        let rest = ious.drop_last();
        assert forall|k: int| 0 <= k < rest.len() implies (#[trigger] rest[k]).amount > 0 by {
            assert(ious[k].amount > 0);
        }
        lemma_replay_bounds(rest, p);
        let iou = ious.last();
        assert(iou.amount > 0);
        lemma_add_status(replay(rest, p), iou.status, iou.amount as int);
        lemma_add_status(replay(rest, p), iou.status, -(iou.amount as int));
    }
    lemma_sums_bounds(replay(ious, p).conditional, None);
}

/// A participant whom no IOU of the history names has the empty snapshot.
pub proof fn lemma_replay_untouched(ious: Seq<Iou>, p: PlayerID)
    requires
        forall|k: int|
            0 <= k < ious.len() ==> (#[trigger] ious[k]).issuer_id != p && ious[k].holder_id != p,
    ensures
        replay(ious, p) == ExposureModel::empty(),
    decreases ious.len(),
{
    if ious.len() > 0 {
        let rest = ious.drop_last();
        assert forall|k: int| 0 <= k < rest.len() implies (#[trigger] rest[k]).issuer_id != p
            && rest[k].holder_id != p by {
            assert(ious[k].issuer_id != p);
        }
        lemma_replay_untouched(rest, p);
        assert(ious.last() == ious[ious.len() - 1]);
    }
}

/// What the IOU adds to the debts of the participant `p`: its amount where
/// `p` has issued it, its amount taken off where `p` holds it, and nothing
/// where `p` has issued it and holds it.
pub open spec fn signed_amount(iou: Iou, p: PlayerID) -> int {
    if iou.issuer_id == iou.holder_id {
        0
    } else if iou.issuer_id == p {
        iou.amount as int
    } else if iou.holder_id == p {
        -(iou.amount as int)
    } else {
        0
    }
}

/// Whether an IOU of that status is payable if the contract `c` comes true
/// and every other contract false: a standing IOU is, a cancelled one is
/// not, and an open one is if it is on `c` coming true or on another
/// contract coming false.
pub open spec fn payable_if(status: IouStatus, c: ContractID) -> bool {
    match status {
        IouStatus::Void(_) => false,
        IouStatus::True(_) => true,
        IouStatus::Unknown(Condition::If(k)) => k == c,
        IouStatus::Unknown(Condition::Not(k)) => k != c,
    }
}

/// Whether an IOU of that status is payable if no contract comes true.
pub open spec fn payable_otherwise(status: IouStatus) -> bool {
    match status {
        IouStatus::Void(_) => false,
        IouStatus::True(_) => true,
        IouStatus::Unknown(Condition::If(_)) => false,
        IouStatus::Unknown(Condition::Not(_)) => true,
    }
}

/// What the participant `p` owes, net of what `p` is owed, if the contract
/// `c` comes true and every other contract false: summed over the ledger,
/// IOU by IOU.
pub open spec fn owed_if(ious: Seq<Iou>, p: PlayerID, c: ContractID) -> int
    decreases ious.len(),
{
    if ious.len() == 0 {
        0
    } else {
        owed_if(ious.drop_last(), p, c) + if payable_if(ious.last().status, c) {
            signed_amount(ious.last(), p)
        } else {
            0
        }
    }
}

/// What the participant `p` owes, net of what `p` is owed, if no contract
/// comes true: summed over the ledger, IOU by IOU.
pub open spec fn owed_otherwise(ious: Seq<Iou>, p: PlayerID) -> int
    decreases ious.len(),
{
    if ious.len() == 0 {
        0
    } else {
        owed_otherwise(ious.drop_last(), p) + if payable_otherwise(ious.last().status) {
            signed_amount(ious.last(), p)
        } else {
            0
        }
    }
}

/// The exposure that a snapshot by replay gives for an outcome is what the
/// ledger, summed IOU by IOU, says the participant owes under the outcome.
pub proof fn law_exposure_by_ledger(ious: Seq<Iou>, p: PlayerID, c: ContractID)
    ensures
        replay(ious, p).distinct(),
        replay(ious, p).total_exposure_to_contract(c) == owed_if(ious, p, c),
        replay(ious, p).total_neg_exposure() == owed_otherwise(ious, p),
    decreases ious.len(),
{
    if ious.len() > 0 {
        let rest = ious.drop_last();
        let iou = ious.last();
        law_exposure_by_ledger(rest, p, c);
        let e = replay(rest, p);
        let amount = signed_amount(iou, p);
        if iou.issuer_id != iou.holder_id && (iou.issuer_id == p || iou.holder_id == p) {
            let t = e.add_status(iou.status, amount);
            assert(t == replay(ious, p));
            match iou.status {
                IouStatus::Void(_) => {},
                IouStatus::True(_) => {
                    e.lemma_same_entries(t);
                },
                IouStatus::Unknown(Condition::If(k)) => {
                    e.lemma_add_exposure(k, amount);
                    assert(t.exposure(c) == e.exposure(c) + if c == k {
                        amount
                    } else {
                        0
                    });
                    assert(t.neg_exposure(c) == e.neg_exposure(c));
                },
                IouStatus::Unknown(Condition::Not(k)) => {
                    e.lemma_add_neg_exposure(k, amount);
                    assert(t.exposure(c) == e.exposure(c));
                    assert(t.neg_exposure(c) == e.neg_exposure(c) + if c == k {
                        amount
                    } else {
                        0
                    });
                },
            }
        }
    }
}

impl MarketModel {
    /// The exposure snapshot of the participant at position `p`, from the
    /// ledger.
    pub open spec fn exposure_of(self, p: int) -> ExposureModel {
        replay(self.ious, PlayerID(p as usize))
    }

    /// Every participant is within the credit limit: under no outcome in
    /// which at most one contract comes true does a participant lose more
    /// than the limit.
    pub open spec fn credit_ok(self) -> bool {
        forall|p: int|
            0 <= p < self.players.len() ==> (#[trigger] self.exposure_of(p)).within_credit(
                self.players[p].credit_limit,
            )
    }

    /// A market stays within the credit limits while its ledger stays as
    /// it is, no credit limit shrinks, and participants only join.
    pub proof fn lemma_credit_kept(self, after: MarketModel)
        requires
            self.credit_ok(),
            ledger_wf(self.ious, self.players.len()),
            after.ious == self.ious,
            after.players.len() >= self.players.len(),
            forall|p: int|
                0 <= p < self.players.len() ==> (#[trigger] after.players[p]).credit_limit
                    >= self.players[p].credit_limit,
            forall|p: int|
                self.players.len() <= p < after.players.len() ==> (
                #[trigger] after.players[p]).credit_limit >= 0,
            after.players.len() <= usize::MAX,
        ensures
            after.credit_ok(),
    {
        assert forall|p: int| 0 <= p < after.players.len() implies (#[trigger] after.exposure_of(
            p,
        )).within_credit(after.players[p].credit_limit) by {
            if p < self.players.len() {
                assert(self.exposure_of(p).within_credit(self.players[p].credit_limit));
                assert(after.players[p].credit_limit >= self.players[p].credit_limit);
            } else {
                assert forall|k: int| 0 <= k < self.ious.len() implies (
                #[trigger] self.ious[k]).issuer_id != PlayerID(p as usize)
                    && self.ious[k].holder_id != PlayerID(p as usize) by {}
                lemma_replay_untouched(self.ious, PlayerID(p as usize));
                assert(after.players[p].credit_limit >= 0);
            }
        }
    }
}

impl Market {
    /// The exposure snapshot of a participant, by replay of the whole
    /// ledger.
    pub fn calc_exposure(&self, player_id: PlayerID) -> (e: Exposure)
        requires
            self.wf(),
        ensures
            e@ == replay(self@.ious, player_id),
            e.wf(),
    {
        let mut exposure = Exposure::new();
        let mut i: usize = 0;
        proof {
            assert(self.ious@.take(0) =~= Seq::empty());
            lemma_volume_prefix(self.ious@, 0);
        }
        while i < self.ious.len()
            invariant
                i <= self.ious.len(),
                self.wf(),
                exposure.wf(),
                exposure@ == replay(self.ious@.take(i as int), player_id),
                exposure@.magnitude() <= volume(self.ious@.take(i as int)) <= volume(self.ious@),
            decreases self.ious.len() - i,
        {
            let iou = &self.ious[i];
            proof {
                assert(self.ious@.take(i + 1).drop_last() =~= self.ious@.take(i as int));
                lemma_volume_prefix(self.ious@, i as int);
                lemma_volume_prefix(self.ious@, i + 1);
                assert(self.ious@[i as int].amount > 0);
                lemma_add_status(exposure@, iou.status, iou.amount as int);
                lemma_add_status(exposure@, iou.status, -(iou.amount as int));
            }
            if iou.issuer_id == iou.holder_id {
            } else if iou.issuer_id == player_id {
                exposure.apply_iou_issuer(&iou.status, iou.amount);
            } else if iou.holder_id == player_id {
                exposure.apply_iou_holder(&iou.status, iou.amount);
            }
            i += 1;
        }
        proof {
            assert(self.ious@.take(i as int) =~= self.ious@);
        }
        exposure
    }
}

} // verus!
