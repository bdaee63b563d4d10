//! Resolution: a contract takes its outcome, the ranges on it go, and every
//! open IOU on it stands or is cancelled.

use crate::exposure::ExposureModel;
use crate::ledger::{volume, Condition, ContractID, Iou, IouStatus, PlayerID};
use crate::replay::replay;
use crate::market::{
    find_range, is_range_of, lemma_without_range, without_range, ContractModel, Market,
    MarketError, MarketModel, PlayerModel,
};
use vstd::prelude::*;

verus! {

/// The IOU after the contract has resolved to `outcome`.
pub open spec fn resolved_iou(iou: Iou, c: ContractID, outcome: bool) -> Iou {
    Iou { status: iou.status.spec_resolve(c, outcome), ..iou }
}

/// The ledger after the contract has resolved to `outcome`.
pub open spec fn resolved_ious(ious: Seq<Iou>, c: ContractID, outcome: bool) -> Seq<Iou> {
    Seq::new(ious.len(), |k: int| resolved_iou(ious[k], c, outcome))
}

/// The participant without a range on the contract.
pub open spec fn resolved_player(player: PlayerModel, c: ContractID) -> PlayerModel {
    PlayerModel { ranges: without_range(player.ranges, c), ..player }
}

impl MarketModel {
    /// The market after the contract `c` has resolved to `outcome`: the
    /// contract has its outcome, no participant has a range on it, and
    /// every IOU has the status that the outcome gives it.
    pub open spec fn resolved(self, c: ContractID, outcome: bool) -> MarketModel {
        MarketModel {
            contracts: self.contracts.update(
                c.0 as int,
                ContractModel { outcome: Some(outcome), ..self.contracts[c.0 as int] },
            ),
            players: Seq::new(self.players.len(), |p: int| resolved_player(self.players[p], c)),
            ious: resolved_ious(self.ious, c, outcome),
        }
    }
}

/// Resolution changes no amount, so the volume of the ledger stays.
pub proof fn lemma_resolved_volume(ious: Seq<Iou>, c: ContractID, outcome: bool)
    ensures
        volume(resolved_ious(ious, c, outcome)) == volume(ious),
    decreases ious.len(),
{
    if ious.len() > 0 {
        lemma_resolved_volume(ious.drop_last(), c, outcome);
        assert(resolved_ious(ious, c, outcome).drop_last() =~= resolved_ious(
            ious.drop_last(),
            c,
            outcome,
        ));
    }
}

/// After a contract has resolved true, every open IOU payable if it comes
/// true stands and every open IOU payable if it comes false is cancelled;
/// after it has resolved false, the other way round. No other IOU changes
/// its status, and no IOU changes in anything else.
pub proof fn law_resolution(m: MarketModel, c: ContractID, outcome: bool, k: int)
    requires
        0 <= k < m.ious.len(),
    ensures
        m.resolved(c, outcome).ious.len() == m.ious.len(),
        m.resolved(c, outcome).ious[k].issuer_id == m.ious[k].issuer_id,
        m.resolved(c, outcome).ious[k].holder_id == m.ious[k].holder_id,
        m.resolved(c, outcome).ious[k].amount == m.ious[k].amount,
        m.ious[k].status == IouStatus::Unknown(Condition::If(c)) ==> m.resolved(
            c,
            outcome,
        ).ious[k].status == if outcome {
            IouStatus::True(Condition::If(c))
        } else {
            IouStatus::Void(Condition::If(c))
        },
        m.ious[k].status == IouStatus::Unknown(Condition::Not(c)) ==> m.resolved(
            c,
            outcome,
        ).ious[k].status == if outcome {
            IouStatus::Void(Condition::Not(c))
        } else {
            IouStatus::True(Condition::Not(c))
        },
        m.ious[k].status != IouStatus::Unknown(Condition::If(c)) && m.ious[k].status
            != IouStatus::Unknown(Condition::Not(c)) ==> m.resolved(c, outcome).ious[k].status
            == m.ious[k].status,
{
}

/// Resolving an open contract of a well-formed market leaves the market
/// well formed.
pub proof fn lemma_resolved_wf(m: MarketModel, c: ContractID, outcome: bool)
    requires
        m.wf(),
        c.0 < m.contracts.len(),
    ensures
        m.resolved(c, outcome).wf(),
{
    let t = m.resolved(c, outcome);
    lemma_resolved_volume(m.ious, c, outcome);
    assert forall|p: int| 0 <= p < t.players.len() implies (#[trigger] t.players[p]).wf() by {
        assert(m.players[p].wf());
        lemma_without_range(m.players[p].ranges, c);
        assert forall|i: int| 0 <= i < t.players[p].ranges.len() implies (
        #[trigger] t.players[p].ranges[i]).valid() by {
            let r = t.players[p].ranges[i];
            assert(is_range_of(t.players[p].ranges, r));
            assert(is_range_of(m.players[p].ranges, r));
            let j = choose|j: int| 0 <= j < m.players[p].ranges.len() && m.players[p].ranges[j] == r;
            assert(m.players[p].ranges[j].valid());
        }
    }
    assert forall|p: int, i: int|
        0 <= p < t.players.len() && 0 <= i < t.players[p].ranges.len() implies t.open_contract(
        (#[trigger] t.players[p].ranges[i]).contract_id,
    ) by {
        assert(m.players[p].wf());
        lemma_without_range(m.players[p].ranges, c);
        let r = t.players[p].ranges[i];
        assert(is_range_of(t.players[p].ranges, r));
        assert(is_range_of(m.players[p].ranges, r));
        let j = choose|j: int| 0 <= j < m.players[p].ranges.len() && m.players[p].ranges[j] == r;
        assert(m.open_contract(m.players[p].ranges[j].contract_id));
    }
    assert forall|k: int| 0 <= k < t.ious.len() implies {
        &&& (#[trigger] t.ious[k]).amount > 0
        &&& t.ious[k].issuer_id.0 < t.players.len()
        &&& t.ious[k].holder_id.0 < t.players.len()
    } by {
        assert(m.ious[k].amount > 0);
    }
    assert forall|i: int, j: int|
        0 <= i < t.contracts.len() && 0 <= j < t.contracts.len() && i != j implies t.contracts[i].name
        != t.contracts[j].name by {
        assert(m.contracts[i].name != m.contracts[j].name);
    }
    assert forall|i: int, j: int|
        0 <= i < t.players.len() && 0 <= j < t.players.len() && i != j implies t.players[i].name
        != t.players[j].name by {
        assert(m.players[i].name != m.players[j].name);
    }
}

/// How the snapshot `t` of a participant after the resolution of the
/// contract `c` relates to the snapshot `e` before it: nothing is left
/// open on `c`, the other contracts stand as they stood, and the loss if
/// nothing comes true is now what the loss was if `c` came out as it did.
pub open spec fn settled_from(e: ExposureModel, t: ExposureModel, c: ContractID, outcome: bool) -> bool {
    &&& e.distinct()
    &&& t.distinct()
    &&& t.exposure(c) == 0
    &&& t.neg_exposure(c) == 0
    &&& forall|q: ContractID| q != c ==> #[trigger] t.exposure(q) == e.exposure(q)
    &&& forall|q: ContractID| q != c ==> #[trigger] t.neg_exposure(q) == e.neg_exposure(q)
    &&& t.total_neg_exposure() == if outcome {
        e.total_exposure_to_contract(c)
    } else {
        e.total_neg_exposure()
    }
}

/// Booking an amount under a status before the resolution, and under the
/// resolved status after it, keeps the two snapshots in their relation.
pub proof fn lemma_settled_step(
    e: ExposureModel,
    t: ExposureModel,
    c: ContractID,
    outcome: bool,
    status: IouStatus,
    amount: int,
)
    requires
        settled_from(e, t, c, outcome),
    ensures
        settled_from(
            e.add_status(status, amount),
            t.add_status(status.spec_resolve(c, outcome), amount),
            c,
            outcome,
        ),
{
    let e1 = e.add_status(status, amount);
    let t1 = t.add_status(status.spec_resolve(c, outcome), amount);
    match status {
        IouStatus::Void(_) => {},
        IouStatus::True(_) => {
            e.lemma_same_entries(e1);
            t.lemma_same_entries(t1);
        },
        IouStatus::Unknown(Condition::If(k)) => {
            e.lemma_add_exposure(k, amount);
            if k != c {
                t.lemma_add_exposure(k, amount);
            } else {
                t.lemma_same_entries(t1);
            }
        },
        IouStatus::Unknown(Condition::Not(k)) => {
            e.lemma_add_neg_exposure(k, amount);
            if k != c {
                t.lemma_add_neg_exposure(k, amount);
            } else {
                t.lemma_same_entries(t1);
            }
        },
    }
    assert(t1.exposure(c) == t.exposure(c));
    assert(t1.neg_exposure(c) == t.neg_exposure(c));
    assert forall|q: ContractID| q != c implies #[trigger] t1.exposure(q) == e1.exposure(q) by {
        assert(t.exposure(q) == e.exposure(q));
    }
    assert forall|q: ContractID| q != c implies #[trigger] t1.neg_exposure(q) == e1.neg_exposure(
        q,
    ) by {
        assert(t.neg_exposure(q) == e.neg_exposure(q));
    }
}

/// The snapshot of a participant from the resolved ledger relates to the
/// snapshot from the ledger as `settled_from` says.
pub proof fn lemma_replay_resolved(ious: Seq<Iou>, p: PlayerID, c: ContractID, outcome: bool)
    ensures
        settled_from(replay(ious, p), replay(resolved_ious(ious, c, outcome), p), c, outcome),
    decreases ious.len(),
{
    if ious.len() > 0 {
        let rest = ious.drop_last();
        let iou = ious.last();
        lemma_replay_resolved(rest, p, c, outcome);
        assert(resolved_ious(ious, c, outcome).drop_last() =~= resolved_ious(rest, c, outcome));
        assert(resolved_ious(ious, c, outcome).last() == resolved_iou(iou, c, outcome));
        let e = replay(rest, p);
        let t = replay(resolved_ious(rest, c, outcome), p);
        if iou.issuer_id == iou.holder_id {
        } else if iou.issuer_id == p {
            lemma_settled_step(e, t, c, outcome, iou.status, iou.amount as int);
        } else if iou.holder_id == p {
            lemma_settled_step(e, t, c, outcome, iou.status, -(iou.amount as int));
        }
    }
}

impl MarketModel {
    /// Every participant is within the credit limit even if the contract
    /// `c` and one other contract both come true.
    pub open spec fn jointly_covered(self, c: ContractID) -> bool {
        forall|p: int, q: ContractID|
            0 <= p < self.players.len() && q != c ==> self.exposure_of(
                p,
            ).total_exposure_to_contract(c) + #[trigger] self.exposure_of(p).net(q)
                <= self.players[p].credit_limit
    }
}

/// A market within its credit limits is within them after a contract has
/// resolved false. After a contract has resolved true it is within them
/// where every participant was covered for that contract and any one other
/// coming true together.
pub proof fn law_credit_after_resolution(m: MarketModel, c: ContractID, outcome: bool)
    requires
        m.credit_ok(),
        outcome ==> m.jointly_covered(c),
    ensures
        m.resolved(c, outcome).credit_ok(),
{
    let after = m.resolved(c, outcome);
    assert forall|p: int| 0 <= p < after.players.len() implies (#[trigger] after.exposure_of(
        p,
    )).within_credit(after.players[p].credit_limit) by {
        let e = m.exposure_of(p);
        let t = after.exposure_of(p);
        let limit = m.players[p].credit_limit;
        lemma_replay_resolved(m.ious, PlayerID(p as usize), c, outcome);
        assert(e.within_credit(limit));
        e.lemma_worst_alternative(c);
        assert(e.total_exposure_to_contract(c) <= limit);
        assert(e.total_exposure_to_contract_neg(c) <= limit);
        assert forall|q: ContractID|
            #![trigger t.total_exposure_to_contract(q)]
            #![trigger t.total_exposure_to_contract_neg(q)]
            t.total_exposure_to_contract(q) <= limit && t.total_exposure_to_contract_neg(q)
                <= limit by {
            if q != c {
                assert(t.exposure(q) == e.exposure(q));
                assert(t.neg_exposure(q) == e.neg_exposure(q));
                assert(e.total_exposure_to_contract(q) <= limit);
                if outcome {
                    assert(e.total_exposure_to_contract(c) + e.net(q) <= limit);
                }
            }
            t.lemma_worst_alternative(q);
            if t.worst_alternative(q) != 0 {
                let r = choose|r: ContractID|
                    r != q && #[trigger] t.net(r) == t.worst_alternative(q);
                if r != c {
                    assert(t.exposure(r) == e.exposure(r));
                    assert(t.neg_exposure(r) == e.neg_exposure(r));
                    assert(e.total_exposure_to_contract(r) <= limit);
                    if outcome {
                        assert(e.total_exposure_to_contract(c) + e.net(r) <= limit);
                    }
                }
            }
        }
    }
}

impl Market {
    /// Resolves the contract of that name to `outcome`: the contract takes
    /// the outcome, every range on it is withdrawn, and every open IOU on
    /// it stands if its condition is met and is cancelled otherwise. Fails,
    /// and changes nothing, where no contract has the name or the contract
    /// has resolved already.
    pub fn contract_outcome(&mut self, name: &str, outcome: bool) -> (r: Result<(), MarketError>)
        requires
            old(self).wf(),
        ensures
            final(self).wf(),
            (r is Err && r->Err_0 == MarketError::NoSuchContract) <==> !old(self)@.has_contract(
                name@,
            ),
            (r is Err && r->Err_0 == MarketError::ContractResolved) <==> old(self)@.has_contract(
                name@,
            ) && old(self)@.contracts[old(self)@.contract_index(name@)].outcome is Some,
            r is Err ==> final(self)@ == old(self)@ && (r->Err_0 == MarketError::NoSuchContract
                || r->Err_0 == MarketError::ContractResolved),
            r is Ok ==> final(self)@ == old(self)@.resolved(
                ContractID(old(self)@.contract_index(name@) as usize),
                outcome,
            ),
            old(self)@.credit_ok() && (outcome ==> old(self)@.jointly_covered(
                ContractID(old(self)@.contract_index(name@) as usize),
            )) ==> final(self)@.credit_ok(),
    {
        let contract_id = match self.find_contract(name) {
            Some(contract_id) => contract_id,
            None => {
                return Err(MarketError::NoSuchContract);
            },
        };
        if self.contracts[contract_id.0].outcome.is_some() {
            return Err(MarketError::ContractResolved);
        }
        let ghost m = self@;
        let ghost t = m.resolved(contract_id, outcome);
        proof {
            lemma_resolved_wf(m, contract_id, outcome);
            if m.credit_ok() && (outcome ==> m.jointly_covered(contract_id)) {
                law_credit_after_resolution(m, contract_id, outcome);
            }
        }
        self.contracts[contract_id.0].outcome = Some(outcome);
        proof {
            assert(self@.contracts =~= t.contracts);
            assert(self@.players =~= m.players);
        }
        let mut p: usize = 0;
        while p < self.players.len()
            invariant
                p <= self.players.len(),
                m == old(self)@,
                m.wf(),
                t == m.resolved(contract_id, outcome),
                self@.contracts == t.contracts,
                self@.ious == m.ious,
                self@.players.len() == m.players.len(),
                forall|q: int| 0 <= q < p ==> (#[trigger] self@.players[q]) == t.players[q],
                forall|q: int|
                    p <= q < self@.players.len() ==> (#[trigger] self@.players[q]) == m.players[q],
            decreases self.players.len() - p,
        {
            let ghost before = self@;
            assert(m.players[p as int].wf());
            assert(self@.players[p as int] == m.players[p as int]);
            assert(self.players@[p as int].ranges@ == m.players[p as int].ranges);
            match find_range(&self.players[p].ranges, contract_id) {
                Some(i) => {
                    proof {
                        crate::market::lemma_range_lookup(m.players[p as int].ranges, i as int);
                    }
                    self.players[p].ranges.remove(i);
                },
                None => {},
            }
            proof {
                assert(self@.players[p as int] == t.players[p as int]);
                assert(self@.contracts =~= before.contracts);
                assert forall|q: int| 0 <= q < p implies (#[trigger] self@.players[q])
                    == t.players[q] by {
                    assert(before.players[q] == t.players[q]);
                }
                assert forall|q: int| p < q < self@.players.len() implies (
                #[trigger] self@.players[q]) == m.players[q] by {
                    assert(before.players[q] == m.players[q]);
                }
            }
            p += 1;
        }
        proof {
            assert(self@.players =~= t.players);
        }
        let mut k: usize = 0;
        while k < self.ious.len()
            invariant
                k <= self.ious.len(),
                m == old(self)@,
                t == m.resolved(contract_id, outcome),
                self@.contracts == t.contracts,
                self@.players == t.players,
                self@.ious.len() == m.ious.len(),
                forall|j: int| 0 <= j < k ==> (#[trigger] self@.ious[j]) == t.ious[j],
                forall|j: int| k <= j < self@.ious.len() ==> (#[trigger] self@.ious[j]) == m.ious[j],
            decreases self.ious.len() - k,
        {
            let ghost before = self@;
            let status = self.ious[k].status.resolve(contract_id, outcome);
            self.ious[k].status = status;
            proof {
                assert(self@.contracts =~= before.contracts);
                assert(self@.players =~= before.players);
                assert forall|j: int| 0 <= j < k implies (#[trigger] self@.ious[j])
                    == t.ious[j] by {
                    assert(before.ious[j] == t.ious[j]);
                }
                assert forall|j: int| k < j < self@.ious.len() implies (#[trigger] self@.ious[j])
                    == m.ious[j] by {
                    assert(before.ious[j] == m.ious[j]);
                }
            }
            k += 1;
        }
        proof {
            assert(self@.ious =~= t.ious);
        }
        Ok(())
    }
}

} // verus!
